//! Reading numbers written in decimal, as configuration values are.
use crate::fixed::SCALE;
use vstd::prelude::*;

verus! {

/// Largest integer part a real value may be written with.
pub const INT_PART_LIMIT: u64 = 1000000000000;

/// `b` is an ASCII decimal digit.
pub open spec fn is_digit(b: u8) -> bool {
    48 <= b <= 57
}

/// Every byte of `s` is a decimal digit.
pub open spec fn all_digits(s: Seq<u8>) -> bool {
    forall|i: int| 0 <= i < s.len() ==> is_digit(#[trigger] s[i])
}

/// The number the decimal digits `s` spell (zero for no digits).
pub open spec fn digits_value(s: Seq<u8>) -> int
    decreases s.len(),
{
    if s.len() == 0 {
        0
    } else {
        10 * digits_value(s.drop_last()) + (s.last() - 48)
    }
}

/// `10^n`.
pub open spec fn pow10(n: nat) -> int
    decreases n,
{
    if n == 0 {
        1
    } else {
        10 * pow10((n - 1) as nat)
    }
}

/// Position of the first `.` in `s`, or its length when there is none.
pub open spec fn first_dot(s: Seq<u8>) -> int
    decreases s.len(),
{
    if s.len() == 0 {
        0
    } else if s[0] == 46 {
        0
    } else {
        1 + first_dot(s.drop_first())
    }
}

/// The count that `s` spells: one or more decimal digits whose value is at most
/// `max`; `None` for anything else.
pub open spec fn count_spec(s: Seq<u8>, max: int) -> Option<int> {
    if s.len() > 0 && all_digits(s) && digits_value(s) <= max {
        Some(digits_value(s))
    } else {
        None
    }
}

/// The real value, in millionths, that `s` spells: an optional `+` or `-`, decimal
/// digits, and optionally `.` and more decimal digits, with at least one digit in
/// all and an integer part of at most `INT_PART_LIMIT`. Fraction digits beyond the
/// sixth are dropped. `None` for anything else.
pub open spec fn fixed_spec(s: Seq<u8>) -> Option<int> {
    let negative = s.len() > 0 && s[0] == 45;
    let signed = s.len() > 0 && (s[0] == 45 || s[0] == 43);
    let body = if signed {
        s.drop_first()
    } else {
        s
    };
    let dot = first_dot(body);
    let int_part = body.subrange(0, dot);
    let frac = if dot < body.len() {
        body.subrange(dot + 1, body.len() as int)
    } else {
        Seq::empty()
    };
    let kept = if frac.len() < 6 {
        frac.len()
    } else {
        6
    };
    let magnitude = digits_value(int_part) * SCALE + digits_value(frac.subrange(0, kept as int)) * pow10((6 - kept) as nat);
    if all_digits(int_part) && all_digits(frac) && int_part.len() + frac.len() > 0 && digits_value(int_part)
        <= INT_PART_LIMIT {
        Some(
            if negative {
                -magnitude
            } else {
                magnitude
            },
        )
    } else {
        None
    }
}

/// The powers of ten up to `10^6`.
proof fn lemma_pow10_small()
    ensures
        pow10(0) == 1,
        pow10(1) == 10,
        pow10(2) == 100,
        pow10(3) == 1000,
        pow10(4) == 10000,
        pow10(5) == 100000,
        pow10(6) == 1000000,
{
    reveal_with_fuel(pow10, 7);
}

/// `10^k * 10^(6 - k) == 10^6` for `k <= 6`.
proof fn lemma_pow10_split(k: nat)
    requires
        k <= 6,
    ensures
        pow10(k) * pow10((6 - k) as nat) == 1000000,
        pow10(k) <= 1000000,
        pow10((6 - k) as nat) <= 1000000,
        pow10(k) >= 1,
{
    lemma_pow10_small();
}

/// Digits never lose value when more are appended.
proof fn lemma_digits_prefix_le(s: Seq<u8>, i: int)
    requires
        0 <= i <= s.len(),
        all_digits(s),
    ensures
        0 <= digits_value(s.subrange(0, i)) <= digits_value(s),
    decreases s.len() - i,
{
    if i < s.len() {
        lemma_digits_prefix_le(s, i + 1);
        assert(s.subrange(0, i + 1).drop_last() == s.subrange(0, i));
        assert(is_digit(s[i]));
        lemma_digits_nonneg(s.subrange(0, i));
    } else {
        assert(s.subrange(0, i) == s);
        lemma_digits_nonneg(s);
    }
}

/// Digits spell a non-negative number.
proof fn lemma_digits_nonneg(s: Seq<u8>)
    requires
        all_digits(s),
    ensures
        digits_value(s) >= 0,
    decreases s.len(),
{
    if s.len() > 0 {
        assert(all_digits(s.drop_last()));
        lemma_digits_nonneg(s.drop_last());
        assert(is_digit(s[s.len() - 1]));
    }
}

/// `first_dot` finds a `.` at `i` when none comes before it, and lies beyond `i`
/// when there is no `.` up to and including `i`.
proof fn lemma_first_dot(s: Seq<u8>, i: int)
    requires
        0 <= i <= s.len(),
        forall|k: int| 0 <= k < i ==> #[trigger] s[k] != 46,
    ensures
        i < s.len() && s[i] == 46 ==> first_dot(s) == i,
        i < s.len() && s[i] != 46 ==> first_dot(s) > i,
        i == s.len() ==> first_dot(s) == s.len(),
        first_dot(s) >= i,
        first_dot(s) <= s.len(),
    decreases i,
{
    if i > 0 {
        assert forall|k: int| 0 <= k < i - 1 implies #[trigger] s.drop_first()[k] != 46 by {
            assert(s.drop_first()[k] == s[k + 1]);
        }
        lemma_first_dot(s.drop_first(), i - 1);
        assert(s[0] != 46);
    } else {
        lemma_first_dot_bound(s);
    }
}

/// `first_dot` lies within the sequence.
proof fn lemma_first_dot_bound(s: Seq<u8>)
    ensures
        0 <= first_dot(s) <= s.len(),
        first_dot(s) < s.len() ==> s[first_dot(s)] == 46,
    decreases s.len(),
{
    if s.len() > 0 && s[0] != 46 {
        lemma_first_dot_bound(s.drop_first());
    }
}

/// Reads a count; see `count_spec`.
pub fn parse_count(s: &[u8], max: u64) -> (r: Option<u64>)
    ensures
        match count_spec(s@, max as int) {
            Some(v) => r matches Some(x) && x as int == v,
            None => r.is_none(),
        },
{
    let n = s.len();
    if n == 0 {
        return None;
    }
    let mut v: u64 = 0;
    let mut i: usize = 0;
    while i < n
        invariant
            n == s@.len(),
            i <= n,
            all_digits(s@.subrange(0, i as int)),
            v == digits_value(s@.subrange(0, i as int)),
            v <= max,
        decreases n - i,
    {
        let b = s[i];
        proof {
            assert(s@.subrange(0, i + 1).drop_last() == s@.subrange(0, i as int));
        }
        if b < 48 || b > 57 {
            proof {
                assert(!all_digits(s@)) by {
                    assert(s@[i as int] == b);
                }
            }
            return None;
        }
        let d = (b - 48) as u64;
        if d > max || v > (max - d) / 10 {
            proof {
                assert(all_digits(s@.subrange(0, i + 1)));
                assert(digits_value(s@.subrange(0, i + 1)) == 10 * v + d);
                assert(10 * v + d > max) by (nonlinear_arith)
                    requires
                        d > max || v > (max - d) / 10,
                        v >= 0,
                ;
                if all_digits(s@) {
                    lemma_digits_prefix_le(s@, i + 1);
                }
            }
            return None;
        }
        v = 10 * v + d;
        i = i + 1;
    }
    proof {
        assert(s@.subrange(0, n as int) == s@);
    }
    Some(v)
}

} // verus!

verus! {

/// Reads a real value in millionths; see `fixed_spec`.
#[verifier::rlimit(60)]
pub fn parse_fixed(s: &[u8]) -> (r: Option<i64>)
    ensures
        match fixed_spec(s@) {
            Some(v) => r matches Some(x) && x as int == v,
            None => r.is_none(),
        },
{
    let n = s.len();
    let negative = n > 0 && s[0] == 45;
    let signed = n > 0 && (s[0] == 45 || s[0] == 43);
    let start: usize = if signed {
        1
    } else {
        0
    };
    let ghost body = if signed {
        s@.drop_first()
    } else {
        s@
    };
    proof {
        assert(body == s@.subrange(start as int, n as int));
    }
    let mut i: usize = start;
    let mut int_value: u64 = 0;
    while i < n && 48 <= s[i] && s[i] <= 57
        invariant
            n == s@.len(),
            body == s@.subrange(start as int, n as int),
            body == (if s@.len() > 0 && (s@[0] == 45 || s@[0] == 43) {
                s@.drop_first()
            } else {
                s@
            }),
            start <= i <= n,
            all_digits(body.subrange(0, i - start)),
            int_value == digits_value(body.subrange(0, i - start)),
            int_value <= INT_PART_LIMIT,
        decreases n - i,
    {
        let d = (s[i] - 48) as u64;
        proof {
            assert(body.subrange(0, i + 1 - start).drop_last() == body.subrange(0, i - start));
            assert(body[i - start] == s@[i as int]);
            assert(all_digits(body.subrange(0, i + 1 - start)));
        }
        if int_value > (INT_PART_LIMIT - d) / 10 {
            proof {
                let p = i + 1 - start;
                assert(digits_value(body.subrange(0, p)) == 10 * int_value + d);
                assert(10 * int_value + d > INT_PART_LIMIT) by (nonlinear_arith)
                    requires
                        int_value > (INT_PART_LIMIT - d) / 10,
                        d <= 9,
                ;
                assert forall|k: int| 0 <= k < p implies #[trigger] body[k] != 46 by {
                    assert(body.subrange(0, p)[k] == body[k]);
                }
                lemma_first_dot(body, p);
                let dot = first_dot(body);
                let int_part = body.subrange(0, dot);
                assert(dot >= p);
                if all_digits(int_part) {
                    lemma_digits_prefix_le(int_part, p);
                    assert(int_part.subrange(0, p) == body.subrange(0, p));
                    assert(digits_value(int_part) > INT_PART_LIMIT);
                }
                assert(fixed_spec(s@).is_none());
            }
            return None;
        }
        int_value = 10 * int_value + d;
        i = i + 1;
    }
    let int_end = i;
    let int_len = i - start;
    proof {
        assert forall|k: int| 0 <= k < int_len implies #[trigger] body[k] != 46 by {
            assert(body.subrange(0, int_len as int)[k] == body[k]);
        }
        lemma_first_dot(body, int_len as int);
    }
    let mut frac_value: u64 = 0;
    let mut kept: usize = 0;
    let mut frac_len: usize = 0;
    let has_dot = i < n && s[i] == 46;
    if has_dot {
        i = i + 1;
        let frac_start = i;
        let ghost frac = s@.subrange(frac_start as int, n as int);
        while i < n && 48 <= s[i] && s[i] <= 57
            invariant
                n == s@.len(),
                body == (if s@.len() > 0 && (s@[0] == 45 || s@[0] == 43) {
                    s@.drop_first()
                } else {
                    s@
                }),
                frac == s@.subrange(frac_start as int, n as int),
                frac_start <= i <= n,
                all_digits(frac.subrange(0, i - frac_start)),
                kept <= 6,
                kept == if i - frac_start < 6 {
                    i - frac_start
                } else {
                    6
                },
                frac_value == digits_value(frac.subrange(0, kept as int)),
                frac_value < pow10(kept as nat),
                pow10(kept as nat) <= 1000000,
            decreases n - i,
        {
            proof {
                lemma_pow10_small();
            }
            let d = (s[i] - 48) as u64;
            proof {
                assert(frac[i - frac_start] == s@[i as int]);
                assert(frac.subrange(0, i + 1 - frac_start).drop_last() == frac.subrange(0, i - frac_start));
                assert(all_digits(frac.subrange(0, i + 1 - frac_start)));
            }
            if kept < 6 {
                proof {
                    assert(frac.subrange(0, kept + 1).drop_last() == frac.subrange(0, kept as int));
                    assert(frac.subrange(0, kept + 1).last() == frac[kept as int]);
                    assert(frac.subrange(0, kept as int) == frac.subrange(0, i - frac_start));
                    assert(10 * frac_value + d < pow10((kept + 1) as nat)) by (nonlinear_arith)
                        requires
                            frac_value < pow10(kept as nat),
                            frac_value >= 0,
                            d <= 9,
                            pow10((kept + 1) as nat) == 10 * pow10(kept as nat),
                    ;
                }
                frac_value = 10 * frac_value + d;
                kept = kept + 1;
                proof {
                    lemma_pow10_split(kept as nat);
                }
            }
            i = i + 1;
        }
        frac_len = i - frac_start;
    }
    if i < n {
        proof {
            assert(!is_digit(s@[i as int]));
            if has_dot {
                let frac = s@.subrange(int_end + 1, n as int);
                assert(body[int_len as int] == 46);
                assert(first_dot(body) == int_len);
                assert(body.subrange(int_len + 1, body.len() as int) == frac);
                assert(frac[i - int_end - 1] == s@[i as int]);
                assert(!all_digits(frac));
            } else {
                assert(body[int_len as int] == s@[i as int]);
                assert(first_dot(body) > int_len);
                let int_part = body.subrange(0, first_dot(body));
                assert(int_part[int_len as int] == body[int_len as int]);
                assert(!all_digits(int_part));
            }
        }
        return None;
    }
    proof {
        let frac = if has_dot {
            s@.subrange(int_end + 1, n as int)
        } else {
            Seq::<u8>::empty()
        };
        if has_dot {
            assert(body[int_len as int] == 46);
            assert(first_dot(body) == int_len);
            assert(body.subrange(int_len + 1, body.len() as int) == frac);
            assert(frac.len() == frac_len);
        } else {
            assert(int_len == body.len());
            assert(first_dot(body) == body.len());
        }
    }
    if int_len + frac_len == 0 {
        proof {
            let dot = first_dot(body);
            assert(body.subrange(0, dot).len() == 0);
            if dot < body.len() {
                assert(body.subrange(dot + 1, body.len() as int).len() == frac_len);
            }
        }
        return None;
    }
    let mut place: u64 = 1;
    let mut k: usize = kept;
    while k < 6
        invariant
            kept <= k <= 6,
            place == pow10((k - kept) as nat),
        decreases 6 - k,
    {
        proof {
            lemma_pow10_split((k - kept) as nat);
            lemma_pow10_small();
            assert(k - kept <= 5);
            assert(place <= 100000) by {
                if k - kept == 0 {} else if k - kept == 1 {} else if k - kept == 2 {} else if k - kept == 3 {} else if k - kept == 4 {} else {}
            }
        }
        place = place * 10;
        k = k + 1;
    }
    proof {
        let frac = if has_dot {
            s@.subrange(int_end + 1, n as int)
        } else {
            Seq::<u8>::empty()
        };
        if has_dot {
            assert(body.subrange(int_len + 1, body.len() as int) == frac);
            assert(frac.subrange(0, frac_len as int) == frac);
        } else {
            assert(body.subrange(0, int_len as int) == body);
        }
        assert(body.subrange(0, int_len as int) == body.subrange(0, first_dot(body)));
        lemma_pow10_split(kept as nat);
        assert(frac_value * place < 1000000) by (nonlinear_arith)
            requires
                frac_value < pow10(kept as nat),
                place == pow10((6 - kept) as nat),
                pow10(kept as nat) * pow10((6 - kept) as nat) == 1000000,
                frac_value >= 0,
        ;
    }
    let magnitude: i64 = (int_value as i64) * SCALE + (frac_value * place) as i64;
    if negative {
        Some(-magnitude)
    } else {
        Some(magnitude)
    }
}

} // verus!
