//! Fixed-point representation of real quantities.
use vstd::prelude::*;

verus! {

/// The integer that stands for the real value `1.0`: reals are held in millionths.
pub const SCALE: i64 = 1000000;

/// Largest magnitude a link weight may have after mutation (`8.0`).
pub const WEIGHT_CAP: i64 = 8000000;

/// Smallest fitness an organism keeps before fitness sharing (`0.0001`).
pub const MIN_FITNESS: i64 = 100;

/// Largest magnitude of a configuration coefficient (`1_000_000.0`). Products of a
/// coefficient and a fitness or weight, both held in millionths, must stay within the
/// range of `i64` after rescaling; this bound and `FITNESS_LIMIT` see to that.
pub const COEFF_LIMIT: i64 = 1000000000000;

/// Largest magnitude of an organism's raw fitness (`1_000_000.0`). With the
/// young-species factor at most `COEFF_LIMIT`, an adjusted fitness still fits `i64`.
pub const FITNESS_LIMIT: i64 = 1000000000000;

/// Largest number of organisms or species the epoch arithmetic is sized for: summed
/// shared fitness over all members, and each share scaled by the organism count, must
/// fit `i128`.
pub const COUNT_LIMIT: usize = 1000000;

/// Largest number of genes a genome may have for the compatibility tallies, which
/// are accumulated in `u64` and `u128`.
pub const GENE_LIMIT: usize = 4294967295;

/// `w` limited to `[-WEIGHT_CAP, WEIGHT_CAP]`.
pub open spec fn clamp_weight(w: int) -> int {
    if w > WEIGHT_CAP as int {
        WEIGHT_CAP as int
    } else if w < -(WEIGHT_CAP as int) {
        -(WEIGHT_CAP as int)
    } else {
        w
    }
}

/// Absolute value.
pub open spec fn abs(x: int) -> int {
    if x < 0 {
        -x
    } else {
        x
    }
}

} // verus!
