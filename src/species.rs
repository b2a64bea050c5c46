//! Species: clusters of organisms, with fitness sharing and offspring budgeting.
use crate::env::Env;
use crate::fixed::{COEFF_LIMIT, FITNESS_LIMIT, MIN_FITNESS, SCALE};
use crate::organism::Organism;
use vstd::prelude::*;

verus! {

broadcast use vstd::seq_lib::group_to_multiset_ensures;

/// A cluster of organisms. Members are indices into the population's organism list;
/// the first member is the species' representative. Reals are held in millionths.
pub struct Species {
    pub id: usize,
    /// Indices of the member organisms.
    pub organisms: Vec<usize>,
    pub average_fitness: i64,
    pub max_fitness: i64,
    pub max_fitness_ever: i64,
    pub age: usize,
    pub age_of_last_improvement: usize,
    /// Number of offspring the species is allotted.
    pub expected_offspring: u64,
    pub obliterate: bool,
}

/// `a / b` rounded toward zero, as Rust's integer division does.
pub open spec fn div_toward_zero(a: int, b: int) -> int {
    if a >= 0 {
        a / b
    } else {
        -((-a) / b)
    }
}

/// Sum of the fitness of the organisms `members` names.
pub open spec fn fitness_sum(members: Seq<usize>, orgs: Seq<Organism>) -> int
    decreases members.len(),
{
    if members.len() == 0 {
        0
    } else {
        orgs[members[0] as int].fitness + fitness_sum(members.drop_first(), orgs)
    }
}

/// Largest fitness among the organisms `members` names, and zero.
pub open spec fn fitness_max(members: Seq<usize>, orgs: Seq<Organism>) -> int
    decreases members.len(),
{
    if members.len() == 0 {
        0
    } else {
        let rest = fitness_max(members.drop_first(), orgs);
        let f = orgs[members[0] as int].fitness as int;
        if f > rest {
            f
        } else {
            rest
        }
    }
}

/// Sum of the expected offspring of the organisms `members` names.
pub open spec fn offspring_sum(members: Seq<usize>, orgs: Seq<Organism>) -> int
    decreases members.len(),
{
    if members.len() == 0 {
        0
    } else {
        orgs[members[0] as int].expected_offspring + offspring_sum(members.drop_first(), orgs)
    }
}

/// The offspring count and skim after folding the expected offspring of `members`
/// into `(count, skim)`: each organism adds the integer part of its expected
/// offspring to the count and the fractional part to the skim; whenever the skim
/// exceeds one, its integer part moves to the count.
pub open spec fn offspring_fold(members: Seq<usize>, orgs: Seq<Organism>, count: int, skim: int) -> (int, int)
    decreases members.len(),
{
    if members.len() == 0 {
        (count, skim)
    } else {
        let e = orgs[members[0] as int].expected_offspring as int;
        let c = count + e / (SCALE as int);
        let k = skim + e % (SCALE as int);
        if k > SCALE {
            offspring_fold(members.drop_first(), orgs, c + k / (SCALE as int), k % (SCALE as int))
        } else {
            offspring_fold(members.drop_first(), orgs, c, k)
        }
    }
}

/// The fitness an organism keeps after the stagnation penalty (one hundredth), the
/// young-species factor `age_significance` and the lower limit `MIN_FITNESS`, before
/// sharing. A fitness of zero or less ends at the lower limit, as both factors keep
/// it at or below zero.
pub open spec fn adjusted_fitness(f: int, penalty: bool, young: bool, age_significance: int) -> int {
    if f <= 0 {
        MIN_FITNESS as int
    } else {
        let f1 = if penalty {
            f / 100
        } else {
            f
        };
        let f2 = if young {
            f1 * age_significance / (SCALE as int)
        } else {
            f1
        };
        if f2 < MIN_FITNESS {
            MIN_FITNESS as int
        } else {
            f2
        }
    }
}

/// Number of members that survive to reproduce: `floor(survival_thresh * size) + 1`.
pub open spec fn num_parents(survival_thresh: int, size: int) -> int {
    survival_thresh * size / (SCALE as int) + 1
}

/// `members` is ordered by decreasing fitness.
pub open spec fn sorted_by_fitness(members: Seq<usize>, orgs: Seq<Organism>) -> bool {
    forall|p: int, q: int|
        0 <= p < q < members.len() ==> orgs[members[p] as int].fitness >= orgs[members[q] as int].fitness
}

/// Swapping two entries keeps a sequence's multiset.
proof fn lemma_swap_multiset(s: Seq<usize>, i: int, j: int)
    requires
        0 <= i < s.len(),
        0 <= j < s.len(),
    ensures
        s.update(i, s[j]).update(j, s[i]).to_multiset() =~= s.to_multiset(),
{
    broadcast use vstd::seq_lib::to_multiset_update;
    broadcast use vstd::multiset::group_multiset_axioms;

    let s1 = s.update(i, s[j]);
    assert(s1.to_multiset() == s.to_multiset().insert(s[j]).remove(s[i]));
    assert(s1.update(j, s[i]).to_multiset() == s1.to_multiset().insert(s[i]).remove(s1[j]));
}

impl Species {
    /// The members are distinct indices below `n`.
    pub open spec fn members_valid(&self, n: int) -> bool {
        &&& self.organisms@.no_duplicates()
        &&& forall|k: int| 0 <= k < self.organisms@.len() ==> #[trigger] self.organisms@[k] < n
    }

    /// The penalty for stagnation applies: the age debt
    /// `(age - age_of_last_improvement + 1) - dropoff_age` is at least zero (a debt of
    /// zero counts as one), or the species is marked for obliteration.
    pub open spec fn penalized(&self, env: Env) -> bool {
        let raw = (self.age - self.age_of_last_improvement + 1) - env.dropoff_age;
        raw >= 0 || self.obliterate
    }

    /// The species is young enough for the fitness boost: age ten or less.
    pub open spec fn young(&self) -> bool {
        self.age <= 10
    }

    pub fn new(id: usize) -> (r: Self)
        ensures
            r.id == id,
            r.organisms@.len() == 0,
            r.average_fitness == 0,
            r.max_fitness == 0,
            r.max_fitness_ever == 0,
            r.age == 0,
            r.age_of_last_improvement == 0,
            r.expected_offspring == 0,
            !r.obliterate,
    {
        Species {
            id,
            organisms: Vec::new(),
            average_fitness: 0,
            max_fitness: 0,
            max_fitness_ever: 0,
            age: 0,
            age_of_last_improvement: 0,
            expected_offspring: 0,
            obliterate: false,
        }
    }

    /// Adds the organism with index `organism` as the last member.
    pub fn add_organism(&mut self, organism: usize)
        ensures
            *final(self) == (Species { organisms: final(self).organisms, ..*old(self) }),
            final(self).organisms@ == old(self).organisms@.push(organism),
    {
        self.organisms.push(organism)
    }

    pub fn set_to_obliterate(&mut self)
        ensures
            *final(self) == (Species { obliterate: true, ..*old(self) }),
    {
        self.obliterate = true
    }

    pub fn is_to_obliterate(&self) -> (r: bool)
        ensures
            r == self.obliterate,
    {
        self.obliterate
    }
}

} // verus!

verus! {

/// The maximum taken together with zero is never negative.
proof fn lemma_fitness_max_nonneg(members: Seq<usize>, orgs: Seq<Organism>)
    ensures
        fitness_max(members, orgs) >= 0,
    decreases members.len(),
{
    if members.len() > 0 {
        lemma_fitness_max_nonneg(members.drop_first(), orgs);
    }
}

/// The sum of `k` fitness values lies within `k` times the range of `i64`.
proof fn lemma_fitness_sum_bounds(members: Seq<usize>, orgs: Seq<Organism>)
    requires
        forall|k: int| 0 <= k < members.len() ==> #[trigger] members[k] < orgs.len(),
    ensures
        i64::MIN * members.len() <= fitness_sum(members, orgs) <= i64::MAX * members.len(),
    decreases members.len(),
{
    if members.len() > 0 {
        assert forall|k: int| 0 <= k < members.drop_first().len() implies #[trigger] members.drop_first()[k]
            < orgs.len() by {
            assert(members.drop_first()[k] == members[k + 1]);
        }
        lemma_fitness_sum_bounds(members.drop_first(), orgs);
        assert(members[0] < orgs.len());
    }
}

impl Species {
    /// Records and returns `(average, max)` of the members' fitness: the average is
    /// rounded toward zero, and the maximum is taken together with zero.
    pub fn compute_max_and_average_fitness(&mut self, organisms: &Vec<Organism>) -> (r: (i64, i64))
        requires
            old(self).members_valid(organisms@.len() as int),
            old(self).organisms@.len() > 0,
            old(self).organisms@.len() <= crate::fixed::COUNT_LIMIT,
        ensures
            r.0 == div_toward_zero(
                fitness_sum(old(self).organisms@, organisms@),
                old(self).organisms@.len() as int,
            ),
            r.1 == fitness_max(old(self).organisms@, organisms@),
            *final(self) == (Species { average_fitness: r.0, max_fitness: r.1, ..*old(self) }),
    {
        let n = self.organisms.len();
        let ghost members = self.organisms@;
        let mut total: i128 = 0;
        let mut max: i64 = 0;
        let mut k: usize = 0;
        proof {
            assert(members.subrange(0, n as int) == members);
            lemma_fitness_max_nonneg(members, organisms@);
        }
        while k < n
            invariant
                n == members.len(),
                members == self.organisms@,
                self.members_valid(organisms@.len() as int),
                n <= crate::fixed::COUNT_LIMIT,
                k <= n,
                max >= 0,
                i64::MIN * k <= total <= i64::MAX * k,
                fitness_sum(members, organisms@) == total + fitness_sum(members.subrange(k as int, n as int), organisms@),
                fitness_max(members, organisms@) == ({
                    let rest = fitness_max(members.subrange(k as int, n as int), organisms@);
                    if max > rest {
                        max as int
                    } else {
                        rest
                    }
                }),
            decreases n - k,
        {
            let ghost rest = members.subrange(k as int, n as int);
            proof {
                assert(rest.drop_first() == members.subrange(k + 1, n as int));
                assert(self.organisms@[k as int] < organisms@.len());
            }
            let f = organisms[self.organisms[k]].fitness;
            total = total + f as i128;
            if f > max {
                max = f;
            }
            k = k + 1;
        }
        proof {
            lemma_fitness_sum_bounds(members, organisms@);
            assert(members.subrange(n as int, n as int).len() == 0);
        }
        let average: i64 = if total >= 0 {
            assert((total as int) / (n as int) <= i64::MAX) by (nonlinear_arith)
                requires
                    0 <= total <= i64::MAX * n,
                    n > 0,
            ;
            (total / (n as i128)) as i64
        } else {
            assert((-total) as int / (n as int) <= -(i64::MIN as int)) by (nonlinear_arith)
                requires
                    0 < -total <= -(i64::MIN as int) * n,
                    n > 0,
            ;
            (-((-total) / (n as i128))) as i64
        };
        self.average_fitness = average;
        self.max_fitness = max;
        (average, max)
    }

    /// Allots the species its offspring: folds the members' expected offspring, in
    /// member order, into the count and the skim carried over from the species before
    /// (see `offspring_fold`). Returns the skim to carry on.
    pub fn count_offspring(&mut self, organisms: &Vec<Organism>, skim: i64) -> (r: i64)
        requires
            old(self).members_valid(organisms@.len() as int),
            0 <= skim <= SCALE,
            forall|k: int|
                0 <= k < old(self).organisms@.len() ==> organisms@[#[trigger] old(self).organisms@[k] as int].expected_offspring
                    >= 0,
            offspring_sum(old(self).organisms@, organisms@) <= OFFSPRING_LIMIT,
        ensures
            (final(self).expected_offspring as int, r as int) == offspring_fold(old(self).organisms@, organisms@, 0, skim as int),
            *final(self) == (Species { expected_offspring: final(self).expected_offspring, ..*old(self) }),
    {
        let n = self.organisms.len();
        let ghost members = self.organisms@;
        let mut count: u64 = 0;
        let mut carry: i64 = skim;
        let mut k: usize = 0;
        proof {
            assert(members.subrange(0, n as int) == members);
            lemma_offspring_fold_conserves(members, organisms@, 0, skim as int);
        }
        while k < n
            invariant
                n == members.len(),
                members == self.organisms@,
                self.members_valid(organisms@.len() as int),
                forall|q: int| 0 <= q < n ==> organisms@[#[trigger] members[q] as int].expected_offspring >= 0,
                k <= n,
                0 <= skim <= SCALE,
                0 <= carry <= SCALE,
                offspring_sum(members, organisms@) <= OFFSPRING_LIMIT,
                offspring_fold(members, organisms@, 0, skim as int) == offspring_fold(
                    members.subrange(k as int, n as int),
                    organisms@,
                    count as int,
                    carry as int,
                ),
                count * SCALE <= skim + offspring_sum(members, organisms@),
            decreases n - k,
        {
            let ghost rest = members.subrange(k as int, n as int);
            proof {
                assert(rest.drop_first() == members.subrange(k + 1, n as int));
                assert(rest[0] == members[k as int]);
                assert(self.organisms@[k as int] < organisms@.len());
                lemma_offspring_fold_conserves(rest, organisms@, count as int, carry as int);
                lemma_offspring_fold_conserves(members, organisms@, 0, skim as int);
                assert(forall|q: int| 0 <= q < rest.len() ==> organisms@[#[trigger] rest[q] as int].expected_offspring >= 0);
                lemma_offspring_sum_nonneg(rest.drop_first(), organisms@);
            }
            let e = organisms[self.organisms[k]].expected_offspring;
            let whole = e / SCALE;
            let part = e % SCALE;
            let next_count = count + whole as u64;
            let next_carry = carry + part;
            if next_carry > SCALE {
                count = next_count + (next_carry / SCALE) as u64;
                carry = next_carry % SCALE;
            } else {
                count = next_count;
                carry = next_carry;
            }
            k = k + 1;
            proof {
                lemma_offspring_fold_conserves(members.subrange(k as int, n as int), organisms@, count as int, carry as int);
            }
        }
        proof {
            assert(members.subrange(n as int, n as int).len() == 0);
        }
        self.expected_offspring = count;
        carry
    }
}

/// Largest summed expected offspring (in millionths) a species may fold.
pub const OFFSPRING_LIMIT: i64 = 1000000000000000000;

/// Expected offspring that are never negative sum to a non-negative total.
pub proof fn lemma_offspring_sum_nonneg(members: Seq<usize>, orgs: Seq<Organism>)
    requires
        forall|q: int| 0 <= q < members.len() ==> orgs[#[trigger] members[q] as int].expected_offspring >= 0,
    ensures
        offspring_sum(members, orgs) >= 0,
    decreases members.len(),
{
    if members.len() > 0 {
        assert forall|q: int| 0 <= q < members.drop_first().len() implies orgs[#[trigger] members.drop_first()[q] as int].expected_offspring
            >= 0 by {
            assert(members.drop_first()[q] == members[q + 1]);
        }
        lemma_offspring_sum_nonneg(members.drop_first(), orgs);
    }
}

/// The offspring fold conserves offspring: the final count (in whole offspring) plus
/// the final skim equals the starting count and skim plus the summed expected
/// offspring, and the skim stays within `[0, 1]`.
pub proof fn lemma_offspring_fold_conserves(members: Seq<usize>, orgs: Seq<Organism>, count: int, skim: int)
    requires
        0 <= skim <= SCALE,
        forall|q: int| 0 <= q < members.len() ==> orgs[#[trigger] members[q] as int].expected_offspring >= 0,
    ensures
        ({
            let r = offspring_fold(members, orgs, count, skim);
            &&& r.0 * SCALE + r.1 == count * SCALE + skim + offspring_sum(members, orgs)
            &&& 0 <= r.1 <= SCALE
            &&& r.0 >= count
        }),
    decreases members.len(),
{
    if members.len() > 0 {
        let e = orgs[members[0] as int].expected_offspring as int;
        assert(orgs[members[0] as int].expected_offspring >= 0);
        assert forall|q: int| 0 <= q < members.drop_first().len() implies orgs[#[trigger] members.drop_first()[q] as int].expected_offspring
            >= 0 by {
            assert(members.drop_first()[q] == members[q + 1]);
        }
        let c = count + e / (SCALE as int);
        let k = skim + e % (SCALE as int);
        assert(e == (e / (SCALE as int)) * SCALE + e % (SCALE as int)) by (nonlinear_arith);
        assert(0 <= e % (SCALE as int) < SCALE) by (nonlinear_arith);
        assert(e / (SCALE as int) >= 0) by (nonlinear_arith)
            requires
                e >= 0,
        ;
        if k > SCALE {
            assert(k == (k / (SCALE as int)) * SCALE + k % (SCALE as int)) by (nonlinear_arith);
            assert(0 <= k % (SCALE as int) < SCALE) by (nonlinear_arith);
            assert(k / (SCALE as int) >= 1) by (nonlinear_arith)
                requires
                    k > SCALE,
            ;
            lemma_offspring_fold_conserves(members.drop_first(), orgs, c + k / (SCALE as int), k % (SCALE as int));
        } else {
            lemma_offspring_fold_conserves(members.drop_first(), orgs, c, k);
        }
    }
}

} // verus!

verus! {

/// Fitness of the organism with index `m`.
pub open spec fn fit(orgs: Seq<Organism>, m: usize) -> int {
    orgs[m as int].fitness as int
}

/// Orders `members` by decreasing fitness, keeping equal ones in their order.
fn sort_by_fitness(members: &mut Vec<usize>, organisms: &Vec<Organism>)
    requires
        forall|k: int| 0 <= k < old(members)@.len() ==> #[trigger] old(members)@[k] < organisms@.len(),
    ensures
        final(members)@.len() == old(members)@.len(),
        final(members)@.to_multiset() == old(members)@.to_multiset(),
        sorted_by_fitness(final(members)@, organisms@),
{
    let n = members.len();
    if n == 0 {
        return;
    }
    let mut i: usize = 1;
    while i < n
        invariant
            1 <= i <= n,
            n == members@.len(),
            forall|k: int| 0 <= k < n ==> #[trigger] members@[k] < organisms@.len(),
            members@.to_multiset() == old(members)@.to_multiset(),
            forall|p: int, q: int|
                0 <= p < q < i ==> fit(organisms@, members@[p]) >= fit(organisms@, members@[q]),
        decreases n - i,
    {
        let mut j: usize = i;
        while j > 0 && organisms[members[j - 1]].fitness < organisms[members[j]].fitness
            invariant
                0 <= j <= i < n,
                n == members@.len(),
                forall|k: int| 0 <= k < n ==> #[trigger] members@[k] < organisms@.len(),
                members@.to_multiset() == old(members)@.to_multiset(),
                forall|p: int, q: int|
                    0 <= p < q <= i && p != j && q != j ==> fit(organisms@, members@[p]) >= fit(
                        organisms@,
                        members@[q],
                    ),
                forall|q: int| j < q <= i ==> fit(organisms@, members@[j as int]) >= fit(organisms@, #[trigger] members@[q]),
            decreases j,
        {
            let a = members[j - 1];
            let b = members[j];
            proof {
                lemma_swap_multiset(members@, j - 1, j as int);
            }
            members.set(j - 1, b);
            members.set(j, a);
            j = j - 1;
        }
        i = i + 1;
    }
}

impl Species {
    /// An organism of the species after fitness adjustment, before ranking: its
    /// fitness remembered as original, then adjusted and divided by the species' size.
    pub open spec fn shared(&self, o: Organism, env: Env) -> Organism {
        Organism {
            fitness: (adjusted_fitness(o.fitness as int, self.penalized(env), self.young(), env.age_significance as int)
                / self.organisms@.len() as int) as i64,
            orig_fitness: o.fitness,
            ..o
        }
    }

    /// The organism ranked `p` (from zero, by decreasing shared fitness) after fitness
    /// adjustment: shared as above, marked champion when first, and marked for
    /// elimination when it ranks beyond the number of parents.
    pub open spec fn ranked(&self, o: Organism, env: Env, p: int) -> Organism {
        let s = self.shared(o, env);
        Organism {
            champion: o.champion || p == 0,
            eliminate: o.eliminate || p >= num_parents(env.survival_thresh as int, self.organisms@.len() as int),
            ..s
        }
    }
}

} // verus!

verus! {

/// `after` is `before` with its members reordered and, when the (new) first
/// member's fitness in `orgs` beats `max_fitness_ever`, that fitness as the new
/// record and the current age as the age of last improvement.
pub open spec fn record_updated(after: Species, before: Species, orgs: Seq<Organism>) -> bool {
    let champ = orgs[after.organisms@[0] as int].fitness;
    if champ > before.max_fitness_ever {
        after == Species {
            organisms: after.organisms,
            age_of_last_improvement: before.age,
            max_fitness_ever: champ,
            ..before
        }
    } else {
        after == Species { organisms: after.organisms, ..before }
    }
}

/// Every member's fitness lies within `[-FITNESS_LIMIT, FITNESS_LIMIT]`.
pub open spec fn members_fitness_in_range(members: Seq<usize>, orgs: Seq<Organism>) -> bool {
    forall|k: int|
        0 <= k < members.len() ==> -FITNESS_LIMIT <= #[trigger] orgs[members[k] as int].fitness <= FITNESS_LIMIT
}

impl Species {
    /// Fitness sharing with age adjustment. Each member keeps its current fitness in
    /// `orig_fitness`; the fitness then takes the stagnation penalty, the young-species
    /// factor and the lower limit (see `adjusted_fitness`) and is divided by the
    /// species' size. Members are then ranked by decreasing fitness; the first is
    /// marked champion, and those ranked beyond `num_parents` are marked for
    /// elimination. When the champion's original fitness beats `max_fitness_ever`,
    /// it becomes the new record and the species' age the age of last improvement.
    pub fn adjust_fitness(&mut self, organisms: &mut Vec<Organism>, env: &Env)
        requires
            old(self).members_valid(old(organisms)@.len() as int),
            old(self).organisms@.len() > 0,
            env.fitness_coeffs_valid(),
            members_fitness_in_range(old(self).organisms@, old(organisms)@),
        ensures
            final(organisms)@.len() == old(organisms)@.len(),
            final(self).organisms@.len() == old(self).organisms@.len(),
            final(self).organisms@.to_multiset() == old(self).organisms@.to_multiset(),
            final(self).members_valid(old(organisms)@.len() as int),
            sorted_by_fitness(final(self).organisms@, final(organisms)@),
            forall|p: int|
                0 <= p < final(self).organisms@.len() ==> final(organisms)@[#[trigger] final(self).organisms@[p] as int]
                    == old(self).ranked(old(organisms)@[final(self).organisms@[p] as int], *env, p),
            forall|i: int|
                0 <= i < old(organisms)@.len() && !old(self).organisms@.contains(i as usize) ==> #[trigger] final(organisms)@[i]
                    == old(organisms)@[i],
            record_updated(*final(self), *old(self), old(organisms)@),
    {
        let n = self.organisms.len();
        let ghost members = self.organisms@;
        let ghost orgs0 = organisms@;
        let raw: i128 = (self.age as i128 - self.age_of_last_improvement as i128 + 1) - env.dropoff_age as i128;
        let age_debt: i128 = if raw == 0 {
            1
        } else {
            raw
        };
        let penalty = age_debt >= 1 || self.obliterate;
        let young = self.age <= 10;
        assert(penalty == self.penalized(*env));
        let mut k: usize = 0;
        while k < n
            invariant
                n == members.len() == self.organisms@.len(),
                members == self.organisms@,
                *self == *old(self),
                self.members_valid(orgs0.len() as int),
                organisms@.len() == orgs0.len(),
                orgs0 == old(organisms)@,
                penalty == self.penalized(*env),
                young == self.young(),
                env.fitness_coeffs_valid(),
                members_fitness_in_range(members, orgs0),
                k <= n,
                forall|q: int| 0 <= q < k ==> organisms@[#[trigger] members[q] as int] == self.shared(orgs0[members[q] as int], *env),
                forall|i: int|
                    0 <= i < orgs0.len() && (forall|q: int| 0 <= q < k ==> members[q] != i) ==> #[trigger] organisms@[i]
                        == orgs0[i],
            decreases n - k,
        {
            let m = self.organisms[k];
            proof {
                assert(members[k as int] < orgs0.len());
                assert(forall|q: int| 0 <= q < k ==> members[q] != m) by {
                    assert(members.no_duplicates());
                }
            }
            let f = organisms[m].fitness;
            let adjusted: i64 = if f <= 0 {
                MIN_FITNESS
            } else {
                let f1: i64 = if penalty {
                    f / 100
                } else {
                    f
                };
                let f2: i64 = if young {
                    assert(0 <= f1 * env.age_significance <= FITNESS_LIMIT * COEFF_LIMIT) by (nonlinear_arith)
                        requires
                            0 <= f1 <= FITNESS_LIMIT,
                            0 <= env.age_significance <= COEFF_LIMIT,
                    ;
                    ((f1 as i128) * (env.age_significance as i128) / (SCALE as i128)) as i64
                } else {
                    f1
                };
                if f2 < MIN_FITNESS {
                    MIN_FITNESS
                } else {
                    f2
                }
            };
            assert(adjusted as int == adjusted_fitness(f as int, penalty, young, env.age_significance as int));
            let shared = ((adjusted as i128) / (n as i128)) as i64;
            organisms[m].orig_fitness = f;
            organisms[m].fitness = shared;
            proof {
                assert(organisms@[m as int] == self.shared(orgs0[m as int], *env));
            }
            k = k + 1;
        }
        sort_by_fitness(&mut self.organisms, organisms);
        proof {
            members.lemma_multiset_has_no_duplicates();
            self.organisms@.lemma_multiset_has_no_duplicates_conv();
            assert forall|p: int| 0 <= p < n implies members.contains(#[trigger] self.organisms@[p]) by {
                assert(self.organisms@.to_multiset().count(self.organisms@[p]) > 0);
            }
            assert forall|q: int| 0 <= q < n implies #[trigger] self.organisms@[q] < orgs0.len() by {
                assert(members.contains(self.organisms@[q]));
            }
            assert forall|q: int| 0 <= q < n implies organisms@[#[trigger] self.organisms@[q] as int] == old(self).shared(
                orgs0[self.organisms@[q] as int],
                *env,
            ) by {
                assert(members.contains(self.organisms@[q]));
                let k = choose|k: int| 0 <= k < n && members[k] == self.organisms@[q];
                assert(organisms@[members[k] as int] == self.shared(orgs0[members[k] as int], *env));
            }
        }
        let champ = self.organisms[0];
        if organisms[champ].orig_fitness > self.max_fitness_ever {
            self.age_of_last_improvement = self.age;
            self.max_fitness_ever = organisms[champ].orig_fitness;
        }
        assert(0 <= env.survival_thresh * n <= COEFF_LIMIT * 0x1_0000_0000_0000_0000) by (nonlinear_arith)
            requires
                0 <= env.survival_thresh <= COEFF_LIMIT,
                n <= 0x1_0000_0000_0000_0000,
        ;
        let parents: u128 = (env.survival_thresh as u128) * (n as u128) / (SCALE as u128) + 1;
        let mut p: usize = 0;
        while p < n
            invariant
                n == members.len() == self.organisms@.len(),
                self.organisms@.no_duplicates(),
                self.organisms@.to_multiset() == members.to_multiset(),
                forall|q: int| 0 <= q < n ==> members.contains(#[trigger] self.organisms@[q]),
                forall|q: int| 0 <= q < n ==> #[trigger] self.organisms@[q] < orgs0.len(),
                members == old(self).organisms@,
                organisms@.len() == orgs0.len(),
                p <= n,
                parents == num_parents(env.survival_thresh as int, n as int),
                forall|q: int|
                    0 <= q < p ==> organisms@[#[trigger] self.organisms@[q] as int] == old(self).ranked(
                        orgs0[self.organisms@[q] as int],
                        *env,
                        q,
                    ),
                forall|q: int|
                    p <= q < n ==> organisms@[#[trigger] self.organisms@[q] as int] == old(self).shared(
                        orgs0[self.organisms@[q] as int],
                        *env,
                    ),
                forall|i: int|
                    0 <= i < orgs0.len() && !members.contains(i as usize) ==> #[trigger] organisms@[i] == orgs0[i],
            decreases n - p,
        {
            let m = self.organisms[p];
            if p == 0 {
                organisms[m].champion = true;
            }
            if p as u128 >= parents {
                organisms[m].eliminate = true;
            }
            proof {
                assert(organisms@[m as int] == old(self).ranked(orgs0[m as int], *env, p as int));
            }
            p = p + 1;
        }
    }
}

} // verus!

verus! {

/// Fitness sharing never leaves a member below `MIN_FITNESS / size`, so an organism
/// alone in its species keeps at least `MIN_FITNESS`. In larger species the floor is
/// divided by the size along with the rest of the fitness.
pub proof fn lemma_shared_fitness_floor(s: Species, o: Organism, env: Env)
    requires
        s.organisms@.len() > 0,
        env.fitness_coeffs_valid(),
        -FITNESS_LIMIT <= o.fitness <= FITNESS_LIMIT,
    ensures
        s.shared(o, env).fitness >= (MIN_FITNESS as int) / (s.organisms@.len() as int),
        s.organisms@.len() == 1 ==> s.shared(o, env).fitness >= MIN_FITNESS,
        s.shared(o, env).fitness <= FITNESS_LIMIT * COEFF_LIMIT / (SCALE as int),
{
    let n = s.organisms@.len() as int;
    let a = adjusted_fitness(o.fitness as int, s.penalized(env), s.young(), env.age_significance as int);
    if o.fitness > 0 {
        let f1 = if s.penalized(env) {
            o.fitness / 100
        } else {
            o.fitness as int
        };
        assert(0 <= f1 <= FITNESS_LIMIT);
        if s.young() {
            assert(f1 * env.age_significance / (SCALE as int) <= FITNESS_LIMIT * COEFF_LIMIT / (SCALE as int))
                by (nonlinear_arith)
                requires
                    0 <= f1 <= FITNESS_LIMIT,
                    0 <= env.age_significance <= COEFF_LIMIT,
            ;
        }
    }
    assert(MIN_FITNESS <= a <= FITNESS_LIMIT * COEFF_LIMIT / (SCALE as int));
    assert(a / n >= (MIN_FITNESS as int) / n) by (nonlinear_arith)
        requires
            a >= MIN_FITNESS,
            n > 0,
    ;
    assert(a / n <= a) by (nonlinear_arith)
        requires
            a >= 0,
            n > 0,
    ;
    if n == 1 {
        assert(a / n == a) by (nonlinear_arith)
            requires
                n == 1,
        ;
    }
    assert(s.shared(o, env).fitness == a / n);
}

} // verus!
