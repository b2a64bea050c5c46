//! The population: all organisms and species, with speciation and the epoch cycle.
use crate::env::Env;
use crate::fixed::{COUNT_LIMIT, GENE_LIMIT, FITNESS_LIMIT, MIN_FITNESS, SCALE};
use crate::genome::gene::Gene;
use crate::genome::gene_trait::Trait;
use crate::genome::{
    compatibility_spec, gene_copy, names_trait_of, node_copy, reachable_weight, trait_or_first,
    weight_mutation_of, Genome, GenomeError,
};
use crate::fixed::{abs, clamp_weight};
use crate::node::Node;
use crate::organism::Organism;
use crate::species::{fitness_sum, offspring_sum, Species};
use crate::Mutator;
use vstd::prelude::*;
use vstd::set_lib::{lemma_int_range, lemma_len_subset, set_int_range};

verus! {

broadcast use vstd::seq_lib::group_to_multiset_ensures;

/// All organisms and species of one run. Species name their members by index into
/// `organisms`, and each organism names its species by index into `species`.
/// Reals are held in millionths.
pub struct Population {
    pub organisms: Vec<Organism>,
    pub species: Vec<Species>,
    /// Current node id available.
    pub cur_node_id: i32,
    /// Current innovation number available.
    pub cur_innov_num: u64,
    pub last_species: usize,
    pub mean_fitness: i64,
    pub variance: i64,
    pub standard_deviation: i64,
    /// When above zero, the generation of the first winner.
    pub winnergen: i32,
    /// Stagnation detector.
    pub highest_fitness: i64,
    pub highest_last_changed: u32,
}

/// Species membership and the organisms' back references agree: every species has
/// members, all distinct valid indices whose organisms name that species, and every
/// organism that names a species is among its members.
pub open spec fn membership_wf(orgs: Seq<Organism>, species: Seq<Species>) -> bool {
    &&& forall|s: int|
        0 <= s < species.len() ==> {
            &&& #[trigger] species[s].members_valid(orgs.len() as int)
            &&& species[s].organisms@.len() > 0
        }
    &&& forall|s: int, k: int|
        0 <= s < species.len() && 0 <= k < species[s].organisms@.len() ==> orgs[#[trigger] species[s].organisms@[k] as int].species
            == Some(s as usize)
    &&& forall|i: int|
        0 <= i < orgs.len() && (#[trigger] orgs[i].species).is_some() ==> {
            let s = orgs[i].species.unwrap() as int;
            &&& 0 <= s < species.len()
            &&& species[s].organisms@.contains(i as usize)
        }
}

/// The first member of species `s`: the representative new organisms are compared to.
pub open spec fn representative(species: Seq<Species>, s: int) -> usize {
    species[s].organisms@[0]
}

/// The compatibility distance between the genomes of organisms `i` and `j`.
pub open spec fn org_compat(orgs: Seq<Organism>, i: int, j: int, env: Env) -> int {
    compatibility_spec(orgs[i].genome.genes@, orgs[j].genome.genes@, env)
}

/// Distinct indices below `n` number at most `n`.
pub proof fn lemma_distinct_indices_bounded(s: Seq<usize>, n: int)
    requires
        n >= 0,
        s.no_duplicates(),
        forall|k: int| 0 <= k < s.len() ==> #[trigger] s[k] < n,
    ensures
        s.len() <= n,
{
    let t = s.map_values(|x: usize| x as int);
    assert(t.len() == s.len());
    assert(t.no_duplicates()) by {
        assert forall|i: int, j: int| 0 <= i < t.len() && 0 <= j < t.len() && i != j implies t[i] != t[j] by {
            assert(s[i] != s[j]);
        }
    }
    t.unique_seq_to_set();
    {
        lemma_int_range(0, n);
        assert(t.to_set().subset_of(set_int_range(0, n))) by {
            assert forall|x: int| t.to_set().contains(x) implies set_int_range(0, n).contains(x) by {
                let k = choose|k: int| 0 <= k < t.len() && t[k] == x;
                assert(s[k] < n);
            }
        }
        lemma_len_subset(t.to_set(), set_int_range(0, n));
        assert(t.to_set().len() <= n);
    }
}

impl Population {
    /// The population's membership is consistent (see `membership_wf`).
    pub open spec fn wf(&self) -> bool {
        membership_wf(self.organisms@, self.species@)
    }

    /// Checks every organism's genome, in order, and reports the first fault.
    pub fn verify(&self) -> (r: Result<(), GenomeError>)
        ensures
            r.is_ok() <==> forall|i: int| 0 <= i < self.organisms@.len() ==> #[trigger] crate::genome::verify_spec(*self.organisms@[i].genome).is_ok(),
            r.is_err() ==> exists|i: int|
                0 <= i < self.organisms@.len() && r == crate::genome::verify_spec(*#[trigger] self.organisms@[i].genome)
                    && forall|j: int| 0 <= j < i ==> crate::genome::verify_spec(*#[trigger] self.organisms@[j].genome).is_ok(),
    {
        let mut i: usize = 0;
        while i < self.organisms.len()
            invariant
                i <= self.organisms@.len(),
                forall|j: int| 0 <= j < i ==> crate::genome::verify_spec(*#[trigger] self.organisms@[j].genome).is_ok(),
            decreases self.organisms@.len() - i,
        {
            let r = self.organisms[i].genome.verify();
            if r.is_err() {
                return r;
            }
            i = i + 1;
        }
        Ok(())
    }
}

} // verus!

verus! {

/// Organism `i` sits in the first species, in list order, whose representative is
/// within the compatibility threshold of it, or else in a species it represents
/// itself because no earlier species was.
pub open spec fn first_fit(orgs: Seq<Organism>, species: Seq<Species>, i: int, env: Env) -> bool {
    let s = orgs[i].species.unwrap() as int;
    &&& orgs[i].species.is_some()
    &&& forall|t: int|
        0 <= t < s ==> org_compat(orgs, i, #[trigger] representative(species, t) as int, env)
            >= env.compat_threshold
    &&& (representative(species, s) == i as usize || org_compat(orgs, i, representative(species, s) as int, env)
        < env.compat_threshold)
}

/// `r` is `o` with at most its species changed.
pub open spec fn same_but_species(r: Organism, o: Organism) -> bool {
    r == Organism { species: r.species, ..o }
}

/// Every genome has at most `GENE_LIMIT` genes.
pub open spec fn genomes_sized(orgs: Seq<Organism>) -> bool {
    forall|i: int| 0 <= i < orgs.len() ==> (#[trigger] orgs[i]).genome.genes@.len() <= GENE_LIMIT
}

/// Species `t` of `before` lives on in `after` with members only appended.
pub open spec fn species_grown(after: Seq<Species>, before: Seq<Species>, t: int) -> bool {
    &&& after[t] == Species { organisms: after[t].organisms, ..before[t] }
    &&& after[t].organisms@.len() >= before[t].organisms@.len()
    &&& after[t].organisms@.subrange(0, before[t].organisms@.len() as int) == before[t].organisms@
}

/// Placing organism `i`, which had no species, into species `s` (an existing one, or
/// a new one appended with `i` alone) keeps membership consistent, keeps every
/// representative, and makes the placement first-fit when no earlier representative
/// was close enough.
proof fn lemma_place(
    orgs1: Seq<Organism>,
    species1: Seq<Species>,
    orgs2: Seq<Organism>,
    species2: Seq<Species>,
    i: usize,
    s: usize,
    env: Env,
)
    requires
        membership_wf(orgs1, species1),
        i < orgs1.len(),
        orgs1[i as int].species.is_none(),
        orgs2 == orgs1.update(i as int, Organism { species: Some(s), ..orgs1[i as int] }),
        s <= species1.len(),
        s < species1.len() ==> species2 == species1.update(
            s as int,
            Species { organisms: species2[s as int].organisms, ..species1[s as int] },
        ) && species2[s as int].organisms@ == species1[s as int].organisms@.push(i)
            && org_compat(orgs1, i as int, representative(species1, s as int) as int, env) < env.compat_threshold,
        s == species1.len() ==> species2.len() == species1.len() + 1 && species2.subrange(0, s as int) == species1
            && species2[s as int].organisms@ == seq![i],
        forall|t: int|
            0 <= t < s ==> org_compat(orgs1, i as int, #[trigger] representative(species1, t) as int, env)
                >= env.compat_threshold,
    ensures
        membership_wf(orgs2, species2),
        species2.len() >= species1.len(),
        forall|t: int| 0 <= t < species1.len() ==> #[trigger] representative(species2, t) == representative(species1, t),
        forall|t: int|
            0 <= t < species1.len() && t != s ==> #[trigger] species2[t] == species1[t],
        forall|j: int, k: int|
            0 <= j < orgs1.len() && 0 <= k < orgs1.len() ==> #[trigger] org_compat(orgs2, j, k, env) == org_compat(orgs1, j, k, env),
        first_fit(orgs2, species2, i as int, env),
{
    assert forall|j: int| 0 <= j < orgs1.len() implies #[trigger] orgs2[j].genome == orgs1[j].genome by {}

    assert forall|t: int, k: int|
        0 <= t < species1.len() && 0 <= k < species1[t].organisms@.len() implies #[trigger] species1[t].organisms@[k]
            != i by {
        assert(species1[t].organisms@[k] < orgs1.len()) by {
            assert(species1[t].members_valid(orgs1.len() as int));
        }
        assert(orgs1[species1[t].organisms@[k] as int].species == Some(t as usize));
    }
    assert forall|t: int| 0 <= t < species1.len() && t != s implies #[trigger] species2[t] == species1[t] by {
        if s == species1.len() {
            assert(species2[t] == species2.subrange(0, s as int)[t]);
        }
    }
    assert forall|t: int| 0 <= t < species1.len() implies #[trigger] representative(species2, t) == representative(species1, t) by {
        assert(species1[t].members_valid(orgs1.len() as int));
        assert(species1[t].organisms@.len() > 0);
        if t == s {
            assert(species2[s as int].organisms@[0] == species1[s as int].organisms@[0]);
        }
    }
    assert forall|s2: int| 0 <= s2 < species2.len() implies {
        &&& #[trigger] species2[s2].members_valid(orgs2.len() as int)
        &&& species2[s2].organisms@.len() > 0
    } by {
        if s2 == s {
            if s < species1.len() {
                let old_m = species1[s as int].organisms@;
                let new_m = species2[s as int].organisms@;
                assert(species1[s as int].members_valid(orgs1.len() as int));
                assert forall|a: int, b: int| 0 <= a < new_m.len() && 0 <= b < new_m.len() && a != b implies new_m[a] != new_m[b] by {
                    if a < old_m.len() && b < old_m.len() {
                        assert(old_m[a] != old_m[b]);
                    } else if a < old_m.len() {
                        assert(old_m[a] != i);
                    } else if b < old_m.len() {
                        assert(old_m[b] != i);
                    }
                }
                assert forall|k: int| 0 <= k < new_m.len() implies #[trigger] new_m[k] < orgs2.len() by {
                    if k < old_m.len() {
                        assert(old_m[k] < orgs1.len());
                    }
                }
            }
        } else {
            assert(species1[s2].members_valid(orgs1.len() as int));
        }
    }
    assert forall|s2: int, k: int|
        0 <= s2 < species2.len() && 0 <= k < species2[s2].organisms@.len() implies orgs2[#[trigger] species2[s2].organisms@[k] as int].species
            == Some(s2 as usize) by {
        if s2 == s {
            if s < species1.len() && k < species1[s as int].organisms@.len() {
                assert(species2[s2].organisms@[k] == species1[s2].organisms@[k]);
                assert(species1[s2].members_valid(orgs1.len() as int));
                assert(species1[s2].organisms@[k] != i);
                assert(orgs1[species1[s2].organisms@[k] as int].species == Some(s2 as usize));
            } else {
                assert(species2[s2].organisms@[k] == i);
            }
        } else {
            assert(species2[s2] == species1[s2]);
            assert(species1[s2].members_valid(orgs1.len() as int));
            let m = species1[s2].organisms@[k];
            assert(m < orgs1.len());
            assert(orgs1[m as int].species == Some(s2 as usize));
            assert(m != i);
            assert(orgs2[m as int] == orgs1[m as int]);
        }
    }
    assert forall|j: int| 0 <= j < orgs2.len() && (#[trigger] orgs2[j].species).is_some() implies {
        let t = orgs2[j].species.unwrap() as int;
        &&& 0 <= t < species2.len()
        &&& species2[t].organisms@.contains(j as usize)
    } by {
        if j == i {
            assert(species2[s as int].organisms@.last() == i);
            assert(species2[s as int].organisms@[species2[s as int].organisms@.len() - 1] == i);
        } else {
            let t = orgs1[j].species.unwrap() as int;
            assert(species1[t].organisms@.contains(j as usize));
            if t == s {
                let k = choose|k: int| 0 <= k < species1[t].organisms@.len() && species1[t].organisms@[k] == j as usize;
                assert(species2[t].organisms@[k] == j as usize);
            }
        }
    }
    assert forall|t: int| 0 <= t < s implies org_compat(orgs2, i as int, #[trigger] representative(species2, t) as int, env)
        >= env.compat_threshold by {
        assert(representative(species2, t) == representative(species1, t));
        assert(species1[t].members_valid(orgs1.len() as int));
        assert(species1[t].organisms@.len() > 0);
        assert(representative(species1, t) < orgs1.len());
    }
    if s < species1.len() {
        assert(species1[s as int].members_valid(orgs1.len() as int));
        assert(species1[s as int].organisms@.len() > 0);
        assert(representative(species1, s as int) < orgs1.len());
        assert(representative(species2, s as int) == representative(species1, s as int));
    } else {
        assert(representative(species2, s as int) == i);
    }
}

/// A first-fit placement of `j` survives placing another organism (see `lemma_place`).
proof fn lemma_first_fit_kept(
    orgs1: Seq<Organism>,
    species1: Seq<Species>,
    orgs2: Seq<Organism>,
    species2: Seq<Species>,
    j: int,
    env: Env,
)
    requires
        membership_wf(orgs1, species1),
        0 <= j < orgs1.len() == orgs2.len(),
        first_fit(orgs1, species1, j, env),
        orgs2[j].species == orgs1[j].species,
        species2.len() >= species1.len(),
        forall|t: int| 0 <= t < species1.len() ==> #[trigger] representative(species2, t) == representative(species1, t),
        forall|a: int, k: int|
            0 <= a < orgs1.len() && 0 <= k < orgs1.len() ==> #[trigger] org_compat(orgs2, a, k, env) == org_compat(orgs1, a, k, env),
    ensures
        first_fit(orgs2, species2, j, env),
{
    let sj = orgs1[j].species.unwrap() as int;
    assert(0 <= sj < species1.len());
    assert forall|t: int| 0 <= t <= sj implies representative(species1, t) < orgs1.len() by {
        assert(species1[t].members_valid(orgs1.len() as int));
        assert(species1[t].organisms@.len() > 0);
    }
    assert forall|t: int| 0 <= t < sj implies org_compat(orgs2, j, #[trigger] representative(species2, t) as int, env)
        >= env.compat_threshold by {
        assert(representative(species2, t) == representative(species1, t));
        assert(org_compat(orgs1, j, representative(species1, t) as int, env) >= env.compat_threshold);
    }
    assert(representative(species2, sj) == representative(species1, sj));
    assert(org_compat(orgs2, j, representative(species1, sj) as int, env) == org_compat(orgs1, j, representative(species1, sj) as int, env));
}

/// Number of members species `t` had in `before`; zero for a species not in it.
pub open spec fn kept_len(before: Seq<Species>, t: int) -> int {
    if t < before.len() {
        before[t].organisms@.len() as int
    } else {
        0
    }
}

/// Members added to the species of `before` (and all members of species new in
/// `after`) are indices below `bound`, listed in increasing order, and the new
/// species come in the order of their first members.
pub open spec fn appended_in_order(after: Seq<Species>, before: Seq<Species>, bound: int) -> bool {
    &&& forall|t: int, k: int|
        0 <= t < after.len() && kept_len(before, t) <= k < after[t].organisms@.len() ==> #[trigger] after[t].organisms@[k]
            < bound
    &&& forall|t: int, k1: int, k2: int|
        0 <= t < after.len() && kept_len(before, t) <= k1 < k2 < after[t].organisms@.len() ==> #[trigger] after[t].organisms@[k1]
            < #[trigger] after[t].organisms@[k2]
    &&& forall|t1: int, t2: int|
        before.len() <= t1 < t2 < after.len() ==> #[trigger] representative(after, t1) < #[trigger] representative(after, t2)
}

/// Placing organism `i` (see `lemma_place`) keeps the added members in order.
proof fn lemma_place_order(
    species1: Seq<Species>,
    species2: Seq<Species>,
    before: Seq<Species>,
    i: usize,
    s: usize,
)
    requires
        appended_in_order(species1, before, i as int),
        species1.len() >= before.len(),
        forall|t: int| 0 <= t < species1.len() ==> (#[trigger] species1[t]).organisms@.len() > 0,
        forall|t: int| 0 <= t < before.len() ==> #[trigger] species_grown(species1, before, t),
        s <= species1.len(),
        forall|t: int| 0 <= t < species1.len() && t != s ==> #[trigger] species2[t] == species1[t],
        s < species1.len() ==> species2.len() == species1.len() && species2[s as int].organisms@
            == species1[s as int].organisms@.push(i),
        s == species1.len() ==> species2.len() == species1.len() + 1 && species2[s as int].organisms@ == seq![i],
    ensures
        appended_in_order(species2, before, i + 1),
{
    assert forall|t: int, k: int|
        0 <= t < species2.len() && kept_len(before, t) <= k < species2[t].organisms@.len() implies #[trigger] species2[t].organisms@[k]
            < i + 1 by {
        if t == s && k == species2[t].organisms@.len() - 1 {
        } else if t == s {
            assert(species2[t].organisms@[k] == species1[t].organisms@[k]);
        } else {
            assert(species2[t] == species1[t]);
        }
    }
    assert forall|t: int, k1: int, k2: int|
        0 <= t < species2.len() && kept_len(before, t) <= k1 < k2 < species2[t].organisms@.len() implies #[trigger] species2[t].organisms@[k1]
            < #[trigger] species2[t].organisms@[k2] by {
        if t == s {
            if s < species1.len() {
                assert(species2[t].organisms@[k1] == species1[t].organisms@[k1]);
                if k2 == species2[t].organisms@.len() - 1 {
                    assert(species1[t].organisms@[k1] < i);
                } else {
                    assert(species2[t].organisms@[k2] == species1[t].organisms@[k2]);
                    assert(species1[t].organisms@[k1] < species1[t].organisms@[k2]);
                }
            }
        } else {
            assert(species2[t] == species1[t]);
            assert(species1[t].organisms@[k1] < species1[t].organisms@[k2]);
        }
    }
    assert forall|t1: int, t2: int|
        before.len() <= t1 < t2 < species2.len() implies #[trigger] representative(species2, t1) < #[trigger] representative(
        species2,
        t2,
    ) by {
        if t2 == s && s == species1.len() {
            assert(species2[t1] == species1[t1]);
            assert(species1[t1].organisms@.len() > 0);
            assert(species1[t1].organisms@[0] < i);
        } else if t1 == s || t2 == s {
            assert(species2[s as int].organisms@[0] == species1[s as int].organisms@[0]);
            assert(representative(species1, t1) < representative(species1, t2));
        } else {
            assert(species2[t1] == species1[t1]);
            assert(species2[t2] == species1[t2]);
            assert(representative(species1, t1) < representative(species1, t2));
        }
    }
}

impl Population {
    /// Places every organism without a species: it joins the first species whose
    /// representative (first member) is closer than `compat_threshold`, or else
    /// founds a new species of its own at the end of the list. Existing members
    /// stay where they are.
    pub fn speciate(&mut self, env: &Env)
        requires
            old(self).wf(),
            env.compat_coeffs_valid(),
            genomes_sized(old(self).organisms@),
        ensures
            final(self).wf(),
            final(self).organisms@.len() == old(self).organisms@.len(),
            final(self).species@.len() >= old(self).species@.len(),
            forall|i: int|
                0 <= i < old(self).organisms@.len() ==> same_but_species(
                    #[trigger] final(self).organisms@[i],
                    old(self).organisms@[i],
                ),
            forall|i: int|
                0 <= i < old(self).organisms@.len() ==> (#[trigger] final(self).organisms@[i]).species.is_some(),
            forall|i: int|
                0 <= i < old(self).organisms@.len() && (#[trigger] old(self).organisms@[i]).species.is_some()
                    ==> final(self).organisms@[i].species == old(self).organisms@[i].species,
            forall|i: int|
                0 <= i < old(self).organisms@.len() && (#[trigger] old(self).organisms@[i]).species.is_none()
                    ==> first_fit(final(self).organisms@, final(self).species@, i, *env),
            forall|t: int|
                0 <= t < old(self).species@.len() ==> #[trigger] species_grown(
                    final(self).species@,
                    old(self).species@,
                    t,
                ),
            appended_in_order(final(self).species@, old(self).species@, old(self).organisms@.len() as int),
    {
        let n = self.organisms.len();
        let ghost old_species = self.species@;
        let ghost old_orgs = self.organisms@;
        let mut counter: usize = 0;
        let mut i: usize = 0;
        proof {
            assert forall|t: int| 0 <= t < old_species.len() implies #[trigger] species_grown(
                self.species@,
                old_species,
                t,
            ) by {
                assert(old_species[t].organisms@.subrange(0, old_species[t].organisms@.len() as int)
                    == old_species[t].organisms@);
            }
        }
        while i < n
            invariant
                n == self.organisms@.len() == old_orgs.len(),
                old_orgs == old(self).organisms@,
                old_species == old(self).species@,
                i <= n,
                env.compat_coeffs_valid(),
                membership_wf(self.organisms@, self.species@),
                genomes_sized(self.organisms@),
                self.species@.len() >= old_species.len(),
                counter <= i,
                counter + old_species.len() == self.species@.len(),
                forall|j: int| 0 <= j < n ==> same_but_species(#[trigger] self.organisms@[j], old_orgs[j]),
                forall|j: int| 0 <= j < i ==> (#[trigger] self.organisms@[j]).species.is_some(),
                forall|j: int| i <= j < n ==> (#[trigger] self.organisms@[j]).species == old_orgs[j].species,
                forall|j: int|
                    0 <= j < i && (#[trigger] old_orgs[j]).species.is_some() ==> self.organisms@[j].species
                        == old_orgs[j].species,
                forall|j: int|
                    0 <= j < i && (#[trigger] old_orgs[j]).species.is_none() ==> first_fit(
                        self.organisms@,
                        self.species@,
                        j,
                        *env,
                    ),
                forall|t: int| 0 <= t < old_species.len() ==> #[trigger] species_grown(self.species@, old_species, t),
                appended_in_order(self.species@, old_species, i as int),
            decreases n - i,
        {
            if self.organisms[i].species.is_none() {
                let ghost orgs1 = self.organisms@;
                let ghost species1 = self.species@;
                let mut s: usize = 0;
                let mut placed = false;
                while s < self.species.len() && !placed
                    invariant
                        self.organisms@ == orgs1,
                        self.species@ == species1,
                        i < n == orgs1.len(),
                        s <= species1.len(),
                        env.compat_coeffs_valid(),
                        membership_wf(orgs1, species1),
                        genomes_sized(orgs1),
                        placed ==> s < species1.len() && org_compat(orgs1, i as int, representative(species1, s as int) as int, *env)
                            < env.compat_threshold,
                        forall|t: int|
                            0 <= t < s ==> org_compat(orgs1, i as int, #[trigger] representative(species1, t) as int, *env)
                                >= env.compat_threshold,
                    decreases species1.len() - s, if placed { 0int } else { 1int },
                {
                    proof {
                        assert(species1[s as int].members_valid(n as int));
                        assert(species1[s as int].organisms@.len() > 0);
                    }
                    let rep = self.species[s].organisms[0];
                    let c = self.organisms[i].genome.compatibility(&self.organisms[rep].genome, env);
                    if c < env.compat_threshold as i128 {
                        placed = true;
                    } else {
                        s = s + 1;
                    }
                }
                if placed {
                    self.species[s].add_organism(i);
                } else {
                    assert(s == species1.len());
                    counter = counter + 1;
                    let mut new_species = Species::new(counter);
                    new_species.add_organism(i);
                    assert(new_species.organisms@ == seq![i]);
                    self.species.push(new_species);
                    assert(self.species@.subrange(0, s as int) == species1);
                }
                self.organisms[i].set_species(s);
                proof {
                    lemma_place(orgs1, species1, self.organisms@, self.species@, i, s, *env);
                    assert forall|t: int| 0 <= t < species1.len() implies (#[trigger] species1[t]).organisms@.len() > 0 by {
                        assert(species1[t].members_valid(n as int));
                    }
                    lemma_place_order(species1, self.species@, old_species, i, s);
                    assert forall|j: int|
                        0 <= j < i && (#[trigger] old_orgs[j]).species.is_none() implies first_fit(
                        self.organisms@,
                        self.species@,
                        j,
                        *env,
                    ) by {
                        lemma_first_fit_kept(orgs1, species1, self.organisms@, self.species@, j, *env);
                    }
                    assert forall|t: int| 0 <= t < old_species.len() implies #[trigger] species_grown(
                        self.species@,
                        old_species,
                        t,
                    ) by {
                        assert(species_grown(species1, old_species, t));
                        if t == s {
                            assert(self.species@[t].organisms@.subrange(0, old_species[t].organisms@.len() as int)
                                == species1[t].organisms@.subrange(0, old_species[t].organisms@.len() as int));
                        }
                    }
                }
            } else {
                proof {
                    assert(appended_in_order(self.species@, old_species, i + 1));
                }
            }
            i = i + 1;
        }
        self.last_species = counter;
    }
}

} // verus!

verus! {

/// Gene `g` of a seeded genome stems from gene `s` of the template: same marker,
/// endpoints and flags, a trait of the template's, and, unless frozen, a weight in
/// `[-1, 1]` recorded as its mutation number (a frozen gene keeps both).
pub open spec fn seeded_gene(g: Gene, s: Gene, traits: Seq<Trait>) -> bool {
    &&& g.innovation_num == s.innovation_num
    &&& g.link.i_node == s.link.i_node
    &&& g.link.o_node == s.link.o_node
    &&& g.link.recurrent == s.link.recurrent
    &&& g.enable == s.enable
    &&& g.frozen == s.frozen
    &&& names_trait_of(traits, g.link.link_trait)
    &&& if s.frozen {
        g.link.weight == s.link.weight && g.mutation_num == s.mutation_num
    } else {
        -SCALE <= g.link.weight <= SCALE && g.mutation_num == g.link.weight
    }
}

/// Node `n` of a seeded genome duplicates node `s` of the template, with a trait of
/// the template's.
pub open spec fn seeded_node(n: Node, s: Node, traits: Seq<Trait>) -> bool {
    &&& n.id == s.id
    &&& n.node_type == s.node_type
    &&& n.node_place == s.node_place
    &&& n.fresh()
    &&& names_trait_of(traits, n.node_trait)
}

/// Organism `o` is the `i`th seeded from template `start`: fitness zero, generation
/// one, and a genome with id `i`, the template's traits, and nodes and genes seeded
/// from the template's.
pub open spec fn seeded(o: Organism, start: Genome, i: int) -> bool {
    &&& o.fitness == 0
    &&& o.generation == 1
    &&& o.genome.id == i
    &&& o.genome.traits@ == start.traits@
    &&& o.genome.nodes@.len() == start.nodes@.len()
    &&& o.genome.genes@.len() == start.genes@.len()
    &&& forall|k: int|
        0 <= k < start.nodes@.len() ==> seeded_node(#[trigger] o.genome.nodes@[k], start.nodes@[k], start.traits@)
    &&& forall|k: int|
        0 <= k < start.genes@.len() ==> seeded_gene(#[trigger] o.genome.genes@[k], start.genes@[k], start.traits@)
}

impl Population {
    /// Seeds `pop_size` organisms from `start_genome`: organism `i` gets a clone with
    /// id `i`, all weights replaced at random (power and rate one), random traits,
    /// fitness zero and generation one. The node and innovation counters continue
    /// from the template's last node id and last innovation number, and the
    /// organisms are then speciated.
    pub fn new(start_genome: &Genome, pop_size: usize, env: &Env) -> (r: Self)
        requires
            0 < pop_size <= COUNT_LIMIT,
            start_genome.traits@.len() > 0,
            start_genome.nodes@.len() > 0,
            start_genome.genes@.len() > 0,
            start_genome.genes@.len() <= GENE_LIMIT,
            env.compat_coeffs_valid(),
        ensures
            r.wf(),
            r.organisms@.len() == pop_size,
            r.cur_node_id == start_genome.nodes@.last().id,
            r.cur_innov_num == start_genome.genes@.last().innovation_num,
            forall|i: int|
                0 <= i < pop_size ==> {
                    &&& seeded(#[trigger] r.organisms@[i], *start_genome, i)
                    &&& r.organisms@[i].species.is_some()
                    &&& first_fit(r.organisms@, r.species@, i, *env)
                },
            appended_in_order(r.species@, Seq::empty(), pop_size as int),
    {
        let mut population = Population {
            organisms: Vec::new(),
            species: Vec::new(),
            cur_node_id: 0,
            cur_innov_num: 0,
            last_species: 0,
            mean_fitness: 0,
            variance: 0,
            standard_deviation: 0,
            winnergen: 0,
            highest_fitness: 0,
            highest_last_changed: 0,
        };
        let mut count: usize = 0;
        while count < pop_size
            invariant
                count <= pop_size <= COUNT_LIMIT,
                population.organisms@.len() == count,
                population.species@.len() == 0,
                start_genome.traits@.len() > 0,
                start_genome.genes@.len() <= GENE_LIMIT,
                forall|i: int|
                    0 <= i < count ==> {
                        &&& seeded(#[trigger] population.organisms@[i], *start_genome, i)
                        &&& population.organisms@[i].species.is_none()
                    },
            decreases pop_size - count,
        {
            let mut new_genome = Box::new(start_genome.clone(count as i32));
            let ghost cloned = *new_genome;
            new_genome.mutate_link_weights(SCALE, SCALE, Mutator::ColdGaussian);
            let ghost mutated = *new_genome;
            new_genome.randomize_traits();
            proof {
                assert forall|k: int| 0 <= k < start_genome.genes@.len() implies seeded_gene(
                    #[trigger] new_genome.genes@[k],
                    start_genome.genes@[k],
                    start_genome.traits@,
                ) by {
                    let g0 = start_genome.genes@[k];
                    let g1 = cloned.genes@[k];
                    let g2 = mutated.genes@[k];
                    assert(g1 == gene_copy(g0, trait_or_first(start_genome.traits@, g0.link.link_trait)));
                    assert(weight_mutation_of(g2, g1, SCALE as int, Mutator::ColdGaussian));
                    if !g1.frozen {
                        let p = choose|p: int|
                            abs(p) <= abs(SCALE as int) && #[trigger] reachable_weight(
                                g2.link.weight as int,
                                g1.link.weight as int,
                                p,
                                Mutator::ColdGaussian,
                            );
                        assert(g2.link.weight == clamp_weight(p));
                    }
                }
                assert forall|k: int| 0 <= k < start_genome.nodes@.len() implies seeded_node(
                    #[trigger] new_genome.nodes@[k],
                    start_genome.nodes@[k],
                    start_genome.traits@,
                ) by {
                    let n1 = cloned.nodes@[k];
                    assert(n1 == node_copy(start_genome.nodes@[k], trait_or_first(start_genome.traits@, start_genome.nodes@[k].node_trait)));
                    assert(mutated.nodes@[k] == n1);
                }
            }
            let new_organism = Organism::new(0, new_genome, 1);
            population.organisms.push(new_organism);
            count = count + 1;
        }
        proof {
            assert(membership_wf(population.organisms@, population.species@));
        }
        let ghost before = population.organisms@;
        proof {
            assert(population.species@ =~= Seq::<Species>::empty());
        }
        population.speciate(env);
        proof {
            assert forall|i: int| 0 <= i < pop_size implies same_but_species(#[trigger] population.organisms@[i], before[i]) by {}
            assert forall|i: int| 0 <= i < pop_size implies seeded(#[trigger] population.organisms@[i], *start_genome, i) by {
                assert(same_but_species(population.organisms@[i], before[i]));
                assert(seeded(before[i], *start_genome, i));
            }
            assert forall|i: int| 0 <= i < pop_size implies first_fit(population.organisms@, population.species@, i, *env) by {
                assert(before[i].species.is_none());
            }
        }
        let last = population.organisms.len() - 1;
        proof {
            assert(same_but_species(population.organisms@[last as int], before[last as int]));
            let g = population.organisms@[last as int].genome;
            assert(g.nodes@[g.nodes@.len() - 1].id == start_genome.nodes@[start_genome.nodes@.len() - 1].id);
            assert(g.genes@[g.genes@.len() - 1].innovation_num == start_genome.genes@[start_genome.genes@.len() - 1].innovation_num);
        }
        population.cur_node_id = population.organisms[last].genome.nodes[population.organisms[last].genome.nodes.len() - 1].id;
        population.cur_innov_num = population.organisms[last].genome.genes[population.organisms[last].genome.genes.len() - 1].innovation_num;
        population
    }
}

} // verus!

verus! {

/// Species `k` is the weakest species older than twenty: among those, it has the
/// lowest `max_fitness`, and it comes first among those tied with it.
pub open spec fn weakest_old(species: Seq<Species>, k: int) -> bool {
    &&& 0 <= k < species.len()
    &&& species[k].age > 20
    &&& forall|j: int| 0 <= j < species.len() && #[trigger] species[j].age > 20 ==> species[k].max_fitness <= species[j].max_fitness
    &&& forall|j: int| 0 <= j < k && #[trigger] species[j].age > 20 ==> species[j].max_fitness > species[k].max_fitness
}

/// At most one species is the weakest old one.
proof fn lemma_weakest_old_unique(species: Seq<Species>, a: int, b: int)
    requires
        weakest_old(species, a),
        weakest_old(species, b),
    ensures
        a == b,
{
    if a < b {
        assert(species[a].age > 20);
    } else if b < a {
        assert(species[b].age > 20);
    }
}

/// The species after the obliteration step of generation `generation`: every
/// thirtieth generation, the weakest species older than twenty (see `weakest_old`)
/// is marked for obliteration; otherwise nothing changes.
pub open spec fn marked_species(species: Seq<Species>, generation: int) -> Seq<Species> {
    if generation % 30 == 0 && exists|j: int| 0 <= j < species.len() && #[trigger] species[j].age > 20 {
        let k = choose|k: int| weakest_old(species, k);
        species.update(k, Species { obliterate: true, ..species[k] })
    } else {
        species
    }
}

impl Population {
    /// Every thirtieth generation, marks the weakest species older than twenty (see
    /// `weakest_old`) for obliteration; nothing else changes.
    pub fn mark_stagnant_species(&mut self, generation: usize)
        ensures
            final(self).organisms == old(self).organisms,
            final(self).species@.len() == old(self).species@.len(),
            generation % 30 == 0 && (exists|j: int| 0 <= j < old(self).species@.len() && #[trigger] old(self).species@[j].age > 20)
                ==> exists|k: int|
                weakest_old(old(self).species@, k) && final(self).species@ == old(self).species@.update(
                    k,
                    Species { obliterate: true, ..old(self).species@[k] },
                ),
            !(generation % 30 == 0 && (exists|j: int| 0 <= j < old(self).species@.len() && #[trigger] old(self).species@[j].age > 20))
                ==> final(self).species@ == old(self).species@,
            *final(self) == (Population { species: final(self).species, ..*old(self) }),
            final(self).species@ == marked_species(old(self).species@, generation as int),
    {
        if generation % 30 != 0 {
            return;
        }
        let mut best: usize = 0;
        let mut found = false;
        let mut s: usize = 0;
        while s < self.species.len()
            invariant
                s <= self.species@.len(),
                self.species@ == old(self).species@,
                *self == *old(self),
                found ==> best < s && self.species@[best as int].age > 20,
                found ==> forall|j: int| 0 <= j < s && #[trigger] self.species@[j].age > 20 ==> self.species@[best as int].max_fitness <= self.species@[j].max_fitness,
                found ==> forall|j: int| 0 <= j < best && #[trigger] self.species@[j].age > 20 ==> self.species@[j].max_fitness > self.species@[best as int].max_fitness,
                !found ==> forall|j: int| 0 <= j < s ==> #[trigger] self.species@[j].age <= 20,
            decreases self.species@.len() - s,
        {
            if self.species[s].age > 20 && (!found || self.species[s].max_fitness < self.species[best].max_fitness) {
                best = s;
                found = true;
            }
            s = s + 1;
        }
        if found {
            self.species[best].set_to_obliterate();
            proof {
                assert(weakest_old(old(self).species@, best as int));
                let k = choose|k: int| weakest_old(old(self).species@, k);
                lemma_weakest_old_unique(old(self).species@, k, best as int);
            }
        }
    }
}

} // verus!

verus! {

/// Every organism's fitness lies within `[-FITNESS_LIMIT, FITNESS_LIMIT]`.
pub open spec fn fitness_in_range(orgs: Seq<Organism>) -> bool {
    forall|i: int| 0 <= i < orgs.len() ==> -FITNESS_LIMIT <= #[trigger] orgs[i].fitness <= FITNESS_LIMIT
}

/// Species `after` and the organisms `orgs` are what `Species::adjust_fitness` makes
/// of species `before` over the organisms `orgs0`.
pub open spec fn species_adjusted(after: Species, before: Species, orgs: Seq<Organism>, orgs0: Seq<Organism>, env: Env) -> bool {
    &&& after.organisms@.to_multiset() == before.organisms@.to_multiset()
    &&& after.organisms@.len() == before.organisms@.len()
    &&& crate::species::sorted_by_fitness(after.organisms@, orgs)
    &&& crate::species::record_updated(after, before, orgs0)
    &&& forall|p: int|
        0 <= p < after.organisms@.len() ==> orgs[#[trigger] after.organisms@[p] as int] == before.ranked(
            orgs0[after.organisms@[p] as int],
            env,
            p,
        )
}

/// Adjusting species `s` in place (its members permuted, only its members' entries
/// changed, no organism's species changed) keeps membership consistent.
proof fn lemma_adjust_keeps_membership(
    orgs1: Seq<Organism>,
    species1: Seq<Species>,
    orgs2: Seq<Organism>,
    species2: Seq<Species>,
    s: int,
)
    requires
        membership_wf(orgs1, species1),
        0 <= s < species1.len() == species2.len(),
        orgs2.len() == orgs1.len(),
        forall|t: int| 0 <= t < species1.len() && t != s ==> #[trigger] species2[t] == species1[t],
        species2[s].organisms@.to_multiset() == species1[s].organisms@.to_multiset(),
        species2[s].members_valid(orgs1.len() as int),
        species2[s].organisms@.len() == species1[s].organisms@.len(),
        forall|i: int| 0 <= i < orgs1.len() ==> (#[trigger] orgs2[i]).species == orgs1[i].species,
    ensures
        membership_wf(orgs2, species2),
{
    broadcast use vstd::seq_lib::group_to_multiset_ensures;

    assert forall|t: int| 0 <= t < species2.len() implies {
        &&& #[trigger] species2[t].members_valid(orgs2.len() as int)
        &&& species2[t].organisms@.len() > 0
    } by {
        assert(species1[t].members_valid(orgs1.len() as int));
    }
    assert forall|t: int, k: int|
        0 <= t < species2.len() && 0 <= k < species2[t].organisms@.len() implies orgs2[#[trigger] species2[t].organisms@[k] as int].species
            == Some(t as usize) by {
        let m = species2[t].organisms@[k];
        if t == s {
            assert(species2[t].organisms@.to_multiset().count(m) > 0);
            assert(species1[t].organisms@.contains(m));
            let q = choose|q: int| 0 <= q < species1[t].organisms@.len() && species1[t].organisms@[q] == m;
            assert(orgs1[species1[t].organisms@[q] as int].species == Some(t as usize));
        } else {
            assert(species1[t].members_valid(orgs1.len() as int));
            assert(orgs1[species1[t].organisms@[k] as int].species == Some(t as usize));
        }
    }
    assert forall|i: int| 0 <= i < orgs2.len() && (#[trigger] orgs2[i].species).is_some() implies {
        let t = orgs2[i].species.unwrap() as int;
        &&& 0 <= t < species2.len()
        &&& species2[t].organisms@.contains(i as usize)
    } by {
        assert(orgs1[i].species.is_some());
        let t = orgs1[i].species.unwrap() as int;
        assert(species1[t].organisms@.contains(i as usize));
        if t == s {
            assert(species1[t].organisms@.to_multiset().count(i as usize) > 0);
        }
    }
}

impl Population {
    /// Runs `Species::adjust_fitness` on every species in list order.
    pub fn adjust_all_fitness(&mut self, env: &Env)
        requires
            old(self).wf(),
            old(self).organisms@.len() <= COUNT_LIMIT,
            env.fitness_coeffs_valid(),
            fitness_in_range(old(self).organisms@),
        ensures
            final(self).wf(),
            final(self).organisms@.len() == old(self).organisms@.len(),
            final(self).species@.len() == old(self).species@.len(),
            forall|s: int|
                0 <= s < old(self).species@.len() ==> species_adjusted(
                    #[trigger] final(self).species@[s],
                    old(self).species@[s],
                    final(self).organisms@,
                    old(self).organisms@,
                    *env,
                ),
            forall|i: int|
                0 <= i < old(self).organisms@.len() ==> (#[trigger] final(self).organisms@[i]).species == old(self).organisms@[i].species,
            forall|i: int|
                0 <= i < old(self).organisms@.len() && (#[trigger] old(self).organisms@[i]).species.is_none()
                    ==> final(self).organisms@[i] == old(self).organisms@[i],
    {
        let ghost orgs0 = self.organisms@;
        let ghost species0 = self.species@;
        let mut s: usize = 0;
        while s < self.species.len()
            invariant
                orgs0 == old(self).organisms@,
                species0 == old(self).species@,
                s <= self.species@.len() == species0.len(),
                self.organisms@.len() == orgs0.len(),
                orgs0.len() <= COUNT_LIMIT,
                env.fitness_coeffs_valid(),
                fitness_in_range(orgs0),
                membership_wf(self.organisms@, self.species@),
                forall|t: int| s <= t < species0.len() ==> #[trigger] self.species@[t] == species0[t],
                forall|t: int|
                    0 <= t < s ==> species_adjusted(#[trigger] self.species@[t], species0[t], self.organisms@, orgs0, *env),
                forall|i: int| 0 <= i < orgs0.len() ==> (#[trigger] self.organisms@[i]).species == orgs0[i].species,
                forall|i: int|
                    0 <= i < orgs0.len() && (orgs0[i].species.is_none() || orgs0[i].species.unwrap() >= s) ==> #[trigger] self.organisms@[i]
                        == orgs0[i],
            decreases species0.len() - s,
        {
            let ghost orgs1 = self.organisms@;
            let ghost species1 = self.species@;
            proof {
                assert(species1[s as int].members_valid(orgs1.len() as int));
                assert forall|k: int| 0 <= k < species1[s as int].organisms@.len() implies -FITNESS_LIMIT <= #[trigger] orgs1[species1[s as int].organisms@[k] as int].fitness
                    <= FITNESS_LIMIT by {
                    let m = species1[s as int].organisms@[k] as int;
                    assert(orgs1[m].species == Some(s));
                    assert(orgs1[m] == orgs0[m]);
                }
            }
            self.species[s].adjust_fitness(&mut self.organisms, env);
            proof {
                let orgs2 = self.organisms@;
                let species2 = self.species@;
                assert forall|i: int| 0 <= i < orgs0.len() implies {
                    &&& (#[trigger] orgs2[i]).species == orgs0[i].species
                    &&& (orgs0[i].species.is_none() || orgs0[i].species.unwrap() >= s + 1) ==> orgs2[i] == orgs0[i]
                } by {
                    let u = i as usize;
                    assert(u as int == i);
                    if species1[s as int].organisms@.contains(u) {
                        let q = choose|q: int| 0 <= q < species1[s as int].organisms@.len() && species1[s as int].organisms@[q] == u;
                        assert(orgs1[species1[s as int].organisms@[q] as int].species == Some(s));
                        assert(species1[s as int].organisms@.to_multiset().count(u) > 0);
                        assert(species2[s as int].organisms@.to_multiset().count(u) > 0);
                        assert(species2[s as int].organisms@.contains(u));
                        let p = choose|p: int| 0 <= p < species2[s as int].organisms@.len() && species2[s as int].organisms@[p] == u;
                        assert(orgs2[species2[s as int].organisms@[p] as int] == species1[s as int].ranked(orgs1[i], *env, p));
                    } else {
                        assert(orgs2[i] == orgs1[i]);
                    }
                }
                lemma_adjust_keeps_membership(orgs1, species1, orgs2, species2, s as int);
                assert forall|t: int| 0 <= t < s implies species_adjusted(#[trigger] species2[t], species0[t], orgs2, orgs0, *env) by {
                    assert(species_adjusted(species1[t], species0[t], orgs1, orgs0, *env));
                    assert forall|p: int| 0 <= p < species2[t].organisms@.len() implies orgs2[#[trigger] species2[t].organisms@[p] as int] == orgs1[species2[t].organisms@[p] as int] by {
                        let m = species2[t].organisms@[p];
                        assert(species2[t] == species1[t]);
                        assert(orgs1[species1[t].organisms@[p] as int].species == Some(t as usize));
                        assert(species1[t].members_valid(orgs1.len() as int));
                        if species1[s as int].organisms@.contains(m) {
                            let q = choose|q: int| 0 <= q < species1[s as int].organisms@.len() && species1[s as int].organisms@[q] == m;
                            assert(orgs1[species1[s as int].organisms@[q] as int].species == Some(s));
                        }
                        assert(!species1[s as int].organisms@.contains((m as int) as usize));
                    }
                    assert(crate::species::sorted_by_fitness(species2[t].organisms@, orgs2));
                }
            }
            s = s + 1;
        }
    }
}

} // verus!

verus! {

/// Largest fitness an organism can have after fitness adjustment:
/// `FITNESS_LIMIT * COEFF_LIMIT / SCALE`.
pub const ADJUSTED_LIMIT: i64 = 1000000000000000000;

/// Summed fitness of all species' members.
pub open spec fn members_fitness_total(species: Seq<Species>, orgs: Seq<Organism>) -> int
    decreases species.len(),
{
    if species.len() == 0 {
        0
    } else {
        members_fitness_total(species.drop_last(), orgs) + fitness_sum(species.last().organisms@, orgs)
    }
}

/// Summed expected offspring of all species' members.
pub open spec fn members_offspring_total(species: Seq<Species>, orgs: Seq<Organism>) -> int
    decreases species.len(),
{
    if species.len() == 0 {
        0
    } else {
        members_offspring_total(species.drop_last(), orgs) + offspring_sum(species.last().organisms@, orgs)
    }
}

/// The expected offspring of an organism of fitness `f` in a population of `n` whose
/// members' fitness totals `total`: `f / (total / n)`, in millionths and rounded
/// down; zero when the total is zero.
pub open spec fn expected_share(f: int, n: int, total: int) -> int {
    if total > 0 {
        f * n * SCALE / total
    } else {
        0
    }
}

/// Every member of every species has a fitness within `[0, ADJUSTED_LIMIT]`.
pub open spec fn members_fitness_adjusted(species: Seq<Species>, orgs: Seq<Organism>) -> bool {
    forall|s: int, k: int|
        0 <= s < species.len() && 0 <= k < species[s].organisms@.len() ==> 0 <= #[trigger] orgs[species[s].organisms@[k] as int].fitness
            <= ADJUSTED_LIMIT
}

/// A sum of fitness values depends on the fitness values alone.
proof fn lemma_fitness_sum_frame(members: Seq<usize>, a: Seq<Organism>, b: Seq<Organism>)
    requires
        forall|k: int| 0 <= k < members.len() ==> #[trigger] a[members[k] as int].fitness == b[members[k] as int].fitness,
    ensures
        fitness_sum(members, a) == fitness_sum(members, b),
    decreases members.len(),
{
    if members.len() > 0 {
        assert(a[members[0] as int].fitness == b[members[0] as int].fitness);
        assert forall|k: int| 0 <= k < members.drop_first().len() implies #[trigger] a[members.drop_first()[k] as int].fitness
            == b[members.drop_first()[k] as int].fitness by {
            assert(members.drop_first()[k] == members[k + 1]);
        }
        lemma_fitness_sum_frame(members.drop_first(), a, b);
    }
}

/// The total over all species depends on the members' fitness values alone.
proof fn lemma_fitness_total_frame(species: Seq<Species>, a: Seq<Organism>, b: Seq<Organism>)
    requires
        forall|s: int, k: int|
            0 <= s < species.len() && 0 <= k < species[s].organisms@.len() ==> #[trigger] a[species[s].organisms@[k] as int].fitness
                == b[species[s].organisms@[k] as int].fitness,
    ensures
        members_fitness_total(species, a) == members_fitness_total(species, b),
    decreases species.len(),
{
    if species.len() > 0 {
        let last = species.len() - 1;
        assert forall|k: int| 0 <= k < species.last().organisms@.len() implies #[trigger] a[species.last().organisms@[k] as int].fitness
            == b[species.last().organisms@[k] as int].fitness by {
            assert(a[species[last].organisms@[k] as int].fitness == b[species[last].organisms@[k] as int].fitness);
        }
        lemma_fitness_sum_frame(species.last().organisms@, a, b);
        assert forall|s: int, k: int|
            0 <= s < species.drop_last().len() && 0 <= k < species.drop_last()[s].organisms@.len() implies #[trigger] a[species.drop_last()[s].organisms@[k] as int].fitness
                == b[species.drop_last()[s].organisms@[k] as int].fitness by {
            assert(species.drop_last()[s] == species[s]);
            assert(a[species[s].organisms@[k] as int].fitness == b[species[s].organisms@[k] as int].fitness);
        }
        lemma_fitness_total_frame(species.drop_last(), a, b);
    }
}

/// With no negative fitness, each member's fitness is at most its species' sum.
proof fn lemma_member_le_sum(members: Seq<usize>, orgs: Seq<Organism>, k: int)
    requires
        0 <= k < members.len(),
        forall|q: int| 0 <= q < members.len() ==> 0 <= #[trigger] orgs[members[q] as int].fitness,
    ensures
        0 <= orgs[members[k] as int].fitness <= fitness_sum(members, orgs),
        fitness_sum(members, orgs) >= 0,
    decreases members.len(),
{
    assert forall|q: int| 0 <= q < members.drop_first().len() implies 0 <= #[trigger] orgs[members.drop_first()[q] as int].fitness by {
        assert(members.drop_first()[q] == members[q + 1]);
    }
    assert(0 <= orgs[members[0] as int].fitness);
    if members.len() == 1 {
        assert(fitness_sum(members.drop_first(), orgs) == 0);
    } else if k == 0 {
        lemma_member_le_sum(members.drop_first(), orgs, 0);
    } else {
        assert(members.drop_first()[k - 1] == members[k]);
        lemma_member_le_sum(members.drop_first(), orgs, k - 1);
    }
}

/// With no negative member fitness, each species' sum is at most the total, and the
/// total is not negative.
proof fn lemma_species_le_total(species: Seq<Species>, orgs: Seq<Organism>, s: int)
    requires
        0 <= s < species.len(),
        members_fitness_adjusted(species, orgs),
    ensures
        0 <= fitness_sum(species[s].organisms@, orgs) <= members_fitness_total(species, orgs),
    decreases species.len(),
{
    let last = species.len() - 1;
    assert(members_fitness_adjusted(species.drop_last(), orgs)) by {
        assert forall|t: int, k: int|
            0 <= t < species.drop_last().len() && 0 <= k < species.drop_last()[t].organisms@.len() implies 0
                <= #[trigger] orgs[species.drop_last()[t].organisms@[k] as int].fitness <= ADJUSTED_LIMIT by {
            assert(species.drop_last()[t] == species[t]);
            assert(0 <= orgs[species[t].organisms@[k] as int].fitness <= ADJUSTED_LIMIT);
        }
    }
    assert forall|q: int| 0 <= q < species[last].organisms@.len() implies 0 <= #[trigger] orgs[species[last].organisms@[q] as int].fitness by {
        assert(0 <= orgs[species[last].organisms@[q] as int].fitness <= ADJUSTED_LIMIT);
    }
    if species[last].organisms@.len() > 0 {
        lemma_member_le_sum(species[last].organisms@, orgs, 0);
    } else {
        assert(fitness_sum(species[last].organisms@, orgs) == 0);
    }
    if species.drop_last().len() == 0 {
        assert(members_fitness_total(species.drop_last(), orgs) == 0);
    }
    if s == last {
        if species.drop_last().len() > 0 {
            lemma_species_le_total(species.drop_last(), orgs, 0);
        }
    } else {
        assert(species.drop_last()[s] == species[s]);
        lemma_species_le_total(species.drop_last(), orgs, s);
    }
}

} // verus!

verus! {

/// A consistent population has no more species than organisms, and no species has
/// more members than there are organisms.
proof fn lemma_counts_bounded(orgs: Seq<Organism>, species: Seq<Species>)
    requires
        membership_wf(orgs, species),
        species.len() <= usize::MAX,
    ensures
        species.len() <= orgs.len(),
        forall|s: int| 0 <= s < species.len() ==> #[trigger] species[s].organisms@.len() <= orgs.len(),
{
    assert forall|s: int| 0 <= s < species.len() implies #[trigger] species[s].organisms@.len() <= orgs.len() by {
        assert(species[s].members_valid(orgs.len() as int));
        lemma_distinct_indices_bounded(species[s].organisms@, orgs.len() as int);
    }
    let reps = Seq::new(species.len(), |s: int| species[s].organisms@[0]);
    assert forall|s: int| 0 <= s < species.len() implies orgs[#[trigger] reps[s] as int].species == Some(s as usize) && reps[s] < orgs.len() by {
        assert(species[s].members_valid(orgs.len() as int));
        assert(species[s].organisms@.len() > 0);
        assert(orgs[species[s].organisms@[0] as int].species == Some(s as usize));
    }
    assert(reps.no_duplicates()) by {
        assert forall|a: int, b: int| 0 <= a < reps.len() && 0 <= b < reps.len() && a != b implies reps[a] != reps[b] by {
            assert(orgs[reps[a] as int].species == Some(a as usize));
            assert(orgs[reps[b] as int].species == Some(b as usize));
        }
    }
    lemma_distinct_indices_bounded(reps, orgs.len() as int);
}

/// Pointwise `e * t <= f * k` over members carries over to their sums.
proof fn lemma_offspring_sum_scaled(members: Seq<usize>, orgs: Seq<Organism>, t: int, k: int)
    requires
        t >= 0,
        k >= 0,
        forall|q: int|
            0 <= q < members.len() ==> #[trigger] orgs[members[q] as int].expected_offspring * t <= orgs[members[q] as int].fitness * k,
    ensures
        offspring_sum(members, orgs) * t <= k * fitness_sum(members, orgs),
    decreases members.len(),
{
    if members.len() > 0 {
        assert forall|q: int| 0 <= q < members.drop_first().len() implies #[trigger] orgs[members.drop_first()[q] as int].expected_offspring
            * t <= orgs[members.drop_first()[q] as int].fitness * k by {
            assert(members.drop_first()[q] == members[q + 1]);
        }
        lemma_offspring_sum_scaled(members.drop_first(), orgs, t, k);
        let e0 = orgs[members[0] as int].expected_offspring as int;
        let f0 = orgs[members[0] as int].fitness as int;
        let re = offspring_sum(members.drop_first(), orgs);
        let rf = fitness_sum(members.drop_first(), orgs);
        assert(e0 * t <= f0 * k);
        assert((e0 + re) * t <= k * (f0 + rf)) by (nonlinear_arith)
            requires
                e0 * t <= f0 * k,
                re * t <= k * rf,
        ;
    }
}

/// Pointwise `e * t <= f * k` over all members carries over to the totals.
proof fn lemma_offspring_total_scaled(species: Seq<Species>, orgs: Seq<Organism>, t: int, k: int)
    requires
        t >= 0,
        k >= 0,
        forall|s: int, q: int|
            0 <= s < species.len() && 0 <= q < species[s].organisms@.len() ==> #[trigger] orgs[species[s].organisms@[q] as int].expected_offspring
                * t <= orgs[species[s].organisms@[q] as int].fitness * k,
    ensures
        members_offspring_total(species, orgs) * t <= k * members_fitness_total(species, orgs),
    decreases species.len(),
{
    if species.len() > 0 {
        let last = species.len() - 1;
        assert forall|q: int| 0 <= q < species.last().organisms@.len() implies #[trigger] orgs[species.last().organisms@[q] as int].expected_offspring
            * t <= orgs[species.last().organisms@[q] as int].fitness * k by {
            assert(orgs[species[last].organisms@[q] as int].expected_offspring * t <= orgs[species[last].organisms@[q] as int].fitness * k);
        }
        lemma_offspring_sum_scaled(species.last().organisms@, orgs, t, k);
        assert forall|s: int, q: int|
            0 <= s < species.drop_last().len() && 0 <= q < species.drop_last()[s].organisms@.len() implies #[trigger] orgs[species.drop_last()[s].organisms@[q] as int].expected_offspring
                * t <= orgs[species.drop_last()[s].organisms@[q] as int].fitness * k by {
            assert(species.drop_last()[s] == species[s]);
            assert(orgs[species[s].organisms@[q] as int].expected_offspring * t <= orgs[species[s].organisms@[q] as int].fitness * k);
        }
        lemma_offspring_total_scaled(species.drop_last(), orgs, t, k);
        let a = members_offspring_total(species.drop_last(), orgs);
        let b = offspring_sum(species.last().organisms@, orgs);
        let c = members_fitness_total(species.drop_last(), orgs);
        let d = fitness_sum(species.last().organisms@, orgs);
        assert((a + b) * t <= k * (c + d)) by (nonlinear_arith)
            requires
                a * t <= k * c,
                b * t <= k * d,
        ;
    }
}

} // verus!

verus! {

/// Every member of every species has expected offspring in `[0, bound]`.
pub open spec fn members_offspring_in(species: Seq<Species>, orgs: Seq<Organism>, bound: int) -> bool {
    forall|s: int, k: int|
        0 <= s < species.len() && 0 <= k < species[s].organisms@.len() ==> 0 <= #[trigger] orgs[species[s].organisms@[k] as int].expected_offspring
            <= bound
}

impl Population {
    /// Sums the fitness of all species' members and gives each member the expected
    /// offspring `fitness / (total / organism count)` (see `expected_share`). Returns
    /// the total. The shares of all members add up to at most the organism count.
    pub fn assign_expected_offspring(&mut self) -> (total: i128)
        requires
            old(self).wf(),
            old(self).organisms@.len() <= COUNT_LIMIT,
            members_fitness_adjusted(old(self).species@, old(self).organisms@),
        ensures
            final(self).wf(),
            total == members_fitness_total(old(self).species@, old(self).organisms@),
            final(self).species@ == old(self).species@,
            final(self).organisms@.len() == old(self).organisms@.len(),
            forall|i: int|
                0 <= i < old(self).organisms@.len() ==> #[trigger] final(self).organisms@[i] == (Organism {
                    expected_offspring: final(self).organisms@[i].expected_offspring,
                    ..old(self).organisms@[i]
                }),
            forall|i: int|
                0 <= i < old(self).organisms@.len() && (#[trigger] old(self).organisms@[i]).species.is_some()
                    ==> final(self).organisms@[i].expected_offspring == expected_share(
                    old(self).organisms@[i].fitness as int,
                    old(self).organisms@.len() as int,
                    total as int,
                ),
            members_offspring_in(final(self).species@, final(self).organisms@, old(self).organisms@.len() * SCALE),
            members_offspring_total(final(self).species@, final(self).organisms@) <= old(self).organisms@.len() * SCALE,
    {
        let ghost orgs0 = self.organisms@;
        let ghost sp = self.species@;
        let n = self.organisms.len();
        let ns = self.species.len();
        proof {
            lemma_counts_bounded(orgs0, sp);
        }
        let mut total: i128 = 0;
        let mut s: usize = 0;
        while s < ns
            invariant
                ns == sp.len() <= n,
                n == orgs0.len() <= COUNT_LIMIT,
                self.species@ == sp,
                self.organisms@ == orgs0,
                membership_wf(orgs0, sp),
                members_fitness_adjusted(sp, orgs0),
                forall|t: int| 0 <= t < sp.len() ==> #[trigger] sp[t].organisms@.len() <= n,
                s <= ns,
                total == members_fitness_total(sp.subrange(0, s as int), orgs0),
                0 <= total <= s * n * ADJUSTED_LIMIT,
            decreases ns - s,
        {
            let ghost members = sp[s as int].organisms@;
            let len = self.species[s].organisms.len();
            let mut partial: i128 = 0;
            let mut k: usize = 0;
            proof {
                assert(members.subrange(0, len as int) == members);
                assert(sp[s as int].members_valid(n as int));
            }
            while k < len
                invariant
                    len == members.len() <= n,
                    members == sp[s as int].organisms@,
                    s < ns == sp.len(),
                    n == orgs0.len() <= COUNT_LIMIT,
                    self.species@ == sp,
                    self.organisms@ == orgs0,
                    sp[s as int].members_valid(n as int),
                    members_fitness_adjusted(sp, orgs0),
                    k <= len,
                    0 <= partial <= k * ADJUSTED_LIMIT,
                    fitness_sum(members, orgs0) == partial + fitness_sum(members.subrange(k as int, len as int), orgs0),
                decreases len - k,
            {
                let ghost rest = members.subrange(k as int, len as int);
                proof {
                    assert(rest.drop_first() == members.subrange(k + 1, len as int));
                    assert(members[k as int] < n);
                    assert(0 <= orgs0[sp[s as int].organisms@[k as int] as int].fitness <= ADJUSTED_LIMIT);
                }
                let m = self.species[s].organisms[k];
                partial = partial + self.organisms[m].fitness as i128;
                k = k + 1;
            }
            proof {
                assert(members.subrange(len as int, len as int).len() == 0);
                assert(sp.subrange(0, s + 1).drop_last() == sp.subrange(0, s as int));
                assert(sp.subrange(0, s + 1).last() == sp[s as int]);
                assert(partial <= n * ADJUSTED_LIMIT) by (nonlinear_arith)
                    requires
                        partial <= len * ADJUSTED_LIMIT,
                        len <= n,
                ;
                assert((s + 1) * n * ADJUSTED_LIMIT == s * n * ADJUSTED_LIMIT + n * ADJUSTED_LIMIT) by (nonlinear_arith);
                assert(s * n * ADJUSTED_LIMIT <= COUNT_LIMIT * COUNT_LIMIT * ADJUSTED_LIMIT) by (nonlinear_arith)
                    requires
                        s <= COUNT_LIMIT,
                        n <= COUNT_LIMIT,
                ;
            }
            total = total + partial;
            s = s + 1;
        }
        proof {
            assert(sp.subrange(0, ns as int) == sp);
        }
        let scaled: i128 = (n as i128) * (SCALE as i128);
        let mut s: usize = 0;
        while s < ns
            invariant
                ns == sp.len() <= n,
                n == orgs0.len() <= COUNT_LIMIT,
                scaled == n * SCALE,
                self.species@ == sp,
                self.organisms@.len() == n,
                total == members_fitness_total(sp, orgs0),
                total >= 0,
                membership_wf(orgs0, sp),
                members_fitness_adjusted(sp, orgs0),
                s <= ns,
                forall|i: int|
                    0 <= i < n ==> #[trigger] self.organisms@[i] == (Organism {
                        expected_offspring: self.organisms@[i].expected_offspring,
                        ..orgs0[i]
                    }),
                forall|t: int, q: int|
                    0 <= t < s && 0 <= q < sp[t].organisms@.len() ==> #[trigger] self.organisms@[sp[t].organisms@[q] as int].expected_offspring
                        == expected_share(orgs0[sp[t].organisms@[q] as int].fitness as int, n as int, total as int),
            decreases ns - s,
        {
            let len = self.species[s].organisms.len();
            let mut k: usize = 0;
            proof {
                assert(sp[s as int].members_valid(n as int));
            }
            while k < len
                invariant
                    len == sp[s as int].organisms@.len(),
                    s < ns == sp.len(),
                    n == orgs0.len() <= COUNT_LIMIT,
                    scaled == n * SCALE,
                    self.species@ == sp,
                    self.organisms@.len() == n,
                    total == members_fitness_total(sp, orgs0),
                    total >= 0,
                    sp[s as int].members_valid(n as int),
                    membership_wf(orgs0, sp),
                    members_fitness_adjusted(sp, orgs0),
                    k <= len,
                    forall|i: int|
                        0 <= i < n ==> #[trigger] self.organisms@[i] == (Organism {
                            expected_offspring: self.organisms@[i].expected_offspring,
                            ..orgs0[i]
                        }),
                    forall|t: int, q: int|
                        (0 <= t < s && 0 <= q < sp[t].organisms@.len()) || (t == s && 0 <= q < k) ==> #[trigger] self.organisms@[sp[t].organisms@[q] as int].expected_offspring
                            == expected_share(orgs0[sp[t].organisms@[q] as int].fitness as int, n as int, total as int),
                decreases len - k,
            {
                let m = self.species[s].organisms[k];
                proof {
                    assert(m < n);
                    assert(self.organisms@[m as int].fitness == orgs0[m as int].fitness);
                    assert(0 <= orgs0[sp[s as int].organisms@[k as int] as int].fitness <= ADJUSTED_LIMIT);
                }
                let f = self.organisms[m].fitness;
                let e: i64 = if total > 0 {
                    proof {
                        lemma_species_le_total(sp, orgs0, s as int);
                        lemma_member_le_sum(sp[s as int].organisms@, orgs0, k as int);
                        assert(f * scaled <= ADJUSTED_LIMIT * (COUNT_LIMIT * SCALE)) by (nonlinear_arith)
                            requires
                                0 <= f <= ADJUSTED_LIMIT,
                                0 <= scaled <= COUNT_LIMIT * SCALE,
                        ;
                        assert(f * scaled / (total as int) <= scaled) by (nonlinear_arith)
                            requires
                                0 <= f <= total,
                                total > 0,
                                scaled >= 0,
                        ;
                        assert(f * scaled / (total as int) >= 0) by (nonlinear_arith)
                            requires
                                0 <= f,
                                total > 0,
                                scaled >= 0,
                        ;
                        assert(f * scaled == f * n * SCALE) by (nonlinear_arith)
                            requires
                                scaled == n * SCALE,
                        ;
                    }
                    ((f as i128) * scaled / total) as i64
                } else {
                    0
                };
                assert(e == expected_share(orgs0[m as int].fitness as int, n as int, total as int));
                let ghost before = self.organisms@;
                self.organisms[m].expected_offspring = e;
                proof {
                    assert forall|t: int, q: int|
                        (0 <= t < s && 0 <= q < sp[t].organisms@.len()) || (t == s && 0 <= q < k + 1) implies #[trigger] self.organisms@[sp[t].organisms@[q] as int].expected_offspring
                            == expected_share(orgs0[sp[t].organisms@[q] as int].fitness as int, n as int, total as int) by {
                        assert(sp[t].members_valid(n as int));
                        if sp[t].organisms@[q] != m {
                            assert(self.organisms@[sp[t].organisms@[q] as int] == before[sp[t].organisms@[q] as int]);
                        }
                    }
                }
                k = k + 1;
            }
            s = s + 1;
        }
        proof {
            let orgs2 = self.organisms@;
            assert forall|s2: int, q: int|
                0 <= s2 < sp.len() && 0 <= q < sp[s2].organisms@.len() implies #[trigger] orgs2[sp[s2].organisms@[q] as int].fitness
                    == orgs0[sp[s2].organisms@[q] as int].fitness by {
                assert(sp[s2].members_valid(n as int));
            }
            lemma_fitness_total_frame(sp, orgs2, orgs0);
            assert(membership_wf(orgs2, sp)) by {
                assert forall|t: int, q: int|
                    0 <= t < sp.len() && 0 <= q < sp[t].organisms@.len() implies orgs2[#[trigger] sp[t].organisms@[q] as int].species
                        == Some(t as usize) by {
                    assert(sp[t].members_valid(n as int));
                    assert(orgs0[sp[t].organisms@[q] as int].species == Some(t as usize));
                }
                assert forall|i: int| 0 <= i < orgs2.len() && (#[trigger] orgs2[i].species).is_some() implies {
                    let t = orgs2[i].species.unwrap() as int;
                    &&& 0 <= t < sp.len()
                    &&& sp[t].organisms@.contains(i as usize)
                } by {
                    assert(orgs2[i].species == orgs0[i].species);
                }
            }
            assert forall|i: int| 0 <= i < n && (#[trigger] orgs0[i]).species.is_some() implies orgs2[i].expected_offspring
                == expected_share(orgs0[i].fitness as int, n as int, total as int) by {
                let t = orgs0[i].species.unwrap() as int;
                assert(sp[t].organisms@.contains(i as usize));
                let q = choose|q: int| 0 <= q < sp[t].organisms@.len() && sp[t].organisms@[q] == i as usize;
                assert(orgs2[sp[t].organisms@[q] as int].expected_offspring == expected_share(
                    orgs0[sp[t].organisms@[q] as int].fitness as int,
                    n as int,
                    total as int,
                ));
            }
            let tt = if total > 0 { total as int } else { 1int };
            assert forall|t: int, q: int|
                0 <= t < sp.len() && 0 <= q < sp[t].organisms@.len() implies #[trigger] orgs2[sp[t].organisms@[q] as int].expected_offspring
                    * tt <= orgs2[sp[t].organisms@[q] as int].fitness * (n * SCALE) && 0 <= orgs2[sp[t].organisms@[q] as int].expected_offspring
                    <= n * SCALE by {
                let m = sp[t].organisms@[q] as int;
                assert(sp[t].members_valid(n as int));
                let f = orgs0[m].fitness as int;
                assert(0 <= f <= ADJUSTED_LIMIT);
                let e = orgs2[m].expected_offspring as int;
                assert(e == expected_share(f, n as int, total as int));
                if total > 0 {
                    lemma_species_le_total(sp, orgs0, t);
                    lemma_member_le_sum(sp[t].organisms@, orgs0, q);
                    assert(e * tt <= f * (n * SCALE)) by (nonlinear_arith)
                        requires
                            e == f * n * SCALE / tt,
                            tt > 0,
                    ;
                    assert(0 <= e <= n * SCALE) by (nonlinear_arith)
                        requires
                            e == f * n * SCALE / tt,
                            tt > 0,
                            0 <= f <= tt,
                            n >= 0,
                    ;
                } else {
                    assert(e == 0);
                    assert(0 <= f * (n * SCALE)) by (nonlinear_arith)
                        requires
                            0 <= f,
                            n >= 0,
                    ;
                }
            }
            lemma_offspring_total_scaled(sp, orgs2, tt, n * SCALE);
            if total > 0 {
                assert(members_offspring_total(sp, orgs2) <= n * SCALE) by (nonlinear_arith)
                    requires
                        members_offspring_total(sp, orgs2) * tt <= (n * SCALE) * tt,
                        tt > 0,
                ;
            } else {
                assert(members_offspring_total(sp, orgs2) * 1 <= (n * SCALE) * 0);
            }
        }
        total
    }
}

} // verus!

verus! {

/// The skim carried into species `s` when offspring are counted species by species
/// in list order, starting from zero.
pub open spec fn skim_before(species: Seq<Species>, orgs: Seq<Organism>, s: int) -> int
    decreases s,
{
    if s <= 0 {
        0
    } else {
        crate::species::offspring_fold(species[s - 1].organisms@, orgs, 0, skim_before(species, orgs, s - 1)).1
    }
}

/// Summed offspring counts of all species.
pub open spec fn offspring_count_total(species: Seq<Species>) -> int
    decreases species.len(),
{
    if species.len() == 0 {
        0
    } else {
        offspring_count_total(species.drop_last()) + species.last().expected_offspring
    }
}

/// With no negative expected offspring, a prefix of the species has no larger total,
/// and each species' sum is at most the total.
proof fn lemma_offspring_prefix(species: Seq<Species>, orgs: Seq<Organism>, s: int)
    requires
        0 <= s <= species.len(),
        members_offspring_in(species, orgs, i64::MAX as int),
    ensures
        0 <= members_offspring_total(species.subrange(0, s), orgs) <= members_offspring_total(species, orgs),
        s < species.len() ==> 0 <= offspring_sum(species[s].organisms@, orgs) <= members_offspring_total(species, orgs),
    decreases species.len(),
{
    if species.len() == 0 {
        assert(species.subrange(0, s).len() == 0);
    } else {
        let last = species.len() - 1;
        assert(members_offspring_in(species.drop_last(), orgs, i64::MAX as int)) by {
            assert forall|t: int, k: int|
                0 <= t < species.drop_last().len() && 0 <= k < species.drop_last()[t].organisms@.len() implies 0
                    <= #[trigger] orgs[species.drop_last()[t].organisms@[k] as int].expected_offspring <= i64::MAX by {
                assert(species.drop_last()[t] == species[t]);
                assert(0 <= orgs[species[t].organisms@[k] as int].expected_offspring <= i64::MAX);
            }
        }
        assert forall|q: int| 0 <= q < species[last].organisms@.len() implies orgs[#[trigger] species[last].organisms@[q] as int].expected_offspring
            >= 0 by {
            assert(0 <= orgs[species[last].organisms@[q] as int].expected_offspring);
        }
        crate::species::lemma_offspring_sum_nonneg(species[last].organisms@, orgs);
        if s == species.len() {
            assert(species.subrange(0, s) == species);
            lemma_offspring_prefix(species.drop_last(), orgs, 0);
        } else {
            lemma_offspring_prefix(species.drop_last(), orgs, s);
            assert(species.drop_last().subrange(0, s) == species.subrange(0, s));
            if s < last {
                assert(species.drop_last()[s] == species[s]);
            }
        }
    }
}

impl Population {
    /// Counts each species' offspring in list order (see `Species::count_offspring`),
    /// threading the skim from one species to the next, starting from zero. Returns
    /// the summed counts, which never exceed the summed expected offspring.
    pub fn count_all_offspring(&mut self) -> (total: u64)
        requires
            old(self).wf(),
            old(self).organisms@.len() <= COUNT_LIMIT,
            members_offspring_in(old(self).species@, old(self).organisms@, old(self).organisms@.len() * SCALE),
            members_offspring_total(old(self).species@, old(self).organisms@) <= old(self).organisms@.len() * SCALE,
        ensures
            final(self).wf(),
            final(self).organisms@ == old(self).organisms@,
            final(self).species@.len() == old(self).species@.len(),
            forall|s: int|
                0 <= s < old(self).species@.len() ==> #[trigger] final(self).species@[s] == (Species {
                    expected_offspring: crate::species::offspring_fold(
                        old(self).species@[s].organisms@,
                        old(self).organisms@,
                        0,
                        skim_before(old(self).species@, old(self).organisms@, s),
                    ).0 as u64,
                    ..old(self).species@[s]
                }),
            total == offspring_count_total(final(self).species@),
            total * SCALE <= members_offspring_total(old(self).species@, old(self).organisms@),
            total <= old(self).organisms@.len(),
    {
        let ghost sp = self.species@;
        let ghost orgs = self.organisms@;
        let n = self.organisms.len();
        let ns = self.species.len();
        proof {
            lemma_counts_bounded(orgs, sp);
            assert(members_offspring_in(sp, orgs, i64::MAX as int)) by {
                assert forall|t: int, k: int|
                    0 <= t < sp.len() && 0 <= k < sp[t].organisms@.len() implies 0 <= #[trigger] orgs[sp[t].organisms@[k] as int].expected_offspring
                        <= i64::MAX by {
                    assert(0 <= orgs[sp[t].organisms@[k] as int].expected_offspring <= n * SCALE);
                }
            }
            assert(sp.subrange(0, 0).len() == 0);
            assert(self.species@.subrange(0, 0).len() == 0);
        }
        let mut skim: i64 = 0;
        let mut total: u64 = 0;
        let mut s: usize = 0;
        while s < ns
            invariant
                ns == sp.len() == self.species@.len(),
                n == orgs.len() <= COUNT_LIMIT,
                self.organisms@ == orgs,
                membership_wf(orgs, sp),
                members_offspring_in(sp, orgs, i64::MAX as int),
                members_offspring_total(sp, orgs) <= n * SCALE,
                forall|t: int| 0 <= t < sp.len() ==> #[trigger] sp[t].organisms@.len() <= n,
                s <= ns,
                0 <= skim <= SCALE,
                skim == skim_before(sp, orgs, s as int),
                total == offspring_count_total(self.species@.subrange(0, s as int)),
                total * SCALE + skim == members_offspring_total(sp.subrange(0, s as int), orgs),
                forall|t: int| s <= t < ns ==> #[trigger] self.species@[t] == sp[t],
                forall|t: int|
                    0 <= t < s ==> #[trigger] self.species@[t] == (Species {
                        expected_offspring: crate::species::offspring_fold(
                            sp[t].organisms@,
                            orgs,
                            0,
                            skim_before(sp, orgs, t),
                        ).0 as u64,
                        ..sp[t]
                    }),
            decreases ns - s,
        {
            proof {
                assert(sp[s as int].members_valid(n as int));
                lemma_offspring_prefix(sp, orgs, s as int);
                assert forall|k: int| 0 <= k < sp[s as int].organisms@.len() implies orgs[#[trigger] sp[s as int].organisms@[k] as int].expected_offspring
                    >= 0 by {
                    assert(0 <= orgs[sp[s as int].organisms@[k] as int].expected_offspring);
                }
                crate::species::lemma_offspring_fold_conserves(sp[s as int].organisms@, orgs, 0, skim as int);
            }
            let ghost species1 = self.species@;
            let next = self.species[s].count_offspring(&self.organisms, skim);
            proof {
                let fin = crate::species::offspring_fold(sp[s as int].organisms@, orgs, 0, skim as int);
                assert(self.species@[s as int].expected_offspring == fin.0);
                assert(sp.subrange(0, s + 1).drop_last() == sp.subrange(0, s as int));
                assert(sp.subrange(0, s + 1).last() == sp[s as int]);
                assert(self.species@.subrange(0, s + 1).drop_last() == species1.subrange(0, s as int));
                assert(self.species@.subrange(0, s + 1).last() == self.species@[s as int]);
                lemma_offspring_prefix(sp, orgs, s + 1);
                assert(fin.0 * SCALE <= n * SCALE);
                assert(fin.0 <= n);
                assert(total + fin.0 <= n) by {
                    assert((total + fin.0) * SCALE <= members_offspring_total(sp.subrange(0, s + 1), orgs));
                }
            }
            total = total + self.species[s].expected_offspring;
            skim = next;
            s = s + 1;
        }
        proof {
            assert(sp.subrange(0, ns as int) == sp);
            assert(self.species@.subrange(0, ns as int) == self.species@);
            lemma_offspring_prefix(sp, orgs, ns as int);
            assert(membership_wf(orgs, self.species@)) by {
                assert forall|t: int| 0 <= t < ns implies #[trigger] self.species@[t].organisms == sp[t].organisms by {}
                assert forall|t: int| 0 <= t < ns implies {
                    &&& #[trigger] self.species@[t].members_valid(n as int)
                    &&& self.species@[t].organisms@.len() > 0
                } by {
                    assert(sp[t].members_valid(n as int));
                }
                assert forall|t: int, k: int|
                    0 <= t < ns && 0 <= k < self.species@[t].organisms@.len() implies orgs[#[trigger] self.species@[t].organisms@[k] as int].species
                        == Some(t as usize) by {
                    assert(orgs[sp[t].organisms@[k] as int].species == Some(t as usize));
                }
            }
        }
        total
    }
}

} // verus!

verus! {

/// Species `k` expects the most offspring, and is the last of those tied with it.
pub open spec fn last_max(species: Seq<Species>, k: int) -> bool {
    &&& 0 <= k < species.len()
    &&& forall|j: int| 0 <= j < species.len() ==> #[trigger] species[j].expected_offspring <= species[k].expected_offspring
    &&& forall|j: int| k < j < species.len() ==> #[trigger] species[j].expected_offspring < species[k].expected_offspring
}

/// Changing one species' count changes the summed counts by the difference.
proof fn lemma_count_total_update(species: Seq<Species>, k: int, v: Species)
    requires
        0 <= k < species.len(),
    ensures
        offspring_count_total(species.update(k, v)) == offspring_count_total(species) - species[k].expected_offspring
            + v.expected_offspring,
    decreases species.len(),
{
    let u = species.update(k, v);
    if k == species.len() - 1 {
        assert(u.drop_last() == species.drop_last());
    } else {
        assert(u.drop_last() == species.drop_last().update(k, v));
        lemma_count_total_update(species.drop_last(), k, v);
    }
}

/// Counts that are all zero but one sum to that one.
proof fn lemma_count_total_single(species: Seq<Species>, k: int)
    requires
        0 <= k < species.len(),
        forall|j: int| 0 <= j < species.len() && j != k ==> #[trigger] species[j].expected_offspring == 0,
    ensures
        offspring_count_total(species) == species[k].expected_offspring,
    decreases species.len(),
{
    if k == species.len() - 1 {
        lemma_count_total_zero(species.drop_last());
    } else {
        lemma_count_total_single(species.drop_last(), k);
    }
}

/// Counts that are all zero sum to zero.
proof fn lemma_count_total_zero(species: Seq<Species>)
    requires
        forall|j: int| 0 <= j < species.len() ==> #[trigger] species[j].expected_offspring == 0,
    ensures
        offspring_count_total(species) == 0,
    decreases species.len(),
{
    if species.len() > 0 {
        lemma_count_total_zero(species.drop_last());
    }
}

/// `after` is `before` with offspring lost to rounding made up for a population of
/// `n`: when the counts fall short of `n`, the species expecting the most (the last of
/// those tied, see `last_max`) gets one more; if that is still short, every species
/// is set to zero and that species gets all `n`. Otherwise nothing changes.
pub open spec fn corrected(after: Seq<Species>, before: Seq<Species>, n: int) -> bool {
    let total = offspring_count_total(before);
    &&& after.len() == before.len()
    &&& total >= n ==> after == before
    &&& total < n ==> exists|k: int|
        #[trigger] last_max(before, k) && if total + 1 >= n {
            after == before.update(k, Species { expected_offspring: (before[k].expected_offspring + 1) as u64, ..before[k] })
        } else {
            forall|j: int|
                0 <= j < before.len() ==> #[trigger] after[j] == (Species {
                    expected_offspring: if j == k {
                        n as u64
                    } else {
                        0
                    },
                    ..before[j]
                })
        }
}

impl Population {
    /// Makes up offspring lost to rounding. When the counts (summing to `total`)
    /// fall short of the organism count, the species expecting the most (the last of
    /// those tied, see `last_max`) gets one more; if that is still short, every
    /// species is set to zero and that species gets the whole population.
    pub fn correct_offspring(&mut self, total: u64)
        requires
            total == offspring_count_total(old(self).species@),
            old(self).species@.len() > 0 || old(self).organisms@.len() == 0,
        ensures
            final(self).organisms@ == old(self).organisms@,
            final(self).species@.len() == old(self).species@.len(),
            corrected(final(self).species@, old(self).species@, old(self).organisms@.len() as int),
            forall|j: int|
                0 <= j < old(self).species@.len() ==> #[trigger] final(self).species@[j] == (Species {
                    expected_offspring: final(self).species@[j].expected_offspring,
                    ..old(self).species@[j]
                }),
            total <= old(self).organisms@.len() ==> offspring_count_total(final(self).species@) == old(self).organisms@.len(),
    {
        let n = self.organisms.len();
        if total as u128 >= n as u128 {
            return;
        }
        let ghost sp = self.species@;
        let mut best: usize = 0;
        let mut max_expected: u64 = 0;
        let mut s: usize = 0;
        while s < self.species.len()
            invariant
                self.species@ == sp,
                self.organisms@ == old(self).organisms@,
                sp.len() > 0,
                s <= sp.len(),
                best < sp.len(),
                s > 0 ==> best < s && max_expected == sp[best as int].expected_offspring,
                s == 0 ==> best == 0 && max_expected == 0,
                forall|j: int| 0 <= j < s ==> #[trigger] sp[j].expected_offspring <= max_expected,
                forall|j: int| best < j < s ==> #[trigger] sp[j].expected_offspring < max_expected,
            decreases sp.len() - s,
        {
            if self.species[s].expected_offspring >= max_expected {
                max_expected = self.species[s].expected_offspring;
                best = s;
            }
            s = s + 1;
        }
        proof {
            assert(last_max(sp, best as int));
            assert(sp[best as int].expected_offspring <= total) by {
                lemma_count_total_update(sp, best as int, Species { expected_offspring: 0, ..sp[best as int] });
                assert(offspring_count_total(sp.update(best as int, Species { expected_offspring: 0, ..sp[best as int] })) >= 0) by {
                    lemma_count_total_nonneg(sp.update(best as int, Species { expected_offspring: 0, ..sp[best as int] }));
                }
            }
            lemma_count_total_update(sp, best as int, Species { expected_offspring: (sp[best as int].expected_offspring + 1) as u64, ..sp[best as int] });
        }
        let bumped = self.species[best].expected_offspring + 1;
        self.species[best].expected_offspring = bumped;
        if (total as u128) + 1 < n as u128 {
            let mut s: usize = 0;
            while s < self.species.len()
                invariant
                    self.species@.len() == sp.len(),
                    self.organisms@ == old(self).organisms@,
                    s <= sp.len(),
                    best < sp.len(),
                    forall|j: int| 0 <= j < s ==> #[trigger] self.species@[j] == (Species { expected_offspring: 0, ..sp[j] }),
                    forall|j: int| s <= j < sp.len() && j != best ==> #[trigger] self.species@[j] == sp[j],
                    s <= best ==> self.species@[best as int] == (Species { expected_offspring: bumped, ..sp[best as int] }),
                decreases sp.len() - s,
            {
                self.species[s].expected_offspring = 0;
                s = s + 1;
            }
            self.species[best].expected_offspring = n as u64;
            proof {
                lemma_count_total_single(self.species@, best as int);
            }
        }
    }
}

/// Counts sum to a non-negative total.
proof fn lemma_count_total_nonneg(species: Seq<Species>)
    ensures
        offspring_count_total(species) >= 0,
    decreases species.len(),
{
    if species.len() > 0 {
        lemma_count_total_nonneg(species.drop_last());
    }
}

} // verus!

verus! {

/// Membership depends on the species' member lists alone.
proof fn lemma_membership_same_lists(orgs: Seq<Organism>, sp1: Seq<Species>, sp2: Seq<Species>)
    requires
        membership_wf(orgs, sp1),
        sp1.len() == sp2.len(),
        forall|t: int| 0 <= t < sp1.len() ==> #[trigger] sp2[t].organisms == sp1[t].organisms,
    ensures
        membership_wf(orgs, sp2),
{
    assert forall|t: int| 0 <= t < sp2.len() implies {
        &&& #[trigger] sp2[t].members_valid(orgs.len() as int)
        &&& sp2[t].organisms@.len() > 0
    } by {
        assert(sp1[t].members_valid(orgs.len() as int));
    }
    assert forall|t: int, k: int|
        0 <= t < sp2.len() && 0 <= k < sp2[t].organisms@.len() implies orgs[#[trigger] sp2[t].organisms@[k] as int].species
            == Some(t as usize) by {
        assert(sp2[t].organisms == sp1[t].organisms);
        assert(orgs[sp1[t].organisms@[k] as int].species == Some(t as usize));
    }
    assert forall|i: int| 0 <= i < orgs.len() && (#[trigger] orgs[i].species).is_some() implies {
        let t = orgs[i].species.unwrap() as int;
        &&& 0 <= t < sp2.len()
        &&& sp2[t].organisms@.contains(i as usize)
    } by {
        let t = orgs[i].species.unwrap() as int;
        assert(sp2[t].organisms == sp1[t].organisms);
    }
}

/// The fitness total depends on the species' member lists alone.
proof fn lemma_fitness_total_lists(sp1: Seq<Species>, sp2: Seq<Species>, orgs: Seq<Organism>)
    requires
        sp1.len() == sp2.len(),
        forall|t: int| 0 <= t < sp1.len() ==> #[trigger] sp2[t].organisms == sp1[t].organisms,
    ensures
        members_fitness_total(sp1, orgs) == members_fitness_total(sp2, orgs),
    decreases sp1.len(),
{
    if sp1.len() > 0 {
        let last = sp1.len() - 1;
        assert(sp2[last].organisms == sp1[last].organisms);
        assert forall|t: int| 0 <= t < sp1.drop_last().len() implies #[trigger] sp2.drop_last()[t].organisms
            == sp1.drop_last()[t].organisms by {
            assert(sp2[t].organisms == sp1[t].organisms);
        }
        lemma_fitness_total_lists(sp1.drop_last(), sp2.drop_last(), orgs);
    }
}

/// `species` with each species' offspring count replaced by the count that counting
/// species by species in list order gives it (see `count_all_offspring`).
pub open spec fn counted_species(species: Seq<Species>, orgs: Seq<Organism>) -> Seq<Species> {
    Seq::new(
        species.len(),
        |s: int|
            Species {
                expected_offspring: crate::species::offspring_fold(
                    species[s].organisms@,
                    orgs,
                    0,
                    skim_before(species, orgs, s),
                ).0 as u64,
                ..species[s]
            },
    )
}

/// The carried skim depends on the species' member lists alone.
proof fn lemma_skim_before_lists(sp1: Seq<Species>, sp2: Seq<Species>, orgs: Seq<Organism>, s: int)
    requires
        0 <= s <= sp1.len() == sp2.len(),
        forall|t: int| 0 <= t < sp1.len() ==> #[trigger] sp2[t].organisms == sp1[t].organisms,
    ensures
        skim_before(sp1, orgs, s) == skim_before(sp2, orgs, s),
    decreases s,
{
    if s > 0 {
        lemma_skim_before_lists(sp1, sp2, orgs, s - 1);
        assert(sp2[s - 1].organisms == sp1[s - 1].organisms);
    }
}

/// Every organism has been placed in a species.
pub open spec fn all_placed(orgs: Seq<Organism>) -> bool {
    forall|i: int| 0 <= i < orgs.len() ==> (#[trigger] orgs[i]).species.is_some()
}

impl Population {
    /// One generational step: marks the weakest old species for obliteration every
    /// thirtieth generation (`mark_stagnant_species`), adjusts and shares fitness in
    /// every species (`adjust_all_fitness`), gives each organism its share of the
    /// population's offspring (`assign_expected_offspring`), counts each species'
    /// offspring with the skim carried across species (`count_all_offspring`), and
    /// makes up any shortfall (`correct_offspring`). Afterwards the species' offspring
    /// counts add up to exactly the number of organisms.
    pub fn epoch(&mut self, generation: usize, env: &Env)
        requires
            old(self).wf(),
            all_placed(old(self).organisms@),
            old(self).organisms@.len() <= COUNT_LIMIT,
            env.fitness_coeffs_valid(),
            fitness_in_range(old(self).organisms@),
        ensures
            final(self).wf(),
            all_placed(final(self).organisms@),
            final(self).organisms@.len() == old(self).organisms@.len(),
            final(self).species@.len() == old(self).species@.len(),
            offspring_count_total(final(self).species@) == old(self).organisms@.len(),
            forall|i: int|
                0 <= i < old(self).organisms@.len() ==> {
                    &&& (#[trigger] final(self).organisms@[i]).species == old(self).organisms@[i].species
                    &&& final(self).organisms@[i].genome == old(self).organisms@[i].genome
                    &&& final(self).organisms@[i].expected_offspring == expected_share(
                        final(self).organisms@[i].fitness as int,
                        old(self).organisms@.len() as int,
                        members_fitness_total(final(self).species@, final(self).organisms@),
                    )
                },
            forall|s: int|
                0 <= s < old(self).species@.len() ==> {
                    let before = marked_species(old(self).species@, generation as int)[s];
                    let after = #[trigger] final(self).species@[s];
                    &&& after.organisms@.to_multiset() == before.organisms@.to_multiset()
                    &&& crate::species::sorted_by_fitness(after.organisms@, final(self).organisms@)
                    &&& crate::species::record_updated(
                        Species { expected_offspring: before.expected_offspring, ..after },
                        before,
                        old(self).organisms@,
                    )
                    &&& forall|p: int|
                        0 <= p < after.organisms@.len() ==> final(self).organisms@[#[trigger] after.organisms@[p] as int]
                            == (Organism {
                            expected_offspring: final(self).organisms@[after.organisms@[p] as int].expected_offspring,
                            ..before.ranked(old(self).organisms@[after.organisms@[p] as int], *env, p)
                        })
                },
            corrected(
                final(self).species@,
                counted_species(final(self).species@, final(self).organisms@),
                old(self).organisms@.len() as int,
            ),
    {
        let ghost sp0 = self.species@;
        self.mark_stagnant_species(generation);
        proof {
            if self.species@ != sp0 {
                let k = choose|k: int|
                    weakest_old(sp0, k) && self.species@ == sp0.update(k, Species { obliterate: true, ..sp0[k] });
                assert forall|t: int| 0 <= t < sp0.len() implies #[trigger] self.species@[t].organisms == sp0[t].organisms by {}
            }
            lemma_membership_same_lists(self.organisms@, sp0, self.species@);
        }
        let ghost orgs1 = self.organisms@;
        let ghost sp1 = self.species@;
        self.adjust_all_fitness(env);
        proof {
            let orgs2 = self.organisms@;
            let sp2 = self.species@;
            assert forall|s: int, k: int|
                0 <= s < sp2.len() && 0 <= k < sp2[s].organisms@.len() implies 0 <= #[trigger] orgs2[sp2[s].organisms@[k] as int].fitness
                    <= ADJUSTED_LIMIT by {
                assert(species_adjusted(sp2[s], sp1[s], orgs2, orgs1, *env));
                let m = sp2[s].organisms@[k] as int;
                assert(sp2[s].members_valid(orgs2.len() as int));
                assert(orgs2[m] == sp1[s].ranked(orgs1[m], *env, k));
                assert(sp1[s].members_valid(orgs1.len() as int));
                assert(sp1[s].organisms@.len() > 0);
                crate::species::lemma_shared_fitness_floor(sp1[s], orgs1[m], *env);
                assert((MIN_FITNESS as int) / (sp1[s].organisms@.len() as int) >= 0);
            }
            assert forall|i: int| 0 <= i < orgs2.len() implies (#[trigger] orgs2[i]).species.is_some() by {
                assert(orgs1[i].species.is_some());
            }
        }
        let ghost orgs2 = self.organisms@;
        let ghost sp2 = self.species@;
        let _total_fitness = self.assign_expected_offspring();
        let ghost orgs_assigned = self.organisms@;
        proof {
            assert forall|i: int| 0 <= i < self.organisms@.len() implies (#[trigger] self.organisms@[i]).species.is_some() by {
                assert(orgs2[i].species.is_some());
            }
            assert forall|s: int, k: int|
                0 <= s < sp2.len() && 0 <= k < sp2[s].organisms@.len() implies #[trigger] orgs_assigned[sp2[s].organisms@[k] as int].fitness
                    == orgs2[sp2[s].organisms@[k] as int].fitness by {
                assert(sp2[s].members_valid(orgs2.len() as int));
            }
            lemma_fitness_total_frame(sp2, orgs_assigned, orgs2);
        }
        let total = self.count_all_offspring();
        proof {
            if self.organisms@.len() > 0 {
                assert(self.organisms@[0].species.is_some());
            }
        }
        let ghost orgs3 = self.organisms@;
        let ghost sp3 = self.species@;
        self.correct_offspring(total);
        proof {
            assert forall|t: int| 0 <= t < sp3.len() implies #[trigger] self.species@[t].organisms == sp3[t].organisms by {
                if total < orgs3.len() {
                    let k = choose|k: int| #[trigger] last_max(sp3, k) && if total + 1 >= orgs3.len() {
                        self.species@ == sp3.update(
                            k,
                            Species { expected_offspring: (sp3[k].expected_offspring + 1) as u64, ..sp3[k] },
                        )
                    } else {
                        forall|j: int|
                            0 <= j < sp3.len() ==> #[trigger] self.species@[j] == (Species {
                                expected_offspring: if j == k {
                                    orgs3.len() as u64
                                } else {
                                    0
                                },
                                ..sp3[j]
                            })
                    };
                    if total + 1 >= orgs3.len() {
                        assert(self.species@[t] == sp3.update(k, Species { expected_offspring: (sp3[k].expected_offspring + 1) as u64, ..sp3[k] })[t]);
                    }
                }
            }
            lemma_membership_same_lists(self.organisms@, sp3, self.species@);
            assert forall|t: int| 0 <= t < sp2.len() implies #[trigger] self.species@[t].organisms == sp2[t].organisms by {
                assert(sp3[t].organisms == sp2[t].organisms);
            }
            lemma_fitness_total_lists(sp2, self.species@, orgs_assigned);
            assert(self.organisms@ == orgs_assigned);
            assert forall|i: int| 0 <= i < orgs2.len() implies #[trigger] self.organisms@[i].expected_offspring == expected_share(
                self.organisms@[i].fitness as int,
                orgs2.len() as int,
                members_fitness_total(self.species@, self.organisms@),
            ) by {
                assert(orgs2[i].species.is_some());
                assert(orgs_assigned[i] == (Organism { expected_offspring: orgs_assigned[i].expected_offspring, ..orgs2[i] }));
            }
            let fin = self.species@;
            assert forall|t: int| 0 <= t < sp2.len() implies #[trigger] fin[t].organisms == sp2[t].organisms by {
                assert(sp3[t].organisms == sp2[t].organisms);
            }
            assert(counted_species(fin, orgs_assigned) =~= sp3) by {
                assert forall|t: int| 0 <= t < sp3.len() implies #[trigger] counted_species(fin, orgs_assigned)[t] == sp3[t] by {
                    lemma_skim_before_lists(sp2, fin, orgs_assigned, t);
                    assert(fin[t] == (Species { expected_offspring: fin[t].expected_offspring, ..sp3[t] }));
                }
            }
            assert(sp1 == marked_species(sp0, generation as int));
            assert forall|s: int| 0 <= s < sp0.len() implies {
                let before = sp1[s];
                let after = #[trigger] fin[s];
                &&& after.organisms@.to_multiset() == before.organisms@.to_multiset()
                &&& crate::species::sorted_by_fitness(after.organisms@, self.organisms@)
                &&& crate::species::record_updated(
                    Species { expected_offspring: before.expected_offspring, ..after },
                    before,
                    orgs1,
                )
                &&& forall|p: int|
                    0 <= p < after.organisms@.len() ==> self.organisms@[#[trigger] after.organisms@[p] as int]
                        == (Organism {
                        expected_offspring: self.organisms@[after.organisms@[p] as int].expected_offspring,
                        ..before.ranked(orgs1[after.organisms@[p] as int], *env, p)
                    })
            } by {
                assert(species_adjusted(sp2[s], sp1[s], orgs2, orgs1, *env));
                assert(fin[s] == (Species { expected_offspring: fin[s].expected_offspring, ..sp2[s] }));
                assert(sp2[s].members_valid(orgs2.len() as int));
                assert forall|p: int| 0 <= p < fin[s].organisms@.len() implies self.organisms@[#[trigger] fin[s].organisms@[p] as int]
                    == (Organism {
                    expected_offspring: self.organisms@[fin[s].organisms@[p] as int].expected_offspring,
                    ..sp1[s].ranked(orgs1[fin[s].organisms@[p] as int], *env, p)
                }) by {
                    let m = fin[s].organisms@[p] as int;
                    assert(orgs2[m] == sp1[s].ranked(orgs1[m], *env, p));
                    assert(orgs_assigned[m] == (Organism { expected_offspring: orgs_assigned[m].expected_offspring, ..orgs2[m] }));
                }
                assert forall|p: int, q: int| 0 <= p < q < fin[s].organisms@.len() implies self.organisms@[fin[s].organisms@[p] as int].fitness
                    >= self.organisms@[fin[s].organisms@[q] as int].fitness by {
                    let a = fin[s].organisms@[p] as int;
                    let b = fin[s].organisms@[q] as int;
                    assert(orgs2[a].fitness >= orgs2[b].fitness);
                    assert(orgs_assigned[a] == (Organism { expected_offspring: orgs_assigned[a].expected_offspring, ..orgs2[a] }));
                    assert(orgs_assigned[b] == (Organism { expected_offspring: orgs_assigned[b].expected_offspring, ..orgs2[b] }));
                }
            }
        }
    }
}

} // verus!

verus! {

/// Summed counts of the first `s` species when offspring are counted species by
/// species in list order, starting from a skim of zero.
pub open spec fn counted_total(species: Seq<Species>, orgs: Seq<Organism>, s: int) -> int
    decreases s,
{
    if s <= 0 {
        0
    } else {
        counted_total(species, orgs, s - 1) + crate::species::offspring_fold(
            species[s - 1].organisms@,
            orgs,
            0,
            skim_before(species, orgs, s - 1),
        ).0
    }
}

/// Counting offspring species by species, with the skim carried from each species to
/// the next and starting from zero, conserves offspring: after the first `s` species,
/// the summed counts (in whole offspring) plus the carried skim equal the members'
/// summed expected offspring, and the skim stays within `[0, 1]`.
pub proof fn lemma_offspring_counting_conserves(species: Seq<Species>, orgs: Seq<Organism>, s: int)
    requires
        0 <= s <= species.len(),
        members_offspring_in(species, orgs, i64::MAX as int),
    ensures
        counted_total(species, orgs, s) * SCALE + skim_before(species, orgs, s) == members_offspring_total(
            species.subrange(0, s),
            orgs,
        ),
        0 <= skim_before(species, orgs, s) <= SCALE,
    decreases s,
{
    if s == 0 {
        assert(species.subrange(0, 0).len() == 0);
    } else {
        lemma_offspring_counting_conserves(species, orgs, s - 1);
        assert forall|q: int| 0 <= q < species[s - 1].organisms@.len() implies orgs[#[trigger] species[s - 1].organisms@[q] as int].expected_offspring
            >= 0 by {
            assert(0 <= orgs[species[s - 1].organisms@[q] as int].expected_offspring);
        }
        crate::species::lemma_offspring_fold_conserves(species[s - 1].organisms@, orgs, 0, skim_before(species, orgs, s - 1));
        assert(species.subrange(0, s).drop_last() == species.subrange(0, s - 1));
        assert(species.subrange(0, s).last() == species[s - 1]);
    }
}

} // verus!
