//! The configuration consumed by every algorithm of the core.
use crate::fixed::COEFF_LIMIT;
use crate::text::{count_spec, fixed_spec, parse_count, parse_fixed};
use vstd::prelude::*;
use vstd::string::StringSliceAdditionalSpecFns;

verus! {

/// Named numeric parameters. Probabilities and coefficients are held in millionths.
pub struct Env {
    pub trait_param_mut_prob: i64,
    /// Power of mutation on a single trait param.
    pub trait_mutation_power: i64,
    /// Amount that mutation_num changes for a trait change inside a link.
    pub linktrait_mut_sig: i64,
    /// Amount a mutation_num changes on a link connecting a node that changed its trait.
    pub nodetrait_mut_sig: i64,
    /// The power of a link weight mutation.
    pub weight_mut_power: i64,
    /// Probability that a link mutation which doesn't have to be recurrent is made recurrent.
    pub recur_prob: i64,
    /// Weight of disjoint genes in the compatibility distance.
    pub disjoint_coeff: i64,
    /// Weight of excess genes in the compatibility distance.
    pub excess_coeff: i64,
    /// Weight of the mean mutation difference of matching genes.
    pub mutdiff_coeff: i64,
    /// Compatibility under which two genomes belong to one species.
    pub compat_threshold: i64,
    /// Fitness factor for species of age 10 or less.
    pub age_significance: i64,
    /// Share of a species that survives to reproduce.
    pub survival_thresh: i64,
    pub mutate_only_prob: i64,
    pub mutate_random_trait_prob: i64,
    pub mutate_link_trait_prob: i64,
    pub mutate_node_trait_prob: i64,
    pub mutate_link_weights_prob: i64,
    pub mutate_toggle_enable_prob: i64,
    pub mutate_gene_reenable_prob: i64,
    pub mutate_add_node_prob: i64,
    pub mutate_add_link_prob: i64,
    /// Probability of a mate being outside the species.
    pub interspecies_mate_rate: i64,
    pub mate_multipoint_prob: i64,
    pub mate_multipoint_avg_prob: i64,
    pub mate_singlepoint_prob: i64,
    /// Probability of mating without mutation.
    pub mate_only_prob: i64,
    /// Probability of forcing selection of only naturally recurrent links.
    pub recur_only_prob: i64,
    /// Size of the population.
    pub pop_size: usize,
    /// Age where a species starts to be penalized.
    pub dropoff_age: usize,
    /// Number of tries an add-link mutation makes to find an open link.
    pub newlink_tries: u32,
    /// Print the population every this many generations.
    pub print_every: usize,
    /// Number of babies siphoned off to the champions.
    pub babies_stolen: u32,
    /// Number of times to run the experiment.
    pub num_runs: usize,
}

/// `c` lies in `[0, COEFF_LIMIT]`.
pub open spec fn coeff_in_range(c: i64) -> bool {
    0 <= c <= COEFF_LIMIT
}

impl Env {
    /// The coefficients the compatibility distance uses are in range.
    pub open spec fn compat_coeffs_valid(&self) -> bool {
        &&& coeff_in_range(self.disjoint_coeff)
        &&& coeff_in_range(self.excess_coeff)
        &&& coeff_in_range(self.mutdiff_coeff)
    }

    /// The coefficients fitness adjustment uses are in range.
    pub open spec fn fitness_coeffs_valid(&self) -> bool {
        &&& coeff_in_range(self.age_significance)
        &&& coeff_in_range(self.survival_thresh)
    }

    /// A configuration with every parameter zero.
    pub fn new() -> (r: Box<Self>)
        ensures
            forall|p: Param| #[trigger] r.get(p) == 0,
            r.disjoint_coeff == 0,
            r.excess_coeff == 0,
            r.mutdiff_coeff == 0,
            r.compat_threshold == 0,
            r.age_significance == 0,
            r.survival_thresh == 0,
            r.weight_mut_power == 0,
            r.pop_size == 0,
            r.dropoff_age == 0,
            r.num_runs == 0,
            r.compat_coeffs_valid(),
            r.fitness_coeffs_valid(),
    {
        Box::new(
            Env {
                trait_param_mut_prob: 0,
                trait_mutation_power: 0,
                linktrait_mut_sig: 0,
                nodetrait_mut_sig: 0,
                weight_mut_power: 0,
                recur_prob: 0,
                disjoint_coeff: 0,
                excess_coeff: 0,
                mutdiff_coeff: 0,
                compat_threshold: 0,
                age_significance: 0,
                survival_thresh: 0,
                mutate_only_prob: 0,
                mutate_random_trait_prob: 0,
                mutate_link_trait_prob: 0,
                mutate_node_trait_prob: 0,
                mutate_link_weights_prob: 0,
                mutate_toggle_enable_prob: 0,
                mutate_gene_reenable_prob: 0,
                mutate_add_node_prob: 0,
                mutate_add_link_prob: 0,
                interspecies_mate_rate: 0,
                mate_multipoint_prob: 0,
                mate_multipoint_avg_prob: 0,
                mate_singlepoint_prob: 0,
                mate_only_prob: 0,
                recur_only_prob: 0,
                pop_size: 0,
                dropoff_age: 0,
                newlink_tries: 0,
                print_every: 0,
                babies_stolen: 0,
                num_runs: 0,
            },
        )
    }
}

} // verus!

verus! {

/// A configuration parameter, named in the configuration text by its field name.
#[derive(Debug, Clone, Copy, PartialEq, Eq, Structural)]
pub enum Param {
    TraitParamMutProb,
    TraitMutationPower,
    LinktraitMutSig,
    NodetraitMutSig,
    WeightMutPower,
    RecurProb,
    DisjointCoeff,
    ExcessCoeff,
    MutdiffCoeff,
    CompatThreshold,
    AgeSignificance,
    SurvivalThresh,
    MutateOnlyProb,
    MutateRandomTraitProb,
    MutateLinkTraitProb,
    MutateNodeTraitProb,
    MutateLinkWeightsProb,
    MutateToggleEnableProb,
    MutateGeneReenableProb,
    MutateAddNodeProb,
    MutateAddLinkProb,
    InterspeciesMateRate,
    MateMultipointProb,
    MateMultipointAvgProb,
    MateSinglepointProb,
    MateOnlyProb,
    RecurOnlyProb,
    PopSize,
    DropoffAge,
    NewlinkTries,
    PrintEvery,
    BabiesStolen,
    NumRuns,
}

/// A fault in a configuration line.
#[derive(Debug, Clone, Copy, PartialEq, Eq, Structural)]
pub enum EnvError {
    /// The line names a parameter but gives no value.
    MissingValue,
    /// The value given for this parameter is not a number of its kind.
    BadValue(Param),
}

impl Param {
    /// The parameter's name in configuration text.
    pub open spec fn name(self) -> Seq<u8> {
        match self {
            Param::TraitParamMutProb => "trait_param_mut_prob".spec_bytes(),
            Param::TraitMutationPower => "trait_mutation_power".spec_bytes(),
            Param::LinktraitMutSig => "linktrait_mut_sig".spec_bytes(),
            Param::NodetraitMutSig => "nodetrait_mut_sig".spec_bytes(),
            Param::WeightMutPower => "weight_mut_power".spec_bytes(),
            Param::RecurProb => "recur_prob".spec_bytes(),
            Param::DisjointCoeff => "disjoint_coeff".spec_bytes(),
            Param::ExcessCoeff => "excess_coeff".spec_bytes(),
            Param::MutdiffCoeff => "mutdiff_coeff".spec_bytes(),
            Param::CompatThreshold => "compat_threshold".spec_bytes(),
            Param::AgeSignificance => "age_significance".spec_bytes(),
            Param::SurvivalThresh => "survival_thresh".spec_bytes(),
            Param::MutateOnlyProb => "mutate_only_prob".spec_bytes(),
            Param::MutateRandomTraitProb => "mutate_random_trait_prob".spec_bytes(),
            Param::MutateLinkTraitProb => "mutate_link_trait_prob".spec_bytes(),
            Param::MutateNodeTraitProb => "mutate_node_trait_prob".spec_bytes(),
            Param::MutateLinkWeightsProb => "mutate_link_weights_prob".spec_bytes(),
            Param::MutateToggleEnableProb => "mutate_toggle_enable_prob".spec_bytes(),
            Param::MutateGeneReenableProb => "mutate_gene_reenable_prob".spec_bytes(),
            Param::MutateAddNodeProb => "mutate_add_node_prob".spec_bytes(),
            Param::MutateAddLinkProb => "mutate_add_link_prob".spec_bytes(),
            Param::InterspeciesMateRate => "interspecies_mate_rate".spec_bytes(),
            Param::MateMultipointProb => "mate_multipoint_prob".spec_bytes(),
            Param::MateMultipointAvgProb => "mate_multipoint_avg_prob".spec_bytes(),
            Param::MateSinglepointProb => "mate_singlepoint_prob".spec_bytes(),
            Param::MateOnlyProb => "mate_only_prob".spec_bytes(),
            Param::RecurOnlyProb => "recur_only_prob".spec_bytes(),
            Param::PopSize => "pop_size".spec_bytes(),
            Param::DropoffAge => "dropoff_age".spec_bytes(),
            Param::NewlinkTries => "newlink_tries".spec_bytes(),
            Param::PrintEvery => "print_every".spec_bytes(),
            Param::BabiesStolen => "babies_stolen".spec_bytes(),
            Param::NumRuns => "num_runs".spec_bytes(),
        }
    }

    /// Largest value of a counted parameter; `None` for a real-valued one.
    pub open spec fn count_max(self) -> Option<int> {
        match self {
            Param::PopSize => Some(usize::MAX as int),
            Param::DropoffAge => Some(usize::MAX as int),
            Param::NewlinkTries => Some(u32::MAX as int),
            Param::PrintEvery => Some(usize::MAX as int),
            Param::BabiesStolen => Some(u32::MAX as int),
            Param::NumRuns => Some(usize::MAX as int),
            _ => None,
        }
    }

    /// The value that `text` gives this parameter, if it is a number of its kind:
    /// a count (see `count_spec`) or a real value in millionths (see `fixed_spec`).
    pub open spec fn parse_spec(self, text: Seq<u8>) -> Option<int> {
        match self.count_max() {
            Some(max) => count_spec(text, max),
            None => fixed_spec(text),
        }
    }

    /// The parameter named `name`, if any.
    pub fn lookup(name: &str) -> (r: Option<Param>)
        ensures
            r matches Some(p) ==> name.spec_bytes() == p.name(),
            r is None ==> forall|p: Param| name.spec_bytes() != #[trigger] p.name(),
    {
        let n = name.as_bytes();
        if same_bytes(n, "trait_param_mut_prob".as_bytes()) {
            return Some(Param::TraitParamMutProb);
        }
        if same_bytes(n, "trait_mutation_power".as_bytes()) {
            return Some(Param::TraitMutationPower);
        }
        if same_bytes(n, "linktrait_mut_sig".as_bytes()) {
            return Some(Param::LinktraitMutSig);
        }
        if same_bytes(n, "nodetrait_mut_sig".as_bytes()) {
            return Some(Param::NodetraitMutSig);
        }
        if same_bytes(n, "weight_mut_power".as_bytes()) {
            return Some(Param::WeightMutPower);
        }
        if same_bytes(n, "recur_prob".as_bytes()) {
            return Some(Param::RecurProb);
        }
        if same_bytes(n, "disjoint_coeff".as_bytes()) {
            return Some(Param::DisjointCoeff);
        }
        if same_bytes(n, "excess_coeff".as_bytes()) {
            return Some(Param::ExcessCoeff);
        }
        if same_bytes(n, "mutdiff_coeff".as_bytes()) {
            return Some(Param::MutdiffCoeff);
        }
        if same_bytes(n, "compat_threshold".as_bytes()) {
            return Some(Param::CompatThreshold);
        }
        if same_bytes(n, "age_significance".as_bytes()) {
            return Some(Param::AgeSignificance);
        }
        if same_bytes(n, "survival_thresh".as_bytes()) {
            return Some(Param::SurvivalThresh);
        }
        if same_bytes(n, "mutate_only_prob".as_bytes()) {
            return Some(Param::MutateOnlyProb);
        }
        if same_bytes(n, "mutate_random_trait_prob".as_bytes()) {
            return Some(Param::MutateRandomTraitProb);
        }
        if same_bytes(n, "mutate_link_trait_prob".as_bytes()) {
            return Some(Param::MutateLinkTraitProb);
        }
        if same_bytes(n, "mutate_node_trait_prob".as_bytes()) {
            return Some(Param::MutateNodeTraitProb);
        }
        if same_bytes(n, "mutate_link_weights_prob".as_bytes()) {
            return Some(Param::MutateLinkWeightsProb);
        }
        if same_bytes(n, "mutate_toggle_enable_prob".as_bytes()) {
            return Some(Param::MutateToggleEnableProb);
        }
        if same_bytes(n, "mutate_gene_reenable_prob".as_bytes()) {
            return Some(Param::MutateGeneReenableProb);
        }
        if same_bytes(n, "mutate_add_node_prob".as_bytes()) {
            return Some(Param::MutateAddNodeProb);
        }
        if same_bytes(n, "mutate_add_link_prob".as_bytes()) {
            return Some(Param::MutateAddLinkProb);
        }
        if same_bytes(n, "interspecies_mate_rate".as_bytes()) {
            return Some(Param::InterspeciesMateRate);
        }
        if same_bytes(n, "mate_multipoint_prob".as_bytes()) {
            return Some(Param::MateMultipointProb);
        }
        if same_bytes(n, "mate_multipoint_avg_prob".as_bytes()) {
            return Some(Param::MateMultipointAvgProb);
        }
        if same_bytes(n, "mate_singlepoint_prob".as_bytes()) {
            return Some(Param::MateSinglepointProb);
        }
        if same_bytes(n, "mate_only_prob".as_bytes()) {
            return Some(Param::MateOnlyProb);
        }
        if same_bytes(n, "recur_only_prob".as_bytes()) {
            return Some(Param::RecurOnlyProb);
        }
        if same_bytes(n, "pop_size".as_bytes()) {
            return Some(Param::PopSize);
        }
        if same_bytes(n, "dropoff_age".as_bytes()) {
            return Some(Param::DropoffAge);
        }
        if same_bytes(n, "newlink_tries".as_bytes()) {
            return Some(Param::NewlinkTries);
        }
        if same_bytes(n, "print_every".as_bytes()) {
            return Some(Param::PrintEvery);
        }
        if same_bytes(n, "babies_stolen".as_bytes()) {
            return Some(Param::BabiesStolen);
        }
        if same_bytes(n, "num_runs".as_bytes()) {
            return Some(Param::NumRuns);
        }
        None
    }
}

/// Whether two byte strings are equal.
fn same_bytes(a: &[u8], b: &[u8]) -> (r: bool)
    ensures
        r == (a@ == b@),
{
    if a.len() != b.len() {
        return false;
    }
    let mut i: usize = 0;
    while i < a.len()
        invariant
            a@.len() == b@.len(),
            i <= a@.len(),
            forall|k: int| 0 <= k < i ==> a@[k] == b@[k],
        decreases a@.len() - i,
    {
        if a[i] != b[i] {
            return false;
        }
        i = i + 1;
    }
    proof {
        assert(a@ == b@);
    }
    true
}

impl Env {
    /// The value of parameter `p`.
    pub open spec fn get(&self, p: Param) -> int {
        match p {
            Param::TraitParamMutProb => self.trait_param_mut_prob as int,
            Param::TraitMutationPower => self.trait_mutation_power as int,
            Param::LinktraitMutSig => self.linktrait_mut_sig as int,
            Param::NodetraitMutSig => self.nodetrait_mut_sig as int,
            Param::WeightMutPower => self.weight_mut_power as int,
            Param::RecurProb => self.recur_prob as int,
            Param::DisjointCoeff => self.disjoint_coeff as int,
            Param::ExcessCoeff => self.excess_coeff as int,
            Param::MutdiffCoeff => self.mutdiff_coeff as int,
            Param::CompatThreshold => self.compat_threshold as int,
            Param::AgeSignificance => self.age_significance as int,
            Param::SurvivalThresh => self.survival_thresh as int,
            Param::MutateOnlyProb => self.mutate_only_prob as int,
            Param::MutateRandomTraitProb => self.mutate_random_trait_prob as int,
            Param::MutateLinkTraitProb => self.mutate_link_trait_prob as int,
            Param::MutateNodeTraitProb => self.mutate_node_trait_prob as int,
            Param::MutateLinkWeightsProb => self.mutate_link_weights_prob as int,
            Param::MutateToggleEnableProb => self.mutate_toggle_enable_prob as int,
            Param::MutateGeneReenableProb => self.mutate_gene_reenable_prob as int,
            Param::MutateAddNodeProb => self.mutate_add_node_prob as int,
            Param::MutateAddLinkProb => self.mutate_add_link_prob as int,
            Param::InterspeciesMateRate => self.interspecies_mate_rate as int,
            Param::MateMultipointProb => self.mate_multipoint_prob as int,
            Param::MateMultipointAvgProb => self.mate_multipoint_avg_prob as int,
            Param::MateSinglepointProb => self.mate_singlepoint_prob as int,
            Param::MateOnlyProb => self.mate_only_prob as int,
            Param::RecurOnlyProb => self.recur_only_prob as int,
            Param::PopSize => self.pop_size as int,
            Param::DropoffAge => self.dropoff_age as int,
            Param::NewlinkTries => self.newlink_tries as int,
            Param::PrintEvery => self.print_every as int,
            Param::BabiesStolen => self.babies_stolen as int,
            Param::NumRuns => self.num_runs as int,
        }
    }

    /// Sets parameter `p` from `text` when it is a number of the parameter's kind and
    /// returns whether it was; every other parameter keeps its value, and nothing
    /// changes when the text is no such number.
    pub fn set(&mut self, p: Param, text: &str) -> (r: bool)
        ensures
            r == p.parse_spec(text.spec_bytes()).is_some(),
            r ==> final(self).get(p) == p.parse_spec(text.spec_bytes()).unwrap(),
            r ==> forall|q: Param| q != p ==> #[trigger] final(self).get(q) == old(self).get(q),
            !r ==> *final(self) == *old(self),
    {
        let b = text.as_bytes();
        match p {
            Param::TraitParamMutProb => match parse_fixed(b) {
                Some(x) => {
                    self.trait_param_mut_prob = x;
                    true
                },
                None => false,
            },
            Param::TraitMutationPower => match parse_fixed(b) {
                Some(x) => {
                    self.trait_mutation_power = x;
                    true
                },
                None => false,
            },
            Param::LinktraitMutSig => match parse_fixed(b) {
                Some(x) => {
                    self.linktrait_mut_sig = x;
                    true
                },
                None => false,
            },
            Param::NodetraitMutSig => match parse_fixed(b) {
                Some(x) => {
                    self.nodetrait_mut_sig = x;
                    true
                },
                None => false,
            },
            Param::WeightMutPower => match parse_fixed(b) {
                Some(x) => {
                    self.weight_mut_power = x;
                    true
                },
                None => false,
            },
            Param::RecurProb => match parse_fixed(b) {
                Some(x) => {
                    self.recur_prob = x;
                    true
                },
                None => false,
            },
            Param::DisjointCoeff => match parse_fixed(b) {
                Some(x) => {
                    self.disjoint_coeff = x;
                    true
                },
                None => false,
            },
            Param::ExcessCoeff => match parse_fixed(b) {
                Some(x) => {
                    self.excess_coeff = x;
                    true
                },
                None => false,
            },
            Param::MutdiffCoeff => match parse_fixed(b) {
                Some(x) => {
                    self.mutdiff_coeff = x;
                    true
                },
                None => false,
            },
            Param::CompatThreshold => match parse_fixed(b) {
                Some(x) => {
                    self.compat_threshold = x;
                    true
                },
                None => false,
            },
            Param::AgeSignificance => match parse_fixed(b) {
                Some(x) => {
                    self.age_significance = x;
                    true
                },
                None => false,
            },
            Param::SurvivalThresh => match parse_fixed(b) {
                Some(x) => {
                    self.survival_thresh = x;
                    true
                },
                None => false,
            },
            Param::MutateOnlyProb => match parse_fixed(b) {
                Some(x) => {
                    self.mutate_only_prob = x;
                    true
                },
                None => false,
            },
            Param::MutateRandomTraitProb => match parse_fixed(b) {
                Some(x) => {
                    self.mutate_random_trait_prob = x;
                    true
                },
                None => false,
            },
            Param::MutateLinkTraitProb => match parse_fixed(b) {
                Some(x) => {
                    self.mutate_link_trait_prob = x;
                    true
                },
                None => false,
            },
            Param::MutateNodeTraitProb => match parse_fixed(b) {
                Some(x) => {
                    self.mutate_node_trait_prob = x;
                    true
                },
                None => false,
            },
            Param::MutateLinkWeightsProb => match parse_fixed(b) {
                Some(x) => {
                    self.mutate_link_weights_prob = x;
                    true
                },
                None => false,
            },
            Param::MutateToggleEnableProb => match parse_fixed(b) {
                Some(x) => {
                    self.mutate_toggle_enable_prob = x;
                    true
                },
                None => false,
            },
            Param::MutateGeneReenableProb => match parse_fixed(b) {
                Some(x) => {
                    self.mutate_gene_reenable_prob = x;
                    true
                },
                None => false,
            },
            Param::MutateAddNodeProb => match parse_fixed(b) {
                Some(x) => {
                    self.mutate_add_node_prob = x;
                    true
                },
                None => false,
            },
            Param::MutateAddLinkProb => match parse_fixed(b) {
                Some(x) => {
                    self.mutate_add_link_prob = x;
                    true
                },
                None => false,
            },
            Param::InterspeciesMateRate => match parse_fixed(b) {
                Some(x) => {
                    self.interspecies_mate_rate = x;
                    true
                },
                None => false,
            },
            Param::MateMultipointProb => match parse_fixed(b) {
                Some(x) => {
                    self.mate_multipoint_prob = x;
                    true
                },
                None => false,
            },
            Param::MateMultipointAvgProb => match parse_fixed(b) {
                Some(x) => {
                    self.mate_multipoint_avg_prob = x;
                    true
                },
                None => false,
            },
            Param::MateSinglepointProb => match parse_fixed(b) {
                Some(x) => {
                    self.mate_singlepoint_prob = x;
                    true
                },
                None => false,
            },
            Param::MateOnlyProb => match parse_fixed(b) {
                Some(x) => {
                    self.mate_only_prob = x;
                    true
                },
                None => false,
            },
            Param::RecurOnlyProb => match parse_fixed(b) {
                Some(x) => {
                    self.recur_only_prob = x;
                    true
                },
                None => false,
            },
            Param::PopSize => match parse_count(b, usize::MAX as u64) {
                Some(x) => {
                    self.pop_size = x as usize;
                    true
                },
                None => false,
            },
            Param::DropoffAge => match parse_count(b, usize::MAX as u64) {
                Some(x) => {
                    self.dropoff_age = x as usize;
                    true
                },
                None => false,
            },
            Param::NewlinkTries => match parse_count(b, u32::MAX as u64) {
                Some(x) => {
                    self.newlink_tries = x as u32;
                    true
                },
                None => false,
            },
            Param::PrintEvery => match parse_count(b, usize::MAX as u64) {
                Some(x) => {
                    self.print_every = x as usize;
                    true
                },
                None => false,
            },
            Param::BabiesStolen => match parse_count(b, u32::MAX as u64) {
                Some(x) => {
                    self.babies_stolen = x as u32;
                    true
                },
                None => false,
            },
            Param::NumRuns => match parse_count(b, usize::MAX as u64) {
                Some(x) => {
                    self.num_runs = x as usize;
                    true
                },
                None => false,
            },
        }
    }

    /// Applies one configuration line whose first word is `name` and whose second
    /// word, if any, is `value`. Returns whether `name` is a parameter (an unknown
    /// name changes nothing); a known name without a value, or with a value that is
    /// no number of its kind, is an error.
    pub fn apply(&mut self, name: &str, value: Option<&str>) -> (r: Result<bool, EnvError>)
        ensures
            value is None ==> r == Err::<bool, EnvError>(EnvError::MissingValue) && *final(self) == *old(self),
            value matches Some(text) ==> match r {
                Ok(true) => exists|p: Param|
                    name.spec_bytes() == p.name() && #[trigger] p.parse_spec(text.spec_bytes()).is_some()
                        && final(self).get(p) == p.parse_spec(text.spec_bytes()).unwrap()
                        && forall|q: Param| q != p ==> #[trigger] final(self).get(q) == old(self).get(q),
                Ok(false) => (forall|p: Param| name.spec_bytes() != #[trigger] p.name()) && *final(self) == *old(self),
                Err(EnvError::BadValue(p)) => name.spec_bytes() == p.name() && p.parse_spec(text.spec_bytes()).is_none()
                    && *final(self) == *old(self),
                Err(EnvError::MissingValue) => false,
            },
    {
        let text = match value {
            Some(t) => t,
            None => {
                return Err(EnvError::MissingValue);
            },
        };
        match Param::lookup(name) {
            Some(p) => if self.set(p, text) {
                Ok(true)
            } else {
                Err(EnvError::BadValue(p))
            },
            None => Ok(false),
        }
    }
}

} // verus!
