//! A link together with its historical markers.
use crate::link::Link;
use vstd::prelude::*;

verus! {

/// A link plus its innovation number (the historical marker that aligns genes of
/// two genomes) and its mutation number (the weight it has drifted to).
#[derive(Debug, Copy, Clone)]
pub struct Gene {
    pub link: Link,
    /// Global historical marker, fixed when the gene is created.
    pub innovation_num: u64,
    /// How far mutation has moved the link, in millionths.
    pub mutation_num: i64,
    /// When off, the gene is disabled.
    pub enable: bool,
    /// When on, the link weight cannot be mutated.
    pub frozen: bool,
}

impl Gene {
    pub fn new(
        trait_gene: Option<i32>,
        i_node: i32,
        o_node: i32,
        weight: i64,
        recurrent: bool,
        innovation_num: u64,
        mutation_num: i64,
        enable: bool,
    ) -> (r: Self)
        ensures
            r.link.link_trait == trait_gene,
            r.link.i_node == i_node,
            r.link.o_node == o_node,
            r.link.weight == weight,
            r.link.recurrent == recurrent,
            r.link.time_delay == false,
            r.link.added_weight == 0,
            r.innovation_num == innovation_num,
            r.mutation_num == mutation_num,
            r.enable == enable,
            r.frozen == false,
    {
        let link = Link::new(trait_gene, weight, i_node, o_node, recurrent);
        Gene { link, innovation_num, mutation_num, enable, frozen: false }
    }

    pub fn is_frozen(&self) -> (r: bool)
        ensures
            r == self.frozen,
    {
        self.frozen
    }

    pub fn get_innovation_num(&self) -> (r: u64)
        ensures
            r == self.innovation_num,
    {
        self.innovation_num
    }

    /// Two genes are equal when their links are equal and all markers and flags agree.
    pub open spec fn same_as(self, o: Gene) -> bool {
        &&& self.link.same_as(o.link)
        &&& self.innovation_num == o.innovation_num
        &&& self.mutation_num == o.mutation_num
        &&& self.enable == o.enable
        &&& self.frozen == o.frozen
    }
}

impl PartialEq for Gene {
    fn eq(&self, other: &Gene) -> (r: bool) {
        self.link == other.link && self.innovation_num == other.innovation_num
            && self.mutation_num == other.mutation_num && self.enable == other.enable
            && self.frozen == other.frozen
    }
}

impl vstd::std_specs::cmp::PartialEqSpecImpl for Gene {
    open spec fn obeys_eq_spec() -> bool {
        true
    }

    open spec fn eq_spec(&self, o: &Gene) -> bool {
        self.same_as(*o)
    }
}

} // verus!
