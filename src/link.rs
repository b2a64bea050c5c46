//! Weighted, directed edges between nodes of one genome.
use vstd::prelude::*;

verus! {

/// A directed, weighted edge. The endpoints are node ids of the genome that holds
/// the link, and the trait is a trait id of that genome.
#[derive(Clone, Copy, Debug)]
pub struct Link {
    /// Weight of the connection, in millionths.
    pub weight: i64,
    /// Id of the node feeding the link.
    pub i_node: i32,
    /// Id of the node the link feeds.
    pub o_node: i32,
    pub time_delay: bool,
    pub recurrent: bool,
    /// Id of the trait the link uses, if any.
    pub link_trait: Option<i32>,
    /// The amount of weight adjustment, in millionths.
    pub added_weight: i64,
}

impl Link {
    pub fn new(link_trait: Option<i32>, weight: i64, i_node: i32, o_node: i32, recurrent: bool) -> (r: Self)
        ensures
            r.link_trait == link_trait,
            r.weight == weight,
            r.i_node == i_node,
            r.o_node == o_node,
            r.recurrent == recurrent,
            r.time_delay == false,
            r.added_weight == 0,
    {
        Link { link_trait, weight, added_weight: 0, i_node, o_node, recurrent, time_delay: false }
    }

    /// Two links are equal when weight, trait, endpoints and recurrence agree.
    pub open spec fn same_as(self, o: Link) -> bool {
        &&& self.weight == o.weight
        &&& self.link_trait == o.link_trait
        &&& self.i_node == o.i_node
        &&& self.o_node == o.o_node
        &&& self.recurrent == o.recurrent
    }
}

impl PartialEq for Link {
    fn eq(&self, other: &Link) -> (r: bool) {
        let same_trait = match (self.link_trait, other.link_trait) {
            (Some(a), Some(b)) => a == b,
            (None, None) => true,
            _ => false,
        };
        self.weight == other.weight && same_trait && self.i_node == other.i_node
            && self.o_node == other.o_node && self.recurrent == other.recurrent
    }
}

impl vstd::std_specs::cmp::PartialEqSpecImpl for Link {
    open spec fn obeys_eq_spec() -> bool {
        true
    }

    open spec fn eq_spec(&self, o: &Link) -> bool {
        self.same_as(*o)
    }
}

} // verus!
