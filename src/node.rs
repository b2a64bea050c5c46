//! Vertices of the genome graph.
use crate::genome::gene_trait::NUM_TRAIT_PARAMS;
use vstd::prelude::*;

verus! {

#[derive(Debug, Copy, Clone, PartialEq, Eq, Structural)]
pub enum NodeType {
    Neuron,
    Sensor,
}

#[derive(Debug, Copy, Clone, PartialEq, Eq, Structural)]
pub enum NodePlace {
    Hidden,
    Input,
    Output,
    Bias,
}

#[derive(Debug, Copy, Clone, PartialEq, Eq, Structural)]
pub enum FunctionType {
    Sigmoid,
}

/// A sensor or neuron. Real-valued state is held in millionths.
#[derive(Debug, Copy, Clone)]
pub struct Node {
    /// Identification number, unique within a genome.
    pub id: i32,
    /// Which activation the node is currently in.
    pub activation_count: u32,
    /// The previous step's activation.
    pub last_activation: i64,
    /// The activation before the previous step's.
    pub last_activation2: i64,
    /// Id of the trait of parameters the node uses, if any.
    pub node_trait: Option<i32>,
    /// Whether something overrides the node's own output.
    pub override_node: bool,
    /// The activation value that overrides the node's own.
    pub override_value: i64,
    /// When frozen, the node's trait cannot be mutated.
    pub frozen: bool,
    pub function_type: FunctionType,
    pub node_type: NodeType,
    pub node_place: NodePlace,
    /// The incoming activity before being processed.
    pub activesum: i64,
    /// The total activation entering the node.
    pub activation: i64,
    /// Whether the output is active.
    pub active_flag: bool,
    /// Learning parameters.
    pub params: [i64; NUM_TRAIT_PARAMS],
}

impl Node {
    pub fn new(id: i32, node_trait: Option<i32>, node_type: NodeType, node_place: NodePlace) -> (r: Self)
        ensures
            r.id == id,
            r.node_trait == node_trait,
            r.node_type == node_type,
            r.node_place == node_place,
            r.function_type == FunctionType::Sigmoid,
            r.fresh(),
            r.activation_count == 0,
            r.override_value == 0,
            forall|k: int| 0 <= k < NUM_TRAIT_PARAMS ==> r.params[k] == 0,
    {
        Node {
            id,
            activation_count: 0,
            last_activation: 0,
            last_activation2: 0,
            node_trait,
            frozen: false,
            override_node: false,
            override_value: 0,
            function_type: FunctionType::Sigmoid,
            node_type,
            node_place,
            activesum: 0,
            activation: 0,
            active_flag: false,
            params: [0, 0, 0, 0, 0, 0, 0, 0],
        }
    }

    /// No transient activation state: all activation values zero, nothing overriding,
    /// not frozen, not active.
    pub open spec fn fresh(self) -> bool {
        &&& self.last_activation == 0
        &&& self.last_activation2 == 0
        &&& self.activesum == 0
        &&& self.activation == 0
        &&& !self.active_flag
        &&& !self.frozen
        &&& !self.override_node
    }

    /// `n` with its transient activation state reset; identity, kind and trait kept.
    pub open spec fn duplicate_of(self, n: Node) -> bool {
        &&& self.fresh()
        &&& self.id == n.id
        &&& self.activation_count == n.activation_count
        &&& self.node_trait == n.node_trait
        &&& self.override_value == n.override_value
        &&& self.function_type == n.function_type
        &&& self.node_type == n.node_type
        &&& self.node_place == n.node_place
        &&& self.params == n.params
    }

    /// A copy with the transient activation state reset.
    pub fn duplicate(&self) -> (r: Self)
        ensures
            r.duplicate_of(*self),
    {
        Node {
            id: self.id,
            activation_count: self.activation_count,
            last_activation: 0,
            last_activation2: 0,
            node_trait: self.node_trait,
            frozen: false,
            override_node: false,
            override_value: self.override_value,
            function_type: self.function_type,
            node_type: self.node_type,
            node_place: self.node_place,
            activesum: 0,
            activation: 0,
            active_flag: false,
            params: self.params,
        }
    }

    /// Two nodes are equal when id, trait, override flag, kind and activity agree.
    pub open spec fn same_as(self, o: Node) -> bool {
        &&& self.id == o.id
        &&& self.node_trait == o.node_trait
        &&& self.override_node == o.override_node
        &&& self.function_type == o.function_type
        &&& self.node_type == o.node_type
        &&& self.node_place == o.node_place
        &&& self.active_flag == o.active_flag
    }
}

impl PartialEq for Node {
    fn eq(&self, other: &Node) -> (r: bool) {
        let same_trait = match (self.node_trait, other.node_trait) {
            (Some(a), Some(b)) => a == b,
            (None, None) => true,
            _ => false,
        };
        self.id == other.id && same_trait && self.override_node == other.override_node
            && self.function_type == other.function_type && self.node_type == other.node_type
            && self.node_place == other.node_place && self.active_flag == other.active_flag
    }
}

impl vstd::std_specs::cmp::PartialEqSpecImpl for Node {
    open spec fn obeys_eq_spec() -> bool {
        true
    }

    open spec fn eq_spec(&self, o: &Node) -> bool {
        self.same_as(*o)
    }
}

} // verus!
