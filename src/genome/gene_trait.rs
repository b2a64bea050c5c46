//! Named vectors of parameters shared by nodes and links.
use vstd::prelude::*;

verus! {

/// Number of parameters a trait holds.
pub const NUM_TRAIT_PARAMS: usize = 8;

/// A named vector of parameters, in millionths. Immutable once built.
#[derive(Debug, Copy, Clone)]
pub struct Trait {
    pub id: i32,
    pub params: [i64; NUM_TRAIT_PARAMS],
}

impl Trait {
    pub fn new(id: i32, params: [i64; NUM_TRAIT_PARAMS]) -> (r: Self)
        ensures
            r.id == id,
            r.params == params,
    {
        Trait { id, params }
    }
}

} // verus!
