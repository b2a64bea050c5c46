//! Reproduction core of a NEAT-style evolutionary engine: genome compatibility and
//! weight mutation, species fitness sharing and offspring budgeting, and the
//! population's speciation and epoch cycle.
//!
//! Every real-valued quantity (weights, fitness, coefficients, expected offspring)
//! is held as an integer count of millionths; see [`fixed`].
use vstd::prelude::*;

pub mod env;
pub mod fixed;
pub mod genome;
pub mod link;
pub mod node;
pub mod organism;
pub mod population;
mod random;
pub mod species;
pub mod text;

verus! {

/// How `Genome::mutate_link_weights` changes a weight.
#[derive(Clone, Copy, Debug, PartialEq, Eq, Structural)]
pub enum Mutator {
    /// Perturb, replace or keep each weight, as a random draw decides.
    Gaussian,
    /// Replace every eligible weight outright.
    ColdGaussian,
}

} // verus!
