//! A genome together with its fitness bookkeeping.
use crate::genome::Genome;
use vstd::prelude::*;

verus! {

/// A genome plus its fitness bookkeeping. Reals are held in millionths.
pub struct Organism {
    /// A measure of fitness, set by an outside evaluator and adjusted by its species.
    pub fitness: i64,
    /// The fitness before the last adjustment.
    pub orig_fitness: i64,
    /// Used for reporting only.
    pub error: i64,
    /// Win marker, if a task needs one.
    pub winner: bool,
    /// The genotype.
    pub genome: Box<Genome>,
    /// Index of the organism's species in the population's species list.
    pub species: Option<usize>,
    /// Number of children the organism may have.
    pub expected_offspring: i64,
    /// The generation the organism is from.
    pub generation: usize,
    /// Marked for removal as inferior.
    pub eliminate: bool,
    /// Marked as its species' champion.
    pub champion: bool,
    /// Number of offspring reserved for a population leader.
    pub super_champ_offspring: i32,
    /// Marked as the best of the population.
    pub pop_champ: bool,
    /// Marked as the duplicate child of a champion.
    pub pop_champ_child: bool,
    /// High fitness of the champion.
    pub high_fit: i64,
    /// How long the organism has been alive.
    pub time_alive: i32,
    pub mut_struct_baby: bool,
    pub mate_baby: bool,
    pub modified: bool,
}

impl Organism {
    pub fn new(fitness: i64, genome: Box<Genome>, generation: usize) -> (r: Self)
        ensures
            r.fitness == fitness,
            r.orig_fitness == fitness,
            r.genome == genome,
            r.generation == generation,
            r.species.is_none(),
            r.expected_offspring == 0,
            !r.winner,
            !r.eliminate,
            !r.champion,
            r.modified,
    {
        Organism {
            fitness,
            orig_fitness: fitness,
            error: 0,
            winner: false,
            genome,
            species: None,
            expected_offspring: 0,
            generation,
            eliminate: false,
            champion: false,
            super_champ_offspring: 0,
            pop_champ: false,
            pop_champ_child: false,
            high_fit: 0,
            time_alive: 0,
            mut_struct_baby: false,
            mate_baby: false,
            modified: true,
        }
    }

    /// Records the index of the organism's species.
    pub fn set_species(&mut self, species: usize)
        ensures
            *final(self) == (Organism { species: Some(species), ..*old(self) }),
    {
        self.species = Some(species);
    }

    pub fn has_species(&self) -> (r: bool)
        ensures
            r == self.species.is_some(),
    {
        self.species.is_some()
    }

    pub fn get_fitness(&self) -> (r: i64)
        ensures
            r == self.fitness,
    {
        self.fitness
    }

    pub fn is_winner(&self) -> (r: bool)
        ensures
            r == self.winner,
    {
        self.winner
    }
}

} // verus!
