//! A genome paired with its fitness score. The score defaults to zero and
//! is set by the evaluation step of each generation.

use vstd::prelude::*;

use crate::genome::Genome;
use crate::numeric::FITNESS_LIMIT;

verus! {

/// A scored genome: the unit the species rosters hold. Fitness is a
/// fixed-point value in thousandths.
#[derive(Debug, Clone, PartialEq)]
pub struct FitnessGenome {
    pub fitness: i64,
    pub genome: Genome,
}

impl FitnessGenome {
    /// A well-formed scored genome: the genome itself is well formed and
    /// the score lies in the accepted range.
    pub open spec fn wf(self) -> bool {
        self.genome.wf() && 0 <= self.fitness <= FITNESS_LIMIT
    }

    /// The two scored genomes agree in score and in genome content.
    pub open spec fn like(self, other: FitnessGenome) -> bool {
        self.fitness == other.fitness && self.genome.nodes@ == other.genome.nodes@
            && self.genome.connections@ == other.genome.connections@
    }

    pub fn new(genome: Genome, fitness: i64) -> (r: FitnessGenome)
        ensures
            r.genome == genome,
            r.fitness == fitness,
    {
        FitnessGenome { fitness, genome }
    }

    pub fn new_empty(genome: Genome) -> (r: FitnessGenome)
        ensures
            r.genome == genome,
            r.fitness == 0,
    {
        FitnessGenome { fitness: 0, genome }
    }

    pub fn get_fitness(&self) -> (r: i64)
        ensures
            r == self.fitness,
    {
        self.fitness
    }

    /// A copy of the genome, gene for gene.
    pub fn get_genome(&self) -> (r: Genome)
        ensures
            r.nodes@ == self.genome.nodes@,
            r.connections@ == self.genome.connections@,
    {
        Genome { nodes: self.genome.get_node_genes(), connections: self.genome.get_connection_genes() }
    }

    /// A copy of the whole scored genome.
    pub fn snapshot(&self) -> (r: FitnessGenome)
        ensures
            r.like(*self),
    {
        FitnessGenome { fitness: self.fitness, genome: self.get_genome() }
    }

    pub fn set_fitness(&mut self, fitness: i64)
        ensures
            final(self).fitness == fitness,
            final(self).genome == old(self).genome,
    {
        self.fitness = fitness;
    }
}

} // verus!
