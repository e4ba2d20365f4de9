//! The flat, immutable set of numeric parameters of a run. Every rate,
//! coefficient and threshold is a fixed-point value in thousandths.

use vstd::prelude::*;

use crate::numeric::COEFF_LIMIT;
use crate::numeric::POPULATION_LIMIT;
use crate::numeric::SPECIES_LIMIT;

verus! {

#[derive(Debug, Clone, Copy, PartialEq)]
pub struct Config {
    /// Weight of excess genes in the compatibility distance.
    pub c1: i64,
    /// Weight of disjoint genes in the compatibility distance.
    pub c2: i64,
    /// Weight of the mean connection-weight difference in the distance.
    pub c3: i64,
    /// Genomic distance allowed before two genomes fall into separate
    /// species.
    pub dt: i64,
    /// Fraction of children bred by mutation without crossover.
    pub a_sexual_reproduction_rate: i64,
    /// Chance for each child to have its weights mutated.
    pub mutation_rate: i64,
    /// Chance of a weight being uniformly perturbed rather than replaced.
    pub pertrubing_rate: i64,
    /// Chance of a gene staying disabled when disabled in either parent.
    pub disabled_gene_inheriting_chance: i64,
    /// Chance of a child gaining a fresh connection.
    pub add_connection_rate: i64,
    /// Chance of a child gaining a fresh node.
    pub add_node_rate: i64,
    /// Chance of adding a new layer while mutating a node.
    pub add_layer_rate: i64,
    /// Share of offspring generated by crossover of two parents.
    pub offspring_from_crossover: i64,
    /// Coefficient for sorting genomes into species.
    pub compatibility_threshold: i64,
    /// Generations a species may go without improvement before it is
    /// killed.
    pub max_species_staleness_before_kill: i32,
    pub population_size: usize,
    pub generation_count: usize,
    pub max_species: usize,
}

impl Config {
    /// The bounds the evaluator relies on: distance coefficients
    /// nonnegative — they are importance weights, and the fixed-point
    /// distance divides by the scale, which matches the real-valued
    /// formula only for nonnegative terms — and within the fixed-point
    /// range, and population and species counts within the library's
    /// limits.
    pub open spec fn valid(self) -> bool {
        0 <= self.c1 <= COEFF_LIMIT && 0 <= self.c2 <= COEFF_LIMIT && 0 <= self.c3 <= COEFF_LIMIT
            && 0 < self.population_size <= POPULATION_LIMIT && self.max_species <= SPECIES_LIMIT
            && self.max_species_staleness_before_kill >= 0
    }

    /// The default parameter set, with the given population shape.
    pub fn new(population_size: usize, generation_count: usize, max_species: usize) -> (c: Config)
        ensures
            c == (Config {
                c1: 1500,
                c2: 800,
                c3: 1000,
                dt: 3000,
                a_sexual_reproduction_rate: 250,
                mutation_rate: 900,
                pertrubing_rate: 900,
                disabled_gene_inheriting_chance: 150,
                add_connection_rate: 250,
                add_node_rate: 230,
                add_layer_rate: 80,
                offspring_from_crossover: 900,
                compatibility_threshold: 1000,
                max_species_staleness_before_kill: 15,
                population_size,
                generation_count,
                max_species,
            }),
    {
        Config {
            c1: 1500,
            c2: 800,
            c3: 1000,
            dt: 3000,
            a_sexual_reproduction_rate: 250,
            mutation_rate: 900,
            pertrubing_rate: 900,
            disabled_gene_inheriting_chance: 150,
            add_connection_rate: 250,
            add_node_rate: 230,
            add_layer_rate: 80,
            offspring_from_crossover: 900,
            compatibility_threshold: 1000,
            max_species_staleness_before_kill: 15,
            population_size,
            generation_count,
            max_species,
        }
    }

    pub fn get_population_size(&self) -> (r: usize)
        ensures
            r == self.population_size,
    {
        self.population_size
    }

    pub fn get_generation_count(&self) -> (r: usize)
        ensures
            r == self.generation_count,
    {
        self.generation_count
    }
}

} // verus!
