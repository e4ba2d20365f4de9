//! Evolution of neural-network topologies by mutation, crossover and
//! speciation, after the NEAT scheme: genomes are keyed collections of node
//! and connection genes, aligned across lineages by innovation numbers that
//! a shared counter issues.
//!
//! Real-valued quantities (weights, fitness scores, rates and coefficients)
//! are fixed-point values in thousandths throughout: `1500` stands for `1.5`.

pub mod config;
pub mod connection_gene;
pub mod counter;
pub mod crossover;
pub mod distance;
pub mod evaluator;
pub mod fitness_genome;
pub mod genome;
pub mod mutation;
pub mod node_gene;
pub mod numeric;
pub mod reach;
pub mod rng;
pub mod sort;
pub mod species;

pub use connection_gene::ConnectionGene;
pub use config::Config;
pub use counter::Counter;
pub use evaluator::Evaluator;
pub use evaluator::FitnessGenomeProvider;
pub use evaluator::GenesisGenomeProvider;
pub use fitness_genome::FitnessGenome;
pub use genome::Genome;
pub use node_gene::NodeGene;
pub use node_gene::NodeGeneType;
pub use species::Species;
