use rand::SeedableRng;
use rand::rngs::StdRng;

use neat::Config;
use neat::ConnectionGene;
use neat::Counter;
use neat::Evaluator;
use neat::FitnessGenome;
use neat::FitnessGenomeProvider;
use neat::GenesisGenomeProvider;
use neat::Genome;
use neat::NodeGene;
use neat::NodeGeneType;

/// Hands every slot an exact copy of the template genome.
struct CopyGenesis {}

impl GenesisGenomeProvider for CopyGenesis {
    fn generate_genesis_genome(&self, genome: &Genome) -> Genome {
        Genome {
            nodes: genome.get_node_genes(),
            connections: genome.get_connection_genes(),
        }
    }
}

/// Scores a genome by its connection count, in thousandths.
struct ConnectionCountFitness {}

impl FitnessGenomeProvider for ConnectionCountFitness {
    fn fitness_genome_evaluator(&self, genome: &Genome) -> i64 {
        genome.get_connection_genes().len() as i64 * 1000
    }
}

fn template(node_counter: &mut Counter, conn_counter: &mut Counter) -> Genome {
    let mut g = Genome::new();
    let i1 = node_counter.get_innovation();
    let i2 = node_counter.get_innovation();
    let i3 = node_counter.get_innovation();
    let out = node_counter.get_innovation();
    g.add_node_gene(NodeGene::new(NodeGeneType::INPUT, i1, 0));
    g.add_node_gene(NodeGene::new(NodeGeneType::INPUT, i2, 0));
    g.add_node_gene(NodeGene::new(NodeGeneType::INPUT, i3, 0));
    g.add_node_gene(NodeGene::new(NodeGeneType::OUTPUT, out, 1));
    g.add_connection_gene(ConnectionGene::new(i1, out, 500, true, conn_counter.get_innovation()));
    g.add_connection_gene(ConnectionGene::new(i2, out, -300, true, conn_counter.get_innovation()));
    g.add_connection_gene(ConnectionGene::new(i3, out, 800, true, conn_counter.get_innovation()));
    g
}

fn run_evolution(seed: u64, generations: usize) -> (FitnessGenome, Vec<i64>) {
    let mut node_counter = Counter::new();
    let mut conn_counter = Counter::new();
    let genome = template(&mut node_counter, &mut conn_counter);

    let mut config = Config::new(10, generations, 30);
    config.c1 = 1000;
    config.c2 = 1000;
    config.c3 = 1000;
    config.dt = 3000;
    config.compatibility_threshold = 3000;

    let genesis = CopyGenesis {};
    let fitness = ConnectionCountFitness {};
    let mut evaluator = Evaluator::new();
    evaluator.init(&config, &genome, &genesis, &mut node_counter, &mut conn_counter);

    let mut rng = StdRng::seed_from_u64(seed);
    let mut avg_trace = Vec::new();
    for _ in 0..generations {
        evaluator.evaluate_generation(&fitness, &mut rng);
        avg_trace.push(evaluator.get_avg_fitness_sum());
    }
    (evaluator.get_fittest_genome(), avg_trace)
}

/// A deterministic end-to-end run: population 10, unit coefficients, a
/// compatibility threshold of three, fitness equal to the connection
/// count, five generations, one fixed seed. Two runs must agree bit for
/// bit in everything observable.
#[test]
fn evolution_is_reproducible_under_a_fixed_seed() {
    let (best_a, trace_a) = run_evolution(42, 5);
    let (best_b, trace_b) = run_evolution(42, 5);
    assert_eq!(best_a, best_b);
    assert_eq!(trace_a, trace_b);
}

#[test]
fn evolution_keeps_a_scored_best_player() {
    let (best, trace) = run_evolution(7, 3);
    assert!(best.get_fitness() >= 3000);
    assert!(best.get_genome().get_connection_genes().len() >= 3);
    assert_eq!(trace.len(), 3);
}

#[test]
fn init_fills_the_population_and_keeps_counters() {
    let mut node_counter = Counter::new();
    let mut conn_counter = Counter::new();
    let genome = template(&mut node_counter, &mut conn_counter);
    let config = Config::new(10, 5, 30);
    let genesis = CopyGenesis {};
    let mut evaluator = Evaluator::new();
    evaluator.init(&config, &genome, &genesis, &mut node_counter, &mut conn_counter);
    assert_eq!(node_counter.load_innovation(), 4);
    assert_eq!(conn_counter.load_innovation(), 3);
    // the freshly initialized evaluator has no best player yet
    assert_eq!(evaluator.get_fittest_genome().get_fitness(), 0);
}

#[test]
fn speciate_and_update_players_round_trip() {
    let mut node_counter = Counter::new();
    let mut conn_counter = Counter::new();
    let genome = template(&mut node_counter, &mut conn_counter);
    let config = Config::new(6, 5, 30);
    let genesis = CopyGenesis {};
    let mut evaluator = Evaluator::new();
    evaluator.init(&config, &genome, &genesis, &mut node_counter, &mut conn_counter);
    evaluator.speciate();
    evaluator.update_players();
    // identical genesis genomes all land in one species; the roster union
    // restores the full population
    let fitness = ConnectionCountFitness {};
    let mut rng = StdRng::seed_from_u64(1);
    evaluator.evaluate_generation(&fitness, &mut rng);
    assert!(evaluator.get_fittest_genome().get_fitness() >= 3000);
}
