use rand::SeedableRng;
use rand::rngs::StdRng;

use neat::Config;
use neat::ConnectionGene;
use neat::Counter;
use neat::FitnessGenome;
use neat::Genome;
use neat::NodeGene;
use neat::NodeGeneType;
use neat::Species;

fn simple_genome(weight: i64) -> Genome {
    let mut g = Genome::new();
    g.add_node_gene(NodeGene::new(NodeGeneType::INPUT, 1, 0));
    g.add_node_gene(NodeGene::new(NodeGeneType::OUTPUT, 2, 1));
    g.add_connection_gene(ConnectionGene::new(1, 2, weight, true, 1));
    g
}

fn species_with_fitness(scores: &[i64]) -> Species {
    let rep = simple_genome(500);
    let mut s = Species::new(rep);
    s.players.clear();
    for f in scores {
        s.add_player(FitnessGenome::new(simple_genome(500), *f));
    }
    s
}

/// Killing a one-player species reports `false` and leaves the roster
/// unchanged; killing a five-player species keeps exactly the three
/// players at indices 0, 1 and 2 of the sorted roster.
#[test]
fn kill_keeps_the_inclusive_half() {
    let mut lone = species_with_fitness(&[4000]);
    assert!(!lone.kill());
    assert_eq!(lone.players.len(), 1);
    assert_eq!(lone.players[0].get_fitness(), 4000);

    let mut five = species_with_fitness(&[1000, 5000, 3000, 2000, 4000]);
    assert!(five.kill());
    assert_eq!(five.players.len(), 3);
    let fitness: Vec<i64> = five.players.iter().map(|p| p.get_fitness()).collect();
    assert_eq!(fitness, vec![5000, 4000, 3000]);
}

#[test]
fn kill_boundary_on_even_rosters() {
    let mut four = species_with_fitness(&[1000, 2000, 3000, 4000]);
    assert!(four.kill());
    assert_eq!(four.players.len(), 3);
    let mut two = species_with_fitness(&[1000, 2000]);
    assert!(two.kill());
    assert_eq!(two.players.len(), 2);
}

#[test]
fn sort_players_orders_and_tracks_staleness() {
    let mut s = species_with_fitness(&[1000, 3000, 2000]);
    s.sort_players();
    let fitness: Vec<i64> = s.players.iter().map(|p| p.get_fitness()).collect();
    assert_eq!(fitness, vec![3000, 2000, 1000]);
    // the best improved on the initial zero: staleness reset, best adopted
    assert_eq!(s.staleness, 0);
    assert_eq!(s.get_best_fitness(), 3000);
    // no improvement the second time: the species ages
    s.sort_players();
    assert_eq!(s.staleness, 1);
    assert_eq!(s.get_best_fitness(), 3000);
}

#[test]
fn fitness_sharing_divides_by_roster_size() {
    let mut s = species_with_fitness(&[1000, 500]);
    s.fitness_sharing();
    let fitness: Vec<i64> = s.players.iter().map(|p| p.get_fitness()).collect();
    assert_eq!(fitness, vec![500, 250]);
}

#[test]
fn average_fitness_is_stored_and_returned() {
    let mut s = species_with_fitness(&[1000, 500, 300]);
    let avg = s.get_average_fitness();
    assert_eq!(avg, 600);
    assert_eq!(s.average_fitness, 600);
    let mut empty = species_with_fitness(&[]);
    assert_eq!(empty.get_average_fitness(), 0);
}

#[test]
fn same_species_accepts_its_own_representative() {
    let rep = simple_genome(500);
    let mut s = Species::new(rep);
    let mut config = Config::new(10, 5, 10);
    config.compatibility_threshold = 1000;
    assert!(s.same_species(simple_genome(500), &config));
    // a far-away weight pushes the mean weight difference over the threshold
    assert!(!s.same_species(simple_genome(-2000), &config));
}

#[test]
fn same_species_rejects_genomes_sharing_no_connection_key() {
    let rep = simple_genome(500);
    let mut s = Species::new(rep);
    let config = Config::new(10, 5, 10);
    let mut other = Genome::new();
    other.add_node_gene(NodeGene::new(NodeGeneType::INPUT, 1, 0));
    other.add_node_gene(NodeGene::new(NodeGeneType::OUTPUT, 2, 1));
    other.add_connection_gene(ConnectionGene::new(1, 2, 500, true, 7));
    assert!(!s.same_species(other, &config));
}

#[test]
fn select_parent_returns_a_roster_member() {
    let mut s = species_with_fitness(&[1000, 2000, 3000]);
    let mut rng = StdRng::seed_from_u64(21);
    for _ in 0..20 {
        let p = s.select_parent(&mut rng);
        assert!(s.players.iter().any(|q| q.get_fitness() == p.get_fitness()));
    }
}

#[test]
fn select_parent_handles_an_all_zero_roster() {
    let mut s = species_with_fitness(&[0, 0, 0]);
    let mut rng = StdRng::seed_from_u64(33);
    let p = s.select_parent(&mut rng);
    assert_eq!(p.get_fitness(), 0);
}

#[test]
fn generate_offspring_breeds_an_unscored_child() {
    let mut s = species_with_fitness(&[1000, 2000]);
    let mut conn_counter = Counter::new();
    let mut node_counter = Counter::new();
    conn_counter.current_innovation = 10;
    node_counter.current_innovation = 10;
    let config = Config::new(10, 5, 10);
    let mut rng = StdRng::seed_from_u64(4);
    let child = s.generate_offspring(&mut conn_counter, &mut node_counter, &config, &mut rng);
    assert_eq!(child.get_fitness(), 0);
    assert!(child.get_genome().get_node_genes().len() >= 2);
    assert!(child.get_genome().get_connection_genes().len() >= 1);
}

#[test]
fn sort_species_ranks_worst_first() {
    let a = species_with_fitness(&[1000]);
    let b = species_with_fitness(&[3000]);
    let c = species_with_fitness(&[2000]);
    let mut list = vec![a, b, c];
    Species::sort_species(&mut list);
    let best: Vec<i64> = list.iter().map(|s| s.get_best_fitness()).collect();
    assert_eq!(best, vec![1000, 2000, 3000]);
}

#[test]
fn refresh_best_fitness_records_the_top_player() {
    let mut s = species_with_fitness(&[700, 2500, 1200]);
    let best = s.refresh_best_fitness();
    assert_eq!(best, 2500);
    assert_eq!(s.get_best_fitness(), 2500);
}

#[test]
fn get_best_player_sorts_and_copies_the_leader() {
    let mut s = species_with_fitness(&[700, 2500, 1200]);
    let best = s.get_best_player();
    assert_eq!(best.get_fitness(), 2500);
    assert_eq!(s.players[0].get_fitness(), 2500);
}

#[test]
fn add_player_appends() {
    let mut s = species_with_fitness(&[100]);
    s.add_player(FitnessGenome::new(simple_genome(500), 900));
    assert_eq!(s.players.len(), 2);
    assert_eq!(s.players[1].get_fitness(), 900);
}
