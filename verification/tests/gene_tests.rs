use neat::Counter;
use neat::NodeGene;
use neat::NodeGeneType;
use neat::ConnectionGene;
use neat::Config;

#[test]
fn counter_starts_at_zero_and_issues_one_first() {
    let mut c = Counter::new();
    assert_eq!(c.load_innovation(), 0);
    assert_eq!(c.get_innovation(), 1);
    assert_eq!(c.get_innovation(), 2);
    assert_eq!(c.load_innovation(), 2);
}

#[test]
fn counter_values_strictly_increase_and_never_repeat() {
    let mut c = Counter::new();
    let mut seen = Vec::new();
    for _ in 0..100 {
        let v = c.get_innovation();
        assert!(seen.iter().all(|&s| s < v));
        seen.push(v);
    }
}

#[test]
fn node_gene_accessors() {
    let mut n = NodeGene::new(NodeGeneType::HIDDEN, 7, 2);
    assert_eq!(n.get_type(), NodeGeneType::HIDDEN);
    assert_eq!(n.get_id(), 7);
    assert_eq!(n.get_layer(), 2);
    n.set_layer(5);
    assert_eq!(n.get_layer(), 5);
    assert_eq!(n.get_id(), 7);
}

#[test]
fn connection_gene_accessors_and_disable() {
    let mut c = ConnectionGene::new(1, 4, 700, true, 9);
    assert_eq!(c.get_in_node(), 1);
    assert_eq!(c.get_out_node(), 4);
    assert_eq!(c.get_weight(), 700);
    assert!(c.is_expressed());
    assert_eq!(c.get_innovation(), 9);
    let copy = c.get_released();
    assert_eq!(copy, c);
    c.disable();
    assert!(!c.is_expressed());
    assert_eq!(c.get_weight(), 700);
    c.set_weight(-1200);
    assert_eq!(c.get_weight(), -1200);
    assert_eq!(c.get_innovation(), 9);
}

#[test]
fn config_defaults_in_thousandths() {
    let c = Config::new(100, 30, 30);
    assert_eq!(c.c1, 1500);
    assert_eq!(c.c2, 800);
    assert_eq!(c.c3, 1000);
    assert_eq!(c.dt, 3000);
    assert_eq!(c.a_sexual_reproduction_rate, 250);
    assert_eq!(c.mutation_rate, 900);
    assert_eq!(c.pertrubing_rate, 900);
    assert_eq!(c.disabled_gene_inheriting_chance, 150);
    assert_eq!(c.add_connection_rate, 250);
    assert_eq!(c.add_node_rate, 230);
    assert_eq!(c.add_layer_rate, 80);
    assert_eq!(c.offspring_from_crossover, 900);
    assert_eq!(c.compatibility_threshold, 1000);
    assert_eq!(c.max_species_staleness_before_kill, 15);
    assert_eq!(c.get_population_size(), 100);
    assert_eq!(c.get_generation_count(), 30);
    assert_eq!(c.max_species, 30);
}
