use rand::SeedableRng;
use rand::rngs::StdRng;

use neat::ConnectionGene;
use neat::Counter;
use neat::Genome;
use neat::NodeGene;
use neat::NodeGeneType;

/// A small feed-forward genome: `inputs` input nodes, one output node, and
/// one enabled connection from every input to the output.
fn star_genome(inputs: i32, node_counter: &mut Counter, conn_counter: &mut Counter) -> Genome {
    let mut g = Genome::new();
    let mut input_ids = Vec::new();
    for _ in 0..inputs {
        let id = node_counter.get_innovation();
        input_ids.push(id);
        g.add_node_gene(NodeGene::new(NodeGeneType::INPUT, id, 0));
    }
    let out = node_counter.get_innovation();
    g.add_node_gene(NodeGene::new(NodeGeneType::OUTPUT, out, 1));
    for (k, id) in input_ids.iter().enumerate() {
        g.add_connection_gene(ConnectionGene::new(
            *id,
            out,
            500 + 100 * k as i64,
            true,
            conn_counter.get_innovation(),
        ));
    }
    g
}

#[test]
fn add_node_gene_keeps_ids_sorted_and_replaces() {
    let mut g = Genome::new();
    g.add_node_gene(NodeGene::new(NodeGeneType::OUTPUT, 5, 0));
    g.add_node_gene(NodeGene::new(NodeGeneType::INPUT, 1, 0));
    g.add_node_gene(NodeGene::new(NodeGeneType::HIDDEN, 3, 0));
    let ids: Vec<i32> = g.get_node_genes().iter().map(|n| n.get_id()).collect();
    assert_eq!(ids, vec![1, 3, 5]);
    g.add_node_gene(NodeGene::new(NodeGeneType::HIDDEN, 3, 9));
    let nodes = g.get_node_genes();
    assert_eq!(nodes.len(), 3);
    assert_eq!(nodes[1].get_layer(), 9);
}

#[test]
fn keys_to_vec_and_as_sorted_vec() {
    let mut nodes = Counter::new();
    let mut conns = Counter::new();
    let g = star_genome(3, &mut nodes, &mut conns);
    let (node_keys, conn_keys) = g.keys_to_vec();
    assert_eq!(node_keys, vec![1, 2, 3, 4]);
    assert_eq!(conn_keys, vec![1, 2, 3]);
    assert_eq!(Genome::as_sorted_vec(vec![4, 1, 3, 1, 2]), vec![1, 1, 2, 3, 4]);
    assert_eq!(Genome::as_sorted_vec(Vec::new()), Vec::<i32>::new());
}

#[test]
fn weight_mutation_keeps_structure_and_replacement_range() {
    let mut nodes = Counter::new();
    let mut conns = Counter::new();
    let mut g = star_genome(3, &mut nodes, &mut conns);
    let before = g.get_connection_genes();
    let mut rng = StdRng::seed_from_u64(7);
    // probability zero: every weight is replaced by a uniform draw
    g.mutation(0, &mut rng);
    let after = g.get_connection_genes();
    assert_eq!(before.len(), after.len());
    for (b, a) in before.iter().zip(after.iter()) {
        assert_eq!(b.get_in_node(), a.get_in_node());
        assert_eq!(b.get_out_node(), a.get_out_node());
        assert_eq!(b.get_innovation(), a.get_innovation());
        assert_eq!(b.is_expressed(), a.is_expressed());
        assert!(-2000 <= a.get_weight() && a.get_weight() < 2000);
    }
}

#[test]
fn weight_perturbation_scales_by_bounded_factor() {
    let mut nodes = Counter::new();
    let mut conns = Counter::new();
    let mut g = star_genome(4, &mut nodes, &mut conns);
    let before = g.get_connection_genes();
    let mut rng = StdRng::seed_from_u64(11);
    // probability one: every weight is scaled by a draw within six units
    g.mutation(1000, &mut rng);
    let after = g.get_connection_genes();
    for (b, a) in before.iter().zip(after.iter()) {
        assert!(a.get_weight().abs() <= b.get_weight().abs() * 6);
    }
}

/// Splitting a connection of weight `0.7`: the two fresh connections weigh
/// exactly `1.0` and `0.7`, and the split connection stays, disabled.
#[test]
fn add_node_mutation_splits_a_connection() {
    let mut node_counter = Counter::new();
    let mut conn_counter = Counter::new();
    let mut g = Genome::new();
    let a = node_counter.get_innovation();
    let b = node_counter.get_innovation();
    g.add_node_gene(NodeGene::new(NodeGeneType::INPUT, a, 0));
    g.add_node_gene(NodeGene::new(NodeGeneType::OUTPUT, b, 1));
    let split_innovation = conn_counter.get_innovation();
    g.add_connection_gene(ConnectionGene::new(a, b, 700, true, split_innovation));

    let mut rng = StdRng::seed_from_u64(1);
    g.add_node_mutation(&mut conn_counter, &mut node_counter, &mut rng);

    let conns = g.get_connection_genes();
    assert_eq!(conns.len(), 3);
    let original = conns.iter().find(|c| c.get_innovation() == split_innovation).unwrap();
    assert!(!original.is_expressed());
    assert_eq!(original.get_weight(), 700);

    let new_node_id = node_counter.load_innovation();
    let into_new = conns.iter().find(|c| c.get_out_node() == new_node_id).unwrap();
    let out_of_new = conns.iter().find(|c| c.get_in_node() == new_node_id).unwrap();
    assert_eq!(into_new.get_weight(), 1000);
    assert!(into_new.is_expressed());
    assert_eq!(into_new.get_in_node(), a);
    assert_eq!(out_of_new.get_weight(), 700);
    assert!(out_of_new.is_expressed());
    assert_eq!(out_of_new.get_out_node(), b);

    let hidden = g.get_node_genes().iter().any(|n| {
        n.get_id() == new_node_id && n.get_type() == NodeGeneType::HIDDEN
    });
    assert!(hidden);
}

#[test]
fn add_node_mutation_without_expressed_connection_is_a_no_op() {
    let mut node_counter = Counter::new();
    let mut conn_counter = Counter::new();
    let mut g = Genome::new();
    let a = node_counter.get_innovation();
    let b = node_counter.get_innovation();
    g.add_node_gene(NodeGene::new(NodeGeneType::INPUT, a, 0));
    g.add_node_gene(NodeGene::new(NodeGeneType::OUTPUT, b, 1));
    g.add_connection_gene(ConnectionGene::new(a, b, 700, false, conn_counter.get_innovation()));
    let before_nodes = g.get_node_genes().len();
    let before_conns = g.get_connection_genes().len();
    let mut rng = StdRng::seed_from_u64(1);
    g.add_node_mutation(&mut conn_counter, &mut node_counter, &mut rng);
    assert_eq!(g.get_node_genes().len(), before_nodes);
    assert_eq!(g.get_connection_genes().len(), before_conns);
    assert_eq!(conn_counter.load_innovation(), 1);
}

/// True when some walk of connections (enabled or disabled) returns to its
/// starting node.
fn has_cycle(g: &Genome) -> bool {
    let conns = g.get_connection_genes();
    for start in g.get_node_genes().iter().map(|n| n.get_id()) {
        let mut reach: Vec<i32> = Vec::new();
        let mut queue: Vec<i32> = vec![start];
        while let Some(x) = queue.pop() {
            for c in conns.iter() {
                if c.get_in_node() == x {
                    let y = c.get_out_node();
                    if y == start {
                        return true;
                    }
                    if !reach.contains(&y) {
                        reach.push(y);
                        queue.push(y);
                    }
                }
            }
        }
    }
    false
}

/// Starting from an acyclic genome, accepted add-connection mutations keep
/// it acyclic, checked by reachability after every attempt.
#[test]
fn add_connection_mutation_preserves_acyclicity() {
    let mut node_counter = Counter::new();
    let mut conn_counter = Counter::new();
    let mut g = star_genome(3, &mut node_counter, &mut conn_counter);
    let mut rng = StdRng::seed_from_u64(99);
    assert!(!has_cycle(&g));
    for round in 0..40 {
        g.add_node_mutation(&mut conn_counter, &mut node_counter, &mut rng);
        for _ in 0..3 {
            g.add_connection_mutation(&mut conn_counter, 25, &mut rng);
            assert!(!has_cycle(&g), "cycle after round {}", round);
        }
    }
}

#[test]
fn add_connection_mutation_rejects_input_only_genomes() {
    let mut node_counter = Counter::new();
    let mut conn_counter = Counter::new();
    let mut g = Genome::new();
    for _ in 0..3 {
        let id = node_counter.get_innovation();
        g.add_node_gene(NodeGene::new(NodeGeneType::INPUT, id, 0));
    }
    let mut rng = StdRng::seed_from_u64(5);
    g.add_connection_mutation(&mut conn_counter, 50, &mut rng);
    assert_eq!(g.get_connection_genes().len(), 0);
    assert_eq!(conn_counter.load_innovation(), 0);
}

#[test]
fn innovation_numbers_in_a_genome_never_repeat() {
    let mut node_counter = Counter::new();
    let mut conn_counter = Counter::new();
    let mut g = star_genome(3, &mut node_counter, &mut conn_counter);
    let mut rng = StdRng::seed_from_u64(3);
    for _ in 0..20 {
        g.add_node_mutation(&mut conn_counter, &mut node_counter, &mut rng);
        g.add_connection_mutation(&mut conn_counter, 20, &mut rng);
    }
    let mut keys: Vec<i32> = g.get_connection_genes().iter().map(|c| c.get_innovation()).collect();
    let n = keys.len();
    keys.sort();
    keys.dedup();
    assert_eq!(keys.len(), n);
}
