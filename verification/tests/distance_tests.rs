use rand::SeedableRng;
use rand::rngs::StdRng;
use rand::RngExt;

use neat::ConnectionGene;
use neat::Genome;
use neat::NodeGene;
use neat::NodeGeneType;

fn node(t: NodeGeneType, id: i32) -> NodeGene {
    NodeGene::new(t, id, 0)
}

fn conn(a: i32, b: i32, w: i64, innovation: i32) -> ConnectionGene {
    ConnectionGene::new(a, b, w, true, innovation)
}

/// A genome from explicit node ids and connection genes.
fn build(inputs: &[i32], outputs: &[i32], conns: &[(i32, i32, i64, i32)]) -> Genome {
    let mut g = Genome::new();
    for id in inputs {
        g.add_node_gene(node(NodeGeneType::INPUT, *id));
    }
    for id in outputs {
        g.add_node_gene(node(NodeGeneType::OUTPUT, *id));
    }
    for (a, b, w, i) in conns {
        g.add_connection_gene(conn(*a, *b, *w, *i));
    }
    g
}

/// A genome is at distance zero from itself, whatever the coefficients.
#[test]
fn distance_to_self_is_zero() {
    let g = build(&[1, 2], &[3], &[(1, 3, 700, 1), (2, 3, -400, 2)]);
    assert_eq!(Genome::compatibility_distance(&g, &g, 1000, 1000, 1000), 0);
    assert_eq!(Genome::compatibility_distance(&g, &g, 1500, 800, 1000), 0);
    assert_eq!(Genome::compatibility_distance(&g, &g, 0, 0, 99_000), 0);
}

/// The distance is symmetric under swapped arguments, here on randomized
/// genome pairs: shared structure, random weights and random extra genes.
#[test]
fn distance_is_symmetric() {
    let mut rng = StdRng::seed_from_u64(2024);
    for _ in 0..25 {
        let w1: i64 = rng.random_range(-2000..2000);
        let w2: i64 = rng.random_range(-2000..2000);
        let w3: i64 = rng.random_range(-2000..2000);
        let extra: i32 = rng.random_range(3..9);
        let a = build(&[1, 2], &[3], &[(1, 3, w1, 1), (2, 3, w2, 2)]);
        let b = build(
            &[1, 2],
            &[3, 4],
            &[(1, 3, w3, 1), (2, 3, w1, 2), (1, 4, w2, extra)],
        );
        let d1 = Genome::compatibility_distance(&a, &b, 1500, 800, 1000);
        let d2 = Genome::compatibility_distance(&b, &a, 1500, 800, 1000);
        assert_eq!(d1, d2);
    }
}

/// A handful of pinned alignment counts and the distance formula itself.
#[test]
fn alignment_counts_and_formula() {
    // genome 1: node keys {1,2,3}, connection keys {1,2}
    let g1 = build(&[1, 2], &[3], &[(1, 3, 1000, 1), (2, 3, 500, 2)]);
    // genome 2: node keys {1,2,3,5}, connection keys {1,4}
    let g2 = build(&[1, 2], &[3, 5], &[(1, 3, 200, 1), (2, 3, 900, 4)]);

    // matching: nodes 1,2,3 and connection 1
    assert_eq!(Genome::count_matching_genes(&g1, &g2), 4);
    // excess: node 5 (beyond genome 1's node range) and connection 4
    // (beyond genome 1's connection range)
    assert_eq!(Genome::count_excess_genes(&g1, &g2), 2);
    // disjoint: connection 2, within genome 2's key range
    assert_eq!(Genome::count_disjoint_genes(&g1, &g2), 1);
    // one matching connection with weight gap |1000 - 200| = 800
    assert_eq!(Genome::average_weight_diff(&g1, &g2), 800);
    // c1*E + c2*D + c3*W/1000 with c1=c2=c3=1.0
    assert_eq!(
        Genome::compatibility_distance(&g1, &g2, 1000, 1000, 1000),
        1000 * 2 + 1000 * 1 + 800
    );
}

/// Crossing a genome with itself reproduces it exactly.
#[test]
fn self_crossover_reproduces_the_genome() {
    let mut a = build(&[1, 2], &[3], &[(1, 3, 700, 1), (2, 3, -400, 2)]);
    // one disabled gene, so the disable roll has something to leave alone
    let mut disabled = conn(2, 3, 150, 4);
    disabled.disable();
    a.add_connection_gene(disabled);
    let mut rng = StdRng::seed_from_u64(0);
    for _ in 0..10 {
        let child = Genome::crossover(&a, &a, 500, &mut rng);
        assert_eq!(child.get_node_genes(), a.get_node_genes());
        assert_eq!(child.get_connection_genes(), a.get_connection_genes());
    }
}

/// Genes unique to the less fit parent are never inherited; genes unique
/// to the fitter parent always are.
#[test]
fn crossover_structure_follows_the_fitter_parent() {
    let fitter = build(&[1, 2], &[3], &[(1, 3, 1000, 1), (2, 3, 500, 3)]);
    let weaker = build(&[1, 2], &[3, 4], &[(1, 3, 200, 1), (1, 4, 900, 5)]);
    let mut rng = StdRng::seed_from_u64(8);
    for _ in 0..10 {
        let child = Genome::crossover(&fitter, &weaker, 150, &mut rng);
        assert_eq!(child.get_node_genes(), fitter.get_node_genes());
        let keys: Vec<i32> =
            child.get_connection_genes().iter().map(|c| c.get_innovation()).collect();
        assert_eq!(keys, vec![1, 3]);
        // the matched gene takes one of the parents' weights
        let w = child.get_connection_genes()[0].get_weight();
        assert!(w == 1000 || w == 200);
        // the unmatched gene is the fitter parent's copy
        assert_eq!(child.get_connection_genes()[1].get_weight(), 500);
    }
}

/// A gene disabled in either parent is forced disabled whenever the roll
/// fires; with certainty one the child's matched gene is always disabled.
#[test]
fn crossover_forces_disabled_inheritance_at_certainty() {
    let fitter = build(&[1, 2], &[3], &[(1, 3, 1000, 1)]);
    let mut weaker = build(&[1, 2], &[3], &[(1, 3, 200, 1)]);
    let mut genes = weaker.get_connection_genes();
    genes[0].disable();
    weaker = Genome { nodes: weaker.get_node_genes(), connections: genes };
    let mut rng = StdRng::seed_from_u64(13);
    for _ in 0..10 {
        let child = Genome::crossover(&fitter, &weaker, 1000, &mut rng);
        assert!(!child.get_connection_genes()[0].is_expressed());
    }
}

/// A gene enabled in both parents is never disabled by the roll.
#[test]
fn crossover_never_disables_genes_enabled_in_both() {
    let fitter = build(&[1, 2], &[3], &[(1, 3, 1000, 1)]);
    let weaker = build(&[1, 2], &[3], &[(1, 3, 200, 1)]);
    let mut rng = StdRng::seed_from_u64(13);
    for _ in 0..10 {
        let child = Genome::crossover(&fitter, &weaker, 1000, &mut rng);
        assert!(child.get_connection_genes()[0].is_expressed());
    }
}
