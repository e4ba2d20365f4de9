//! Crossover: a child genome built from two parents, the fitter parent
//! giving the structure, genes matched by innovation number drawn from
//! either parent at random.

use vstd::prelude::*;

use crate::connection_gene::ConnectionGene;
use crate::connection_gene::disabled_copy;
use crate::genome::Genome;
use crate::numeric::SCALE;
use crate::rng::rng_coin;
use crate::rng::rng_in_range;

verus! {

/// The gene inherited from the less fit parent: its weight and expressed
/// flag on the fitter parent's structure. When the parents are aligned —
/// genes sharing an innovation number share endpoints, as genes marked by
/// one counter do — this is exactly the less fit parent's gene.
pub open spec fn merged_gene(g1: ConnectionGene, g2: ConnectionGene) -> ConnectionGene {
    ConnectionGene { weight: g2.weight, expressed: g2.expressed, ..g1 }
}

/// Every outcome the crossover of one connection gene can take. `g1` is the
/// fitter parent's gene; when the other parent carries the same innovation
/// number the child holds either parent's copy, forced inactive by the
/// disable roll only where a parent held the gene disabled; otherwise the
/// fitter parent's copy is inherited unconditionally.
pub open spec fn crossover_gene_ok(
    g1: ConnectionGene,
    parent_2: Genome,
    out: ConnectionGene,
) -> bool {
    if parent_2.has_conn(g1.innovation as int) {
        let g2 = parent_2.conn_at(g1.innovation as int);
        out == g1 || out == merged_gene(g1, g2) || ((!g1.expressed || !g2.expressed) && (out
            == disabled_copy(g1) || out == disabled_copy(merged_gene(g1, g2))))
    } else {
        out == g1
    }
}

/// Everything crossover guarantees of the whole child: the fitter
/// parent's node genes verbatim, one child gene per fitter-parent gene
/// with the same structure, each within [`crossover_gene_ok`].
pub open spec fn crossover_post(parent_1: Genome, parent_2: Genome, child: Genome) -> bool {
    &&& child.nodes@ == parent_1.nodes@
    &&& child.connections@.len() == parent_1.connections@.len()
    &&& forall|i: int|
        0 <= i < child.connections@.len() ==> {
            let c = #[trigger] child.connections@[i];
            let g1 = parent_1.connections@[i];
            c.innovation == g1.innovation && c.in_node == g1.in_node && c.out_node == g1.out_node
        }
    &&& forall|i: int|
        0 <= i < child.connections@.len() ==> crossover_gene_ok(
            parent_1.connections@[i],
            parent_2,
            #[trigger] child.connections@[i],
        )
}

/// In a sorted genome the gene a key selects is determined by the
/// connection list alone: two genomes sharing it agree on `has_conn` and
/// `conn_at`.
pub proof fn lemma_conn_at_same_view(a: Genome, b: Genome, k: int)
    requires
        a.connections@ == b.connections@,
        a.conns_sorted(),
    ensures
        a.has_conn(k) == b.has_conn(k),
        a.has_conn(k) ==> a.conn_at(k) == b.conn_at(k),
{
    if a.has_conn(k) {
        let i = choose|i: int| 0 <= i < a.connections@.len() && a.connections@[i].innovation == k;
        a.lemma_conn_at_index(i);
        assert(b.connections@[i].innovation == k);
        assert(b.conns_sorted());
        b.lemma_conn_at_index(i);
    }
    if b.has_conn(k) {
        let i = choose|i: int| 0 <= i < b.connections@.len() && b.connections@[i].innovation == k;
        assert(a.connections@[i].innovation == k);
    }
}

/// The crossover relation reads only the parents' gene lists, so it
/// carries over to any genomes holding the same genes.
pub proof fn lemma_crossover_post_same_view(
    p1a: Genome,
    p1b: Genome,
    p2a: Genome,
    p2b: Genome,
    child: Genome,
)
    requires
        p1a.nodes@ == p1b.nodes@,
        p1a.connections@ == p1b.connections@,
        p2a.connections@ == p2b.connections@,
        p2a.conns_sorted(),
        crossover_post(p1a, p2a, child),
    ensures
        crossover_post(p1b, p2b, child),
{
    assert forall|i: int| 0 <= i < child.connections@.len() implies crossover_gene_ok(
        p1b.connections@[i],
        p2b,
        #[trigger] child.connections@[i],
    ) by {
        let g1 = p1a.connections@[i];
        assert(p1b.connections@[i] == g1);
        assert(crossover_gene_ok(g1, p2a, child.connections@[i]));
        lemma_conn_at_same_view(p2a, p2b, g1.innovation as int);
    }
}

impl Genome {
    /// Crosses two parents into a child. `parent_1` must be the fitter
    /// parent: the child takes all its node genes and the structure of all
    /// its connection genes; genes whose innovation number also stands in
    /// `parent_2` take either parent's weight and expressed flag at random,
    /// and a gene disabled in either parent is forced disabled with
    /// probability `disabled_gene_inheriting_chance` (in thousandths).
    /// Genes unique to `parent_2` are never inherited.
    pub fn crossover(
        parent_1: &Genome,
        parent_2: &Genome,
        disabled_gene_inheriting_chance: i64,
        rng: &mut rand::rngs::StdRng,
    ) -> (child: Genome)
        requires
            parent_1.wf(),
            parent_2.wf(),
        ensures
            child.wf(),
            crossover_post(*parent_1, *parent_2, child),
    {
        let mut child = Genome::new();
        let mut i: usize = 0;
        while i < parent_1.nodes.len()
            invariant
                i <= parent_1.nodes.len(),
                child.nodes@ =~= parent_1.nodes@.subrange(0, i as int),
                child.connections@.len() == 0,
            decreases parent_1.nodes.len() - i,
        {
            child.nodes.push(parent_1.nodes[i]);
            i = i + 1;
        }
        assert(child.nodes@ =~= parent_1.nodes@);
        let mut i: usize = 0;
        while i < parent_1.connections.len()
            invariant
                i <= parent_1.connections.len(),
                parent_1.wf(),
                parent_2.wf(),
                child.nodes@ == parent_1.nodes@,
                child.connections@.len() == i,
                forall|k: int|
                    0 <= k < i ==> {
                        let c = #[trigger] child.connections@[k];
                        let g1 = parent_1.connections@[k];
                        c.innovation == g1.innovation && c.in_node == g1.in_node && c.out_node
                            == g1.out_node && -crate::numeric::WEIGHT_LIMIT <= c.weight
                            <= crate::numeric::WEIGHT_LIMIT
                    },
                forall|k: int|
                    0 <= k < i ==> crossover_gene_ok(
                        parent_1.connections@[k],
                        *parent_2,
                        #[trigger] child.connections@[k],
                    ),
            decreases parent_1.connections.len() - i,
        {
            let g1 = parent_1.connections[i];
            match parent_2.find_conn_index(g1.get_innovation()) {
                Some(j) => {
                    let g2 = parent_2.connections[j];
                    let mut gene = if rng_coin(rng) {
                        g1
                    } else {
                        ConnectionGene::new(
                            g1.get_in_node(),
                            g1.get_out_node(),
                            g2.get_weight(),
                            g2.is_expressed(),
                            g1.get_innovation(),
                        )
                    };
                    if !g1.is_expressed() || !g2.is_expressed() {
                        let roll = rng_in_range(rng, 0, SCALE);
                        if roll < disabled_gene_inheriting_chance {
                            gene.disable();
                        }
                    }
                    child.connections.push(gene);
                },
                None => {
                    child.connections.push(g1);
                },
            }
            i = i + 1;
        }
        proof {
            assert forall|a: int, b: int|
                0 <= a < b < child.connections@.len() implies child.connections@[a].innovation
                < child.connections@[b].innovation by {
                assert(parent_1.connections@[a].innovation < parent_1.connections@[b].innovation);
            }
            assert forall|k: int| 0 <= k < child.connections@.len() implies child.has_node(
                #[trigger] child.connections@[k].in_node as int,
            ) && child.has_node(child.connections@[k].out_node as int) by {
                assert(parent_1.has_node(parent_1.connections@[k].in_node as int));
                assert(parent_1.has_node(parent_1.connections@[k].out_node as int));
            }
        }
        child
    }
}

/// Crossing a genome over with itself reproduces it exactly. Matched
/// against itself, either random pick yields the genome's own gene, and the
/// disable roll can only clear an `expressed` flag that is already clear.
pub proof fn lemma_self_crossover(a: Genome, child: Genome)
    requires
        a.conns_sorted(),
        crossover_post(a, a, child),
    ensures
        child.nodes@ == a.nodes@,
        child.connections@ == a.connections@,
{
    assert forall|i: int|
        0 <= i < child.connections@.len() implies child.connections@[i] == a.connections@[i] by {
        a.lemma_conn_at_index(i);
        let g1 = a.connections@[i];
        assert(a.conn_at(g1.innovation as int) == g1);
        assert(merged_gene(g1, g1) == g1);
        if !g1.expressed {
            assert(disabled_copy(g1) == g1);
        }
    }
    assert(child.connections@ =~= a.connections@);
}

} // verus!
