//! The structural and weight mutation operators of a genome: weight
//! perturbation, add-connection and add-node. Structural mutations draw
//! fresh innovation numbers from the counters passed in and never raise
//! errors: running out of candidates is a silent no-op.

use vstd::prelude::*;

use crate::connection_gene::ConnectionGene;
use crate::connection_gene::disabled_copy;
use crate::counter::Counter;
use crate::genome::Genome;
use crate::node_gene::NodeGene;
use crate::node_gene::NodeGeneType;
use crate::numeric::SCALE;
use crate::numeric::WEIGHT_LIMIT;
use crate::numeric::scale_by_milli;
use crate::numeric::scale_weight;
use crate::reach::acyclic;
use crate::reach::lemma_add_edge_keeps_acyclic;
use crate::reach::reaches;
use crate::reach::vec_contains_i32;
use crate::rng::normal_milli;
use crate::rng::rng_in_range;
use crate::rng::rng_index;

verus! {

/// The direction rules of a fresh connection, after the orientation swap:
/// never into an input, never out of an output, and never between two
/// inputs or two outputs.
pub open spec fn allowed_direction(t1: NodeGeneType, t2: NodeGeneType) -> bool {
    !(t1 == NodeGeneType::INPUT && t2 == NodeGeneType::INPUT) && !(t1 == NodeGeneType::OUTPUT
        && t2 == NodeGeneType::OUTPUT) && !(t1 == NodeGeneType::HIDDEN && t2
        == NodeGeneType::INPUT) && !(t1 == NodeGeneType::OUTPUT && t2 == NodeGeneType::HIDDEN) && !(
    t1 == NodeGeneType::OUTPUT && t2 == NodeGeneType::INPUT)
}

/// Everything an accepted connection mutation guarantees of the gene it
/// adds to the genome `g`: a fresh innovation number, an enabled edge with
/// a weight from `[-1, 1)`, distinct existing endpoints in a legal
/// direction, no duplicate in either direction, and no cycle — the new
/// target did not already reach the new source.
pub open spec fn new_connection_ok(g: Genome, c: ConnectionGene, prev: int) -> bool {
    c.innovation == prev + 1 && c.expressed && -SCALE <= c.weight < SCALE && g.has_node(
        c.in_node as int,
    ) && g.has_node(c.out_node as int) && c.in_node != c.out_node && allowed_direction(
        g.node_at(c.in_node as int).node_type,
        g.node_at(c.out_node as int).node_type,
    ) && !g.has_edge(c.in_node as int, c.out_node as int) && !g.has_edge(
        c.out_node as int,
        c.in_node as int,
    ) && !reaches(g, c.out_node as int, c.in_node as int)
}

/// Everything the weight mutation guarantees: structure untouched, each
/// weight either scaled by a bounded zero-mean factor or replaced by a
/// uniform draw from `[-2, 2)`.
pub open spec fn weight_mutation_post(pre: Genome, post: Genome) -> bool {
    &&& post.nodes@ == pre.nodes@
    &&& post.connections@.len() == pre.connections@.len()
    &&& forall|i: int|
        0 <= i < post.connections@.len() ==> {
            let c0 = pre.connections@[i];
            let c1 = #[trigger] post.connections@[i];
            c1.in_node == c0.in_node && c1.out_node == c0.out_node && c1.expressed == c0.expressed
                && c1.innovation == c0.innovation && ((exists|v: int|
                -(6 * SCALE) <= v <= 6 * SCALE && c1.weight == scale_by_milli(c0.weight as int, v))
                || (-(2 * SCALE) <= c1.weight < 2 * SCALE))
        }
}

/// Everything the add-connection mutation guarantees, over the counter
/// values before and after: either nothing happened, or the counter moved
/// one up and exactly one fresh legal connection was appended.
pub open spec fn connection_mutation_post(pre: Genome, post: Genome, c0: int, c1: int) -> bool {
    ||| (post == pre && c1 == c0)
    ||| {
        &&& c1 == c0 + 1
        &&& post.nodes@ == pre.nodes@
        &&& post.connections@.len() == pre.connections@.len() + 1
        &&& post.connections@.subrange(0, pre.connections@.len() as int) == pre.connections@
        &&& new_connection_ok(pre, post.connections@.last(), c0)
    }
}

/// Everything the add-node mutation guarantees, over both counters'
/// values before and after: either no connection was expressed and
/// nothing happened, or one expressed connection was split.
pub open spec fn node_split_post(
    pre: Genome,
    post: Genome,
    cc0: int,
    cc1: int,
    nc0: int,
    nc1: int,
) -> bool {
    ||| (post == pre && cc1 == cc0 && nc1 == nc0 && (forall|i: int|
        0 <= i < pre.connections@.len() ==> !(#[trigger] pre.connections@[i].expressed)))
    ||| (exists|idx: int|
        #![trigger pre.connections@[idx]]
        {
            let split = pre.connections@[idx];
            &&& 0 <= idx < pre.connections@.len()
            &&& split.expressed
            &&& cc1 == cc0 + 2
            &&& nc1 == nc0 + 1
            &&& post.nodes@ == pre.nodes@.push(
                NodeGene { node_type: NodeGeneType::HIDDEN, id: (nc0 + 1) as i32, layer: 0 },
            )
            &&& post.connections@.len() == pre.connections@.len() + 2
            &&& post.connections@[idx] == disabled_copy(split)
            &&& (forall|i: int|
                0 <= i < pre.connections@.len() && i != idx ==> #[trigger] post.connections@[i]
                    == pre.connections@[i])
            &&& post.connections@[pre.connections@.len() as int] == (ConnectionGene {
                in_node: split.in_node,
                out_node: (nc0 + 1) as i32,
                weight: SCALE,
                expressed: true,
                innovation: (cc0 + 1) as i32,
            })
            &&& post.connections@[pre.connections@.len() as int + 1] == (ConnectionGene {
                in_node: (nc0 + 1) as i32,
                out_node: split.out_node,
                weight: split.weight,
                expressed: true,
                innovation: (cc0 + 2) as i32,
            })
        })
}

impl Genome {
    /// Mutates the weights: each connection keeps its structure, and with
    /// probability `probability_perturbing` (in thousandths) its weight is
    /// scaled by a draw of mean zero and unit standard deviation, otherwise
    /// the weight is replaced by a uniform draw from `[-2, 2)`.
    pub fn mutation(
        &mut self,
        probability_perturbing: i64,
        rng: &mut rand::rngs::StdRng,
    )
        requires
            old(self).wf(),
        ensures
            final(self).wf(),
            weight_mutation_post(*old(self), *final(self)),
    {
        let ghost g0 = *self;
        let mut i: usize = 0;
        while i < self.connections.len()
            invariant
                i <= self.connections@.len(),
                self.nodes@ == g0.nodes@,
                self.connections@.len() == g0.connections@.len(),
                g0.wf(),
                forall|k: int| i <= k < self.connections@.len() ==> #[trigger] self.connections@[k]
                    == g0.connections@[k],
                forall|k: int|
                    0 <= k < i ==> {
                        let c0 = g0.connections@[k];
                        let c1 = #[trigger] self.connections@[k];
                        c1.in_node == c0.in_node && c1.out_node == c0.out_node && c1.expressed
                            == c0.expressed && c1.innovation == c0.innovation && -WEIGHT_LIMIT
                            <= c1.weight <= WEIGHT_LIMIT && ((exists|v: int|
                            -(6 * SCALE) <= v <= 6 * SCALE && c1.weight == scale_by_milli(
                                c0.weight as int,
                                v,
                            )) || (-(2 * SCALE) <= c1.weight < 2 * SCALE))
                    },
            decreases self.connections@.len() - i,
        {
            let roll = rng_in_range(rng, 0, SCALE);
            let c = self.connections[i];
            let new_weight: i64 = if roll < probability_perturbing {
                let v = normal_milli(rng);
                let w = scale_weight(c.get_weight(), v);
                proof {
                    assert(-(6 * SCALE) <= v <= 6 * SCALE && w == scale_by_milli(
                        c.weight as int,
                        v as int,
                    ));
                }
                w
            } else {
                rng_in_range(rng, -(2 * SCALE), 2 * SCALE)
            };
            let mut updated = c;
            updated.set_weight(new_weight);
            self.connections.set(i, updated);
            i = i + 1;
        }
        proof {
            assert forall|a: int, b: int|
                0 <= a < b < self.connections@.len() implies self.connections@[a].innovation
                < self.connections@[b].innovation by {
                assert(g0.connections@[a].innovation < g0.connections@[b].innovation);
            }
            assert forall|k: int| 0 <= k < self.connections@.len() implies self.has_node(
                #[trigger] self.connections@[k].in_node as int,
            ) && self.has_node(self.connections@[k].out_node as int) by {
                assert(g0.has_node(g0.connections@[k].in_node as int));
                assert(g0.has_node(g0.connections@[k].out_node as int));
            }
        }
    }

    /// Tries up to `max_attempts` times to add one fresh enabled connection
    /// between two random existing nodes, with a weight drawn uniformly
    /// from `[-1, 1)`. A candidate pointed the wrong way is turned around;
    /// one that would join two inputs, two outputs or a node to itself,
    /// duplicate an existing edge in either direction, or close a cycle is
    /// rejected. Running out of attempts leaves the genome unchanged. An
    /// acyclic genome stays acyclic through any outcome.
    pub fn add_connection_mutation(
        &mut self,
        innovation: &mut Counter,
        max_attempts: i32,
        rng: &mut rand::rngs::StdRng,
    )
        requires
            old(self).wf(),
            old(self).nodes@.len() > 0,
            0 <= old(innovation).current_innovation < i32::MAX,
            old(self).conns_within(old(innovation).current_innovation as int),
        ensures
            final(self).wf(),
            final(self).nodes@ == old(self).nodes@,
            acyclic(*old(self)) ==> acyclic(*final(self)),
            final(self).conns_within(final(innovation).current_innovation as int),
            old(innovation).current_innovation <= final(innovation).current_innovation,
            connection_mutation_post(
                *old(self),
                *final(self),
                old(innovation).current_innovation as int,
                final(innovation).current_innovation as int,
            ),
    {
        let ghost g0 = *self;
        let ghost c0 = *innovation;
        let mut tries: i32 = 0;
        let mut success: bool = false;
        while tries < max_attempts && !success
            invariant
                self.wf(),
                g0.wf(),
                self.nodes@ == g0.nodes@,
                self.nodes@.len() > 0,
                0 <= c0.current_innovation < i32::MAX,
                g0.conns_within(c0.current_innovation as int),
                acyclic(g0) ==> acyclic(*self),
                self.conns_within(innovation.current_innovation as int),
                c0.current_innovation <= innovation.current_innovation,
                !success ==> *self == g0 && *innovation == c0,
                success ==> (innovation.current_innovation == c0.current_innovation + 1
                    && self.connections@.len() == g0.connections@.len() + 1
                    && self.connections@.subrange(0, g0.connections@.len() as int)
                    == g0.connections@ && new_connection_ok(
                    g0,
                    self.connections@.last(),
                    c0.current_innovation as int,
                )),
            decreases max_attempts - tries,
        {
            tries = tries + 1;
            let ia = rng_index(rng, self.nodes.len());
            let ib = rng_index(rng, self.nodes.len());
            let weight = rng_in_range(rng, -SCALE, SCALE);
            let n1 = self.nodes[ia];
            let n2 = self.nodes[ib];
            let reversed = (n1.get_type() == NodeGeneType::HIDDEN && n2.get_type()
                == NodeGeneType::INPUT) || (n1.get_type() == NodeGeneType::OUTPUT && n2.get_type()
                == NodeGeneType::HIDDEN) || (n1.get_type() == NodeGeneType::OUTPUT && n2.get_type()
                == NodeGeneType::INPUT);
            let a = if reversed {
                n2
            } else {
                n1
            };
            let b = if reversed {
                n1
            } else {
                n2
            };
            let ghost idx_a: int = if reversed {
                ib as int
            } else {
                ia as int
            };
            let ghost idx_b: int = if reversed {
                ia as int
            } else {
                ib as int
            };
            let mut impossible = (a.get_type() == NodeGeneType::INPUT && b.get_type()
                == NodeGeneType::INPUT) || (a.get_type() == NodeGeneType::OUTPUT && b.get_type()
                == NodeGeneType::OUTPUT) || a.get_id() == b.get_id();
            let reach = self.reachable_from(b.get_id());
            if vec_contains_i32(&reach, a.get_id()) {
                impossible = true;
            }
            let exists_edge = self.edge_exists_between(a.get_id(), b.get_id());
            if !impossible && !exists_edge {
                let innov = innovation.get_innovation();
                let gene = ConnectionGene::new(a.get_id(), b.get_id(), weight, true, innov);
                let ghost before = *self;
                self.connections.push(gene);
                proof {
                    assert(before.nodes@[idx_a] == a && before.nodes@[idx_b] == b);
                    before.lemma_node_at_index(idx_a);
                    before.lemma_node_at_index(idx_b);
                    assert(!reaches(before, b.id as int, a.id as int));
                    assert(new_connection_ok(before, gene, c0.current_innovation as int));
                    let s = self.connections@;
                    let t = before.connections@;
                    assert(s.subrange(0, t.len() as int) =~= t);
                    assert forall|i: int, j: int|
                        0 <= i < j < s.len() implies s[i].innovation < s[j].innovation by {
                        if j < t.len() {
                            assert(t[i].innovation < t[j].innovation);
                        } else {
                            assert(s[j] == gene);
                            assert(t[i].innovation <= c0.current_innovation);
                        }
                    }
                    assert forall|k: int| 0 <= k < s.len() implies self.has_node(
                        #[trigger] s[k].in_node as int,
                    ) && self.has_node(s[k].out_node as int) by {
                        if k < t.len() {
                            assert(before.has_node(t[k].in_node as int));
                            assert(before.has_node(t[k].out_node as int));
                        } else {
                            assert(s[k] == gene);
                        }
                    }
                    assert forall|x: int, y: int| #[trigger]
                        self.has_edge(x, y) <==> before.has_edge(x, y) || (x == a.id as int && y
                            == b.id as int) by {
                        if self.has_edge(x, y) {
                            let k = choose|k: int|
                                0 <= k < s.len() && s[k].in_node == x && s[k].out_node == y;
                            if k < t.len() {
                                assert(before.has_edge(x, y));
                            } else {
                                assert(s[k] == gene);
                            }
                        }
                        if before.has_edge(x, y) {
                            let k = choose|k: int|
                                0 <= k < t.len() && t[k].in_node == x && t[k].out_node == y;
                            assert(s[k] == t[k]);
                        }
                        if x == a.id as int && y == b.id as int {
                            assert(s[t.len() as int] == gene);
                        }
                    }
                    if acyclic(g0) {
                        lemma_add_edge_keeps_acyclic(before, *self, a.id as int, b.id as int);
                    }
                }
                success = true;
            }
        }
    }

    /// Splits one randomly chosen expressed connection: disables it, adds a
    /// fresh hidden node, and joins the old endpoints through it with two
    /// new enabled connections — weight one into the new node, the split
    /// connection's weight out of it. A genome without any expressed
    /// connection is left unchanged.
    pub fn add_node_mutation(
        &mut self,
        connection_innovation: &mut Counter,
        node_innovation: &mut Counter,
        rng: &mut rand::rngs::StdRng,
    )
        requires
            old(self).wf(),
            0 <= old(connection_innovation).current_innovation < i32::MAX - 1,
            0 <= old(node_innovation).current_innovation < i32::MAX,
            old(self).conns_within(old(connection_innovation).current_innovation as int),
            old(self).nodes_within(old(node_innovation).current_innovation as int),
        ensures
            final(self).wf(),
            final(self).conns_within(final(connection_innovation).current_innovation as int),
            final(self).nodes_within(final(node_innovation).current_innovation as int),
            old(connection_innovation).current_innovation <= final(connection_innovation).current_innovation,
            old(node_innovation).current_innovation <= final(node_innovation).current_innovation,
            node_split_post(
                *old(self),
                *final(self),
                old(connection_innovation).current_innovation as int,
                final(connection_innovation).current_innovation as int,
                old(node_innovation).current_innovation as int,
                final(node_innovation).current_innovation as int,
            ),
    {
        let ghost g0 = *self;
        let ghost cc0 = connection_innovation.current_innovation as int;
        let ghost nc0 = node_innovation.current_innovation as int;
        let mut suitable: Vec<usize> = Vec::new();
        let mut i: usize = 0;
        while i < self.connections.len()
            invariant
                i <= self.connections@.len(),
                *self == g0,
                forall|k: int|
                    0 <= k < suitable@.len() ==> #[trigger] suitable@[k] < self.connections@.len()
                        && self.connections@[suitable@[k] as int].expressed,
                forall|t: int|
                    0 <= t < i && self.connections@[t].expressed ==> exists|k: int|
                        0 <= k < suitable@.len() && #[trigger] suitable@[k] == t,
            decreases self.connections@.len() - i,
        {
            if self.connections[i].is_expressed() {
                let ghost s0 = suitable@;
                suitable.push(i);
                proof {
                    assert(suitable@[suitable@.len() - 1] == i);
                    assert forall|t: int|
                        0 <= t < i + 1 && self.connections@[t].expressed implies exists|k: int|
                        0 <= k < suitable@.len() && #[trigger] suitable@[k] == t by {
                        if t < i {
                            let k = choose|k: int| 0 <= k < s0.len() && s0[k] == t;
                            assert(suitable@[k] == t);
                        } else {
                            assert(suitable@[suitable@.len() - 1] == t);
                        }
                    }
                }
            }
            i = i + 1;
        }
        if suitable.len() == 0 {
            proof {
                assert forall|i: int| 0 <= i < self.connections@.len() implies !(
                #[trigger] self.connections@[i].expressed) by {
                    if self.connections@[i].expressed {
                        let k = choose|k: int|
                            0 <= k < suitable@.len() && suitable@[k] == i;
                    }
                }
            }
            return ;
        }
        let pick = rng_index(rng, suitable.len());
        let idx = suitable[pick];
        let split = self.connections[idx];
        let mut d = split;
        d.disable();
        self.connections.set(idx, d);
        let new_node_id = node_innovation.get_innovation();
        let new_node = NodeGene::new(NodeGeneType::HIDDEN, new_node_id, 0);
        let in_to_new = ConnectionGene::new(
            split.get_in_node(),
            new_node_id,
            SCALE,
            true,
            connection_innovation.get_innovation(),
        );
        let new_to_out = ConnectionGene::new(
            new_node_id,
            split.get_out_node(),
            split.get_weight(),
            true,
            connection_innovation.get_innovation(),
        );
        self.nodes.push(new_node);
        self.connections.push(in_to_new);
        self.connections.push(new_to_out);
        proof {
            let s = self.connections@;
            let t = g0.connections@;
            let sn = self.nodes@;
            let tn = g0.nodes@;
            assert(sn =~= tn.push(new_node));
            assert forall|x: int, y: int| 0 <= x < y < sn.len() implies sn[x].id < sn[y].id by {
                if y < tn.len() {
                    assert(tn[x].id < tn[y].id);
                } else {
                    assert(sn[y] == new_node);
                    assert(tn[x].id <= nc0);
                }
            }
            assert forall|x: int, y: int|
                0 <= x < y < s.len() implies s[x].innovation < s[y].innovation by {
                if y < t.len() {
                    assert(t[x].innovation < t[y].innovation);
                } else if x < t.len() {
                    assert(s[x].innovation == t[x].innovation);
                    assert(t[x].innovation <= cc0);
                } else {
                }
            }
            assert forall|k: int| 0 <= k < sn.len() implies #[trigger] sn[k].id >= 0 by {
                if k < tn.len() {
                    assert(tn[k].id >= 0);
                }
            }
            assert(g0.has_node(split.in_node as int));
            assert(g0.has_node(split.out_node as int));
            assert forall|k: int| 0 <= k < s.len() implies self.has_node(
                #[trigger] s[k].in_node as int,
            ) && self.has_node(s[k].out_node as int) by {
                assert forall|id: int| g0.has_node(id) implies self.has_node(id) by {
                    let j = choose|j: int| 0 <= j < tn.len() && tn[j].id == id;
                    assert(sn[j].id == id);
                }
                assert(sn[tn.len() as int].id == new_node_id);
                assert(self.has_node(new_node_id as int));
                if k < t.len() {
                    if k == idx {
                        assert(s[k] == disabled_copy(split));
                        assert(g0.has_node(s[k].in_node as int));
                        assert(g0.has_node(s[k].out_node as int));
                    } else {
                        assert(s[k] == t[k]);
                        assert(g0.has_node(t[k].in_node as int));
                        assert(g0.has_node(t[k].out_node as int));
                    }
                } else if k == t.len() {
                    assert(s[k] == in_to_new);
                    assert(g0.has_node(split.in_node as int));
                } else {
                    assert(s[k] == new_to_out);
                    assert(g0.has_node(split.out_node as int));
                }
            }
            assert(-WEIGHT_LIMIT <= split.weight <= WEIGHT_LIMIT);
        }
    }
}

} // verus!
