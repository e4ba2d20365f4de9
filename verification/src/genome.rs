//! The genome: a keyed collection of node genes and connection genes. Nodes
//! are keyed by id, connections by innovation number; both collections are
//! held as vectors in strictly increasing key order, which makes every walk
//! over a genome deterministic and keeps keys unique.

use vstd::prelude::*;

use crate::connection_gene::ConnectionGene;
use crate::node_gene::NodeGene;
use crate::numeric::WEIGHT_LIMIT;

verus! {

/// A network topology: its node genes and connection genes, each vector in
/// strictly increasing key order (see [`Genome::wf`]).
#[derive(Debug, Clone, PartialEq)]
pub struct Genome {
    pub nodes: Vec<NodeGene>,
    pub connections: Vec<ConnectionGene>,
}

impl Genome {
    /// Some node gene carries the id `id`.
    pub open spec fn has_node(self, id: int) -> bool {
        exists|i: int| 0 <= i < self.nodes@.len() && self.nodes@[i].id == id
    }

    /// The node gene with id `id` (meaningful only when `has_node(id)` and
    /// the genome is sorted, which makes the gene unique).
    pub open spec fn node_at(self, id: int) -> NodeGene {
        self.nodes@[choose|i: int| 0 <= i < self.nodes@.len() && self.nodes@[i].id == id]
    }

    /// Some connection gene carries the innovation number `innovation`.
    pub open spec fn has_conn(self, innovation: int) -> bool {
        exists|i: int| 0 <= i < self.connections@.len() && self.connections@[i].innovation == innovation
    }

    /// The connection gene with the given innovation number (meaningful only
    /// when present and sorted).
    pub open spec fn conn_at(self, innovation: int) -> ConnectionGene {
        self.connections@[choose|i: int|
            0 <= i < self.connections@.len() && self.connections@[i].innovation == innovation]
    }

    /// Some connection gene runs from node `a` to node `b`.
    pub open spec fn has_edge(self, a: int, b: int) -> bool {
        exists|i: int|
            0 <= i < self.connections@.len() && self.connections@[i].in_node == a
                && self.connections@[i].out_node == b
    }

    /// Node ids strictly increase along the vector.
    pub open spec fn nodes_sorted(self) -> bool {
        forall|i: int, j: int|
            0 <= i < j < self.nodes@.len() ==> self.nodes@[i].id < self.nodes@[j].id
    }

    /// Innovation numbers strictly increase along the vector.
    pub open spec fn conns_sorted(self) -> bool {
        forall|i: int, j: int|
            0 <= i < j < self.connections@.len()
                ==> self.connections@[i].innovation < self.connections@[j].innovation
    }

    /// Every connection's endpoints name node ids present in this genome.
    pub open spec fn endpoints_closed(self) -> bool {
        forall|i: int|
            0 <= i < self.connections@.len()
                ==> self.has_node(#[trigger] self.connections@[i].in_node as int) && self.has_node(
                self.connections@[i].out_node as int,
            )
    }

    /// Every weight stays within the fixed-point bound.
    pub open spec fn weights_bounded(self) -> bool {
        forall|i: int|
            0 <= i < self.connections@.len()
                ==> -WEIGHT_LIMIT <= #[trigger] self.connections@[i].weight <= WEIGHT_LIMIT
    }

    /// Keys live in the scanned key space `0..`.
    pub open spec fn keys_nonneg(self) -> bool {
        (forall|i: int| 0 <= i < self.nodes@.len() ==> #[trigger] self.nodes@[i].id >= 0)
            && (forall|i: int|
            0 <= i < self.connections@.len() ==> #[trigger] self.connections@[i].innovation >= 0)
    }

    /// Well-formedness: sorted unique keys, connection endpoints present,
    /// weights and keys in range.
    pub open spec fn wf(self) -> bool {
        self.nodes_sorted() && self.conns_sorted() && self.endpoints_closed()
            && self.weights_bounded() && self.keys_nonneg()
    }

    /// The genome holds at least one node and one connection, as the
    /// distance computation demands.
    pub open spec fn populated(self) -> bool {
        self.nodes@.len() > 0 && self.connections@.len() > 0
    }

    /// All node ids lie at or below `bound` (the node counter's value).
    pub open spec fn nodes_within(self, bound: int) -> bool {
        forall|i: int| 0 <= i < self.nodes@.len() ==> #[trigger] self.nodes@[i].id <= bound
    }

    /// All innovation numbers lie at or below `bound` (the connection
    /// counter's value).
    pub open spec fn conns_within(self, bound: int) -> bool {
        forall|i: int|
            0 <= i < self.connections@.len() ==> #[trigger] self.connections@[i].innovation <= bound
    }

    /// The largest node id (meaningful when sorted and nonempty).
    pub open spec fn max_node_id(self) -> int {
        self.nodes@.last().id as int
    }

    /// The largest innovation number (meaningful when sorted and nonempty).
    pub open spec fn max_innovation(self) -> int {
        self.connections@.last().innovation as int
    }

    /// In a sorted genome the index holding a node id is unique, so
    /// `node_at` returns exactly the gene stored at that index.
    pub proof fn lemma_node_at_index(self, i: int)
        requires
            self.nodes_sorted(),
            0 <= i < self.nodes@.len(),
        ensures
            self.has_node(self.nodes@[i].id as int),
            self.node_at(self.nodes@[i].id as int) == self.nodes@[i],
    {
        let id = self.nodes@[i].id as int;
        assert(self.has_node(id));
        let j = choose|j: int| 0 <= j < self.nodes@.len() && self.nodes@[j].id == id;
        if j < i {
            assert(self.nodes@[j].id < self.nodes@[i].id);
        } else if i < j {
            assert(self.nodes@[i].id < self.nodes@[j].id);
        }
    }

    /// The connection-gene twin of [`Self::lemma_node_at_index`].
    pub proof fn lemma_conn_at_index(self, i: int)
        requires
            self.conns_sorted(),
            0 <= i < self.connections@.len(),
        ensures
            self.has_conn(self.connections@[i].innovation as int),
            self.conn_at(self.connections@[i].innovation as int) == self.connections@[i],
    {
        let key = self.connections@[i].innovation as int;
        assert(self.has_conn(key));
        let j = choose|j: int|
            0 <= j < self.connections@.len() && self.connections@[j].innovation == key;
        if j < i {
            assert(self.connections@[j].innovation < self.connections@[i].innovation);
        } else if i < j {
            assert(self.connections@[i].innovation < self.connections@[j].innovation);
        }
    }

    /// In a sorted genome every key lies at or below the last one.
    pub proof fn lemma_last_node_is_max(self)
        requires
            self.nodes_sorted(),
            self.nodes@.len() > 0,
        ensures
            self.nodes_within(self.max_node_id()),
            self.has_node(self.max_node_id()),
    {
        assert forall|i: int| 0 <= i < self.nodes@.len() implies #[trigger] self.nodes@[i].id
            <= self.max_node_id() by {
            if i < self.nodes@.len() - 1 {
                assert(self.nodes@[i].id < self.nodes@[self.nodes@.len() - 1].id);
            }
        }
        assert(self.nodes@[self.nodes@.len() - 1].id == self.max_node_id());
    }

    /// The connection-gene twin of [`Self::lemma_last_node_is_max`].
    pub proof fn lemma_last_conn_is_max(self)
        requires
            self.conns_sorted(),
            self.connections@.len() > 0,
        ensures
            self.conns_within(self.max_innovation()),
            self.has_conn(self.max_innovation()),
    {
        assert forall|i: int| 0 <= i < self.connections@.len() implies #[trigger] self.connections@[i].innovation
            <= self.max_innovation() by {
            if i < self.connections@.len() - 1 {
                assert(self.connections@[i].innovation
                    < self.connections@[self.connections@.len() - 1].innovation);
            }
        }
        assert(self.connections@[self.connections@.len() - 1].innovation == self.max_innovation());
    }

    /// Innovation numbers never repeat within a genome: one counter issues
    /// them strictly increasing, and the sorted order a well-formed genome
    /// keeps makes any two stored connection genes carry distinct markers.
    pub proof fn lemma_innovations_unique(self)
        requires
            self.conns_sorted(),
        ensures
            forall|i: int, j: int|
                0 <= i < j < self.connections@.len() ==> self.connections@[i].innovation
                    != self.connections@[j].innovation,
    {
    }

    /// An empty genome.
    pub fn new() -> (g: Genome)
        ensures
            g.nodes@.len() == 0,
            g.connections@.len() == 0,
            g.wf(),
    {
        Self { nodes: Vec::new(), connections: Vec::new() }
    }

    /// A copy of the connection genes, in innovation order.
    pub fn get_connection_genes(&self) -> (r: Vec<ConnectionGene>)
        ensures
            r@ == self.connections@,
    {
        let mut out: Vec<ConnectionGene> = Vec::new();
        let mut i: usize = 0;
        while i < self.connections.len()
            invariant
                i <= self.connections.len(),
                out@ =~= self.connections@.subrange(0, i as int),
            decreases self.connections.len() - i,
        {
            out.push(self.connections[i]);
            i = i + 1;
        }
        assert(out@ =~= self.connections@);
        out
    }

    /// A copy of the node genes, in id order.
    pub fn get_node_genes(&self) -> (r: Vec<NodeGene>)
        ensures
            r@ == self.nodes@,
    {
        let mut out: Vec<NodeGene> = Vec::new();
        let mut i: usize = 0;
        while i < self.nodes.len()
            invariant
                i <= self.nodes.len(),
                out@ =~= self.nodes@.subrange(0, i as int),
            decreases self.nodes.len() - i,
        {
            out.push(self.nodes[i]);
            i = i + 1;
        }
        assert(out@ =~= self.nodes@);
        out
    }

    /// Whether a node with the given id exists.
    pub fn contains_node_id(&self, id: i32) -> (r: bool)
        ensures
            r == self.has_node(id as int),
    {
        let mut i: usize = 0;
        while i < self.nodes.len()
            invariant
                i <= self.nodes.len(),
                forall|k: int| 0 <= k < i ==> #[trigger] self.nodes@[k].id != id,
            decreases self.nodes.len() - i,
        {
            if self.nodes[i].get_id() == id {
                return true;
            }
            i = i + 1;
        }
        false
    }

    /// Whether a connection with the given innovation number exists.
    pub fn contains_conn_id(&self, innovation: i32) -> (r: bool)
        ensures
            r == self.has_conn(innovation as int),
    {
        let mut i: usize = 0;
        while i < self.connections.len()
            invariant
                i <= self.connections.len(),
                forall|k: int| 0 <= k < i ==> #[trigger] self.connections@[k].innovation != innovation,
            decreases self.connections.len() - i,
        {
            if self.connections[i].get_innovation() == innovation {
                return true;
            }
            i = i + 1;
        }
        false
    }

    /// The node gene carrying `id`, if any.
    pub fn find_node(&self, id: i32) -> (r: Option<NodeGene>)
        requires
            self.nodes_sorted(),
        ensures
            match r {
                Some(n) => self.has_node(id as int) && n == self.node_at(id as int),
                None => !self.has_node(id as int),
            },
    {
        let mut i: usize = 0;
        while i < self.nodes.len()
            invariant
                i <= self.nodes.len(),
                self.nodes_sorted(),
                forall|k: int| 0 <= k < i ==> #[trigger] self.nodes@[k].id != id,
            decreases self.nodes.len() - i,
        {
            if self.nodes[i].get_id() == id {
                proof {
                    self.lemma_node_at_index(i as int);
                }
                return Some(self.nodes[i]);
            }
            i = i + 1;
        }
        None
    }

    /// The position of the connection gene carrying `innovation`, if any.
    pub fn find_conn_index(&self, innovation: i32) -> (r: Option<usize>)
        requires
            self.conns_sorted(),
        ensures
            match r {
                Some(i) => i < self.connections@.len() && self.connections@[i as int].innovation
                    == innovation && self.has_conn(innovation as int) && self.conn_at(
                    innovation as int,
                ) == self.connections@[i as int],
                None => !self.has_conn(innovation as int),
            },
    {
        let mut i: usize = 0;
        while i < self.connections.len()
            invariant
                i <= self.connections.len(),
                self.conns_sorted(),
                forall|k: int| 0 <= k < i ==> #[trigger] self.connections@[k].innovation != innovation,
            decreases self.connections.len() - i,
        {
            if self.connections[i].get_innovation() == innovation {
                proof {
                    self.lemma_conn_at_index(i as int);
                }
                return Some(i);
            }
            i = i + 1;
        }
        None
    }

    /// Whether an edge between `a` and `b` exists in either direction.
    pub fn edge_exists_between(&self, a: i32, b: i32) -> (r: bool)
        ensures
            r == (self.has_edge(a as int, b as int) || self.has_edge(b as int, a as int)),
    {
        let mut i: usize = 0;
        while i < self.connections.len()
            invariant
                i <= self.connections.len(),
                forall|k: int|
                    0 <= k < i ==> !((#[trigger] self.connections@[k].in_node == a
                        && self.connections@[k].out_node == b) || (self.connections@[k].in_node == b
                        && self.connections@[k].out_node == a)),
            decreases self.connections.len() - i,
        {
            let c = &self.connections[i];
            if (c.get_in_node() == a && c.get_out_node() == b) || (c.get_in_node() == b
                && c.get_out_node() == a) {
                return true;
            }
            i = i + 1;
        }
        false
    }

    /// Adds a node gene, keyed by its id: an existing gene with the same id
    /// is replaced, otherwise the gene is placed so that ids stay sorted.
    #[verifier::rlimit(60)]
    pub fn add_node_gene(&mut self, gene: NodeGene)
        requires
            old(self).nodes_sorted(),
        ensures
            final(self).connections@ == old(self).connections@,
            final(self).nodes_sorted(),
            final(self).has_node(gene.id as int),
            final(self).node_at(gene.id as int) == gene,
            forall|k: int| k != gene.id as int ==> final(self).has_node(k) == old(self).has_node(k),
            forall|k: int|
                k != gene.id as int && old(self).has_node(k) ==> final(self).node_at(k) == old(
                    self,
                ).node_at(k),
            forall|i: int|
                0 <= i < final(self).nodes@.len() ==> #[trigger] final(self).nodes@[i] == gene
                    || old(self).nodes@.contains(final(self).nodes@[i]),
            final(self).nodes@.len() == old(self).nodes@.len() + (if old(self).has_node(
                gene.id as int,
            ) {
                0int
            } else {
                1int
            }),
    {
        let ghost pre = *self;
        let mut p: usize = 0;
        while p < self.nodes.len() && self.nodes[p].get_id() < gene.id
            invariant
                *self == pre,
                p <= self.nodes.len(),
                forall|k: int| 0 <= k < p ==> #[trigger] self.nodes@[k].id < gene.id,
            decreases self.nodes.len() - p,
        {
            p = p + 1;
        }
        proof {
            assert forall|k: int| p <= k < self.nodes@.len() && self.nodes@[k].id == gene.id as int
                implies k == p as int by {
                if k > p {
                    assert(self.nodes@[p as int].id < self.nodes@[k].id);
                }
            }
        }
        if p < self.nodes.len() && self.nodes[p].get_id() == gene.id {
            proof {
                pre.lemma_node_at_index(p as int);
            }
            self.nodes.set(p, gene);
            proof {
                assert forall|k: int|
                    k != gene.id as int implies self.has_node(k) == pre.has_node(k) by {
                    if self.has_node(k) {
                        let i = choose|i: int|
                            0 <= i < self.nodes@.len() && self.nodes@[i].id == k;
                        assert(pre.nodes@[i].id == k);
                    }
                    if pre.has_node(k) {
                        let i = choose|i: int|
                            0 <= i < pre.nodes@.len() && pre.nodes@[i].id == k;
                        assert(self.nodes@[i].id == k);
                    }
                }
                assert forall|k: int|
                    k != gene.id as int && pre.has_node(k) implies self.node_at(k) == pre.node_at(
                    k,
                ) by {
                    let i = choose|i: int| 0 <= i < pre.nodes@.len() && pre.nodes@[i].id == k;
                    assert(self.nodes@[i].id == k);
                    self.lemma_node_at_index(i);
                    pre.lemma_node_at_index(i);
                }
                self.lemma_node_at_index(p as int);
                assert forall|i: int|
                    0 <= i < self.nodes@.len() implies #[trigger] self.nodes@[i] == gene
                    || pre.nodes@.contains(self.nodes@[i]) by {
                    if i != p {
                        assert(self.nodes@[i] == pre.nodes@[i]);
                    }
                }
            }
        } else {
            assert(p < self.nodes@.len() ==> self.nodes@[p as int].id > gene.id);
            self.nodes.insert(p, gene);
            proof {
                let s = self.nodes@;
                let t = pre.nodes@;
                assert(forall|k: int| 0 <= k < p ==> s[k] == t[k]);
                assert(s[p as int] == gene);
                assert(forall|k: int| p < k < s.len() ==> s[k] == t[k - 1]);
                assert forall|i: int, j: int| 0 <= i < j < s.len() implies s[i].id < s[j].id by {
                    if j < p {
                    } else if i < p && j == p {
                        assert(s[i] == t[i]);
                    } else if i == p && j > p {
                        assert(s[j] == t[j - 1]);
                        assert(t[j - 1].id >= t[p as int].id);
                    } else if i < p && j > p {
                        assert(s[i] == t[i] && s[j] == t[j - 1]);
                        assert(t[i].id < gene.id);
                        assert(t[j - 1].id > gene.id);
                    } else {
                    }
                }
                assert(!pre.has_node(gene.id as int)) by {
                    if pre.has_node(gene.id as int) {
                        let i = choose|i: int| 0 <= i < t.len() && t[i].id == gene.id as int;
                        if i < p {
                            assert(t[i].id < gene.id);
                        } else {
                            assert(s[i + 1] == t[i]);
                            assert(s[p as int].id < s[i + 1].id || i == p);
                        }
                    }
                }
                assert(self.has_node(gene.id as int)) by {
                    assert(s[p as int].id == gene.id);
                }
                self.lemma_node_at_index(p as int);
                assert forall|k: int|
                    k != gene.id as int implies self.has_node(k) == pre.has_node(k) by {
                    if self.has_node(k) {
                        let i = choose|i: int| 0 <= i < s.len() && s[i].id == k;
                        if i < p {
                            assert(t[i].id == k);
                        } else {
                            assert(i != p);
                            assert(t[i - 1].id == k);
                        }
                    }
                    if pre.has_node(k) {
                        let i = choose|i: int| 0 <= i < t.len() && t[i].id == k;
                        if i < p {
                            assert(s[i].id == k);
                        } else {
                            assert(s[i + 1].id == k);
                        }
                    }
                }
                assert forall|k: int|
                    k != gene.id as int && pre.has_node(k) implies self.node_at(k) == pre.node_at(
                    k,
                ) by {
                    let i = choose|i: int| 0 <= i < t.len() && t[i].id == k;
                    pre.lemma_node_at_index(i);
                    if i < p {
                        assert(s[i].id == k);
                        self.lemma_node_at_index(i);
                    } else {
                        assert(s[i + 1].id == k);
                        self.lemma_node_at_index(i + 1);
                    }
                }
                assert forall|i: int|
                    0 <= i < s.len() implies #[trigger] s[i] == gene || t.contains(s[i]) by {
                    if i < p {
                        assert(s[i] == t[i]);
                    } else if i > p {
                        assert(s[i] == t[i - 1]);
                    }
                }
            }
        }
    }

    /// Adds a connection gene, keyed by its innovation number: an existing
    /// gene with the same number is replaced, otherwise the gene is placed
    /// so that innovation numbers stay sorted.
    #[verifier::rlimit(60)]
    pub fn add_connection_gene(&mut self, gene: ConnectionGene)
        requires
            old(self).conns_sorted(),
        ensures
            final(self).nodes@ == old(self).nodes@,
            final(self).conns_sorted(),
            final(self).has_conn(gene.innovation as int),
            final(self).conn_at(gene.innovation as int) == gene,
            forall|k: int|
                k != gene.innovation as int ==> final(self).has_conn(k) == old(self).has_conn(k),
            forall|k: int|
                k != gene.innovation as int && old(self).has_conn(k) ==> final(self).conn_at(k)
                    == old(self).conn_at(k),
            forall|i: int|
                0 <= i < final(self).connections@.len() ==> #[trigger] final(self).connections@[i]
                    == gene || old(self).connections@.contains(final(self).connections@[i]),
            final(self).connections@.len() == old(self).connections@.len() + (if old(
                self,
            ).has_conn(gene.innovation as int) {
                0int
            } else {
                1int
            }),
    {
        let ghost pre = *self;
        let mut p: usize = 0;
        while p < self.connections.len() && self.connections[p].get_innovation() < gene.innovation
            invariant
                *self == pre,
                p <= self.connections.len(),
                forall|k: int| 0 <= k < p ==> #[trigger] self.connections@[k].innovation < gene.innovation,
            decreases self.connections.len() - p,
        {
            p = p + 1;
        }
        proof {
            assert forall|k: int|
                p <= k < self.connections@.len() && self.connections@[k].innovation
                    == gene.innovation as int implies k == p as int by {
                if k > p {
                    assert(self.connections@[p as int].innovation < self.connections@[k].innovation);
                }
            }
        }
        if p < self.connections.len() && self.connections[p].get_innovation() == gene.innovation {
            proof {
                pre.lemma_conn_at_index(p as int);
            }
            self.connections.set(p, gene);
            proof {
                assert forall|k: int|
                    k != gene.innovation as int implies self.has_conn(k) == pre.has_conn(k) by {
                    if self.has_conn(k) {
                        let i = choose|i: int|
                            0 <= i < self.connections@.len() && self.connections@[i].innovation == k;
                        assert(pre.connections@[i].innovation == k);
                    }
                    if pre.has_conn(k) {
                        let i = choose|i: int|
                            0 <= i < pre.connections@.len() && pre.connections@[i].innovation == k;
                        assert(self.connections@[i].innovation == k);
                    }
                }
                assert forall|k: int|
                    k != gene.innovation as int && pre.has_conn(k) implies self.conn_at(k)
                    == pre.conn_at(k) by {
                    let i = choose|i: int|
                        0 <= i < pre.connections@.len() && pre.connections@[i].innovation == k;
                    assert(self.connections@[i].innovation == k);
                    self.lemma_conn_at_index(i);
                    pre.lemma_conn_at_index(i);
                }
                self.lemma_conn_at_index(p as int);
                assert forall|i: int|
                    0 <= i < self.connections@.len() implies #[trigger] self.connections@[i] == gene
                    || pre.connections@.contains(self.connections@[i]) by {
                    if i != p {
                        assert(self.connections@[i] == pre.connections@[i]);
                    }
                }
            }
        } else {
            assert(p < self.connections@.len() ==> self.connections@[p as int].innovation
                > gene.innovation);
            self.connections.insert(p, gene);
            proof {
                let s = self.connections@;
                let t = pre.connections@;
                assert(forall|k: int| 0 <= k < p ==> s[k] == t[k]);
                assert(s[p as int] == gene);
                assert(forall|k: int| p < k < s.len() ==> s[k] == t[k - 1]);
                assert forall|i: int, j: int|
                    0 <= i < j < s.len() implies s[i].innovation < s[j].innovation by {
                    if j < p {
                    } else if i < p && j == p {
                        assert(s[i] == t[i]);
                    } else if i == p && j > p {
                        assert(s[j] == t[j - 1]);
                        assert(t[j - 1].innovation >= t[p as int].innovation);
                    } else if i < p && j > p {
                        assert(s[i] == t[i] && s[j] == t[j - 1]);
                        assert(t[i].innovation < gene.innovation);
                        assert(t[j - 1].innovation > gene.innovation);
                    } else {
                    }
                }
                assert(!pre.has_conn(gene.innovation as int)) by {
                    if pre.has_conn(gene.innovation as int) {
                        let i = choose|i: int|
                            0 <= i < t.len() && t[i].innovation == gene.innovation as int;
                        if i < p {
                            assert(t[i].innovation < gene.innovation);
                        } else {
                            assert(s[i + 1] == t[i]);
                            assert(s[p as int].innovation < s[i + 1].innovation || i == p);
                        }
                    }
                }
                assert(self.has_conn(gene.innovation as int)) by {
                    assert(s[p as int].innovation == gene.innovation);
                }
                self.lemma_conn_at_index(p as int);
                assert forall|k: int|
                    k != gene.innovation as int implies self.has_conn(k) == pre.has_conn(k) by {
                    if self.has_conn(k) {
                        let i = choose|i: int| 0 <= i < s.len() && s[i].innovation == k;
                        if i < p {
                            assert(t[i].innovation == k);
                        } else {
                            assert(i != p);
                            assert(t[i - 1].innovation == k);
                        }
                    }
                    if pre.has_conn(k) {
                        let i = choose|i: int| 0 <= i < t.len() && t[i].innovation == k;
                        if i < p {
                            assert(s[i].innovation == k);
                        } else {
                            assert(s[i + 1].innovation == k);
                        }
                    }
                }
                assert forall|k: int|
                    k != gene.innovation as int && pre.has_conn(k) implies self.conn_at(k)
                    == pre.conn_at(k) by {
                    let i = choose|i: int| 0 <= i < t.len() && t[i].innovation == k;
                    pre.lemma_conn_at_index(i);
                    if i < p {
                        assert(s[i].innovation == k);
                        self.lemma_conn_at_index(i);
                    } else {
                        assert(s[i + 1].innovation == k);
                        self.lemma_conn_at_index(i + 1);
                    }
                }
                assert forall|i: int|
                    0 <= i < s.len() implies #[trigger] s[i] == gene || t.contains(s[i]) by {
                    if i < p {
                        assert(s[i] == t[i]);
                    } else if i > p {
                        assert(s[i] == t[i - 1]);
                    }
                }
            }
        }
    }

    /// The node-id and connection-innovation keys, each list in stored
    /// (ascending) order.
    pub fn keys_to_vec(&self) -> (r: (Vec<i32>, Vec<i32>))
        ensures
            r.0@.len() == self.nodes@.len(),
            forall|i: int| 0 <= i < r.0@.len() ==> r.0@[i] == #[trigger] self.nodes@[i].id,
            r.1@.len() == self.connections@.len(),
            forall|i: int|
                0 <= i < r.1@.len() ==> r.1@[i] == #[trigger] self.connections@[i].innovation,
    {
        let mut node_keys: Vec<i32> = Vec::new();
        let mut i: usize = 0;
        while i < self.nodes.len()
            invariant
                i <= self.nodes@.len(),
                node_keys@.len() == i,
                forall|k: int| 0 <= k < i ==> node_keys@[k] == #[trigger] self.nodes@[k].id,
            decreases self.nodes@.len() - i,
        {
            node_keys.push(self.nodes[i].get_id());
            i = i + 1;
        }
        let mut conn_keys: Vec<i32> = Vec::new();
        let mut i: usize = 0;
        while i < self.connections.len()
            invariant
                i <= self.connections@.len(),
                conn_keys@.len() == i,
                forall|k: int|
                    0 <= k < i ==> conn_keys@[k] == #[trigger] self.connections@[k].innovation,
            decreases self.connections@.len() - i,
        {
            conn_keys.push(self.connections[i].get_innovation());
            i = i + 1;
        }
        (node_keys, conn_keys)
    }

    /// Sorts a vector of keys into ascending order, keeping exactly the
    /// same keys.
    pub fn as_sorted_vec(c: Vec<i32>) -> (r: Vec<i32>)
        ensures
            r@.len() == c@.len(),
            r@.to_multiset() == c@.to_multiset(),
            forall|i: int, j: int| 0 <= i < j < r@.len() ==> r@[i] <= r@[j],
    {
        let ghost orig = c@;
        let mut rest = c;
        let mut out: Vec<i32> = Vec::new();
        proof {
            broadcast use vstd::multiset::group_multiset_axioms;

            out@.to_multiset_ensures();
            vstd::multiset::lemma_multiset_empty_len(out@.to_multiset());
            assert(out@.to_multiset() =~= vstd::multiset::Multiset::<i32>::empty());
            assert(out@.to_multiset().add(rest@.to_multiset()) =~= orig.to_multiset());
        }
        while rest.len() > 0
            invariant
                out@.to_multiset().add(rest@.to_multiset()) == orig.to_multiset(),
                out@.len() + rest@.len() == orig.len(),
                forall|i: int, j: int| 0 <= i < j < out@.len() ==> out@[i] <= out@[j],
                forall|a: int, b: int|
                    #![trigger out@[a], rest@[b]]
                    0 <= a < out@.len() && 0 <= b < rest@.len() ==> out@[a] <= rest@[b],
            decreases rest@.len(),
        {
            let mut m: usize = 0;
            let mut k: usize = 1;
            while k < rest.len()
                invariant
                    m < rest@.len(),
                    k <= rest@.len(),
                    rest@.len() > 0,
                    forall|t: int| 0 <= t < k ==> rest@[m as int] <= #[trigger] rest@[t],
                decreases rest@.len() - k,
            {
                if rest[k] < rest[m] {
                    m = k;
                }
                k = k + 1;
            }
            let ghost vpre = rest@;
            let ghost opre = out@;
            let x = rest.remove(m);
            out.push(x);
            proof {
                broadcast use vstd::multiset::group_multiset_axioms;

                vpre.to_multiset_ensures();
                opre.to_multiset_ensures();
                assert(rest@.to_multiset() == vpre.to_multiset().remove(x));
                assert(out@.to_multiset() =~= opre.to_multiset().insert(x));
                assert(vpre.contains(vpre[m as int]));
                assert(vpre.to_multiset().count(x) > 0);
                assert(out@.to_multiset().add(rest@.to_multiset()) =~= orig.to_multiset());
                assert forall|b: int| 0 <= b < rest@.len() implies x <= #[trigger] rest@[b] by {
                    if b < m {
                        assert(rest@[b] == vpre[b]);
                    } else {
                        assert(rest@[b] == vpre[b + 1]);
                    }
                }
            }
        }
        proof {
            broadcast use vstd::multiset::group_multiset_axioms;

            rest@.to_multiset_ensures();
            vstd::multiset::lemma_multiset_empty_len(rest@.to_multiset());
            assert(rest@.to_multiset() =~= vstd::multiset::Multiset::<i32>::empty());
            assert(out@.to_multiset() =~= orig.to_multiset());
        }
        out
    }

    /// The largest node id.
    pub fn highest_node_id(&self) -> (r: i32)
        requires
            self.nodes_sorted(),
            self.nodes@.len() > 0,
        ensures
            r == self.max_node_id(),
    {
        self.nodes[self.nodes.len() - 1].get_id()
    }

    /// The largest innovation number.
    pub fn highest_innovation(&self) -> (r: i32)
        requires
            self.conns_sorted(),
            self.connections@.len() > 0,
        ensures
            r == self.max_innovation(),
    {
        self.connections[self.connections.len() - 1].get_innovation()
    }
}

} // verus!
