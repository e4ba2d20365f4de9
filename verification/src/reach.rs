//! Forward reachability through a genome's connections, enabled or
//! disabled, and the acyclicity it guards. A candidate edge is rejected
//! when its source is reachable from its target; this module proves that
//! the rule keeps an acyclic genome acyclic.

use vstd::prelude::*;

use crate::genome::Genome;

verus! {

/// `p` walks existing connections: every adjacent pair is an edge.
pub open spec fn is_path(g: Genome, p: Seq<int>) -> bool {
    p.len() >= 2 && forall|i: int| 0 <= i < p.len() - 1 ==> g.has_edge(#[trigger] p[i], p[i + 1])
}

/// Some walk of one or more connections leads from `a` to `b`.
pub open spec fn reaches(g: Genome, a: int, b: int) -> bool {
    exists|p: Seq<int>| is_path(g, p) && p.first() == a && p.last() == b
}

/// `a` reaches `b`, or is `b`.
pub open spec fn reaches_or_eq(g: Genome, a: int, b: int) -> bool {
    a == b || reaches(g, a, b)
}

/// No walk returns to its starting node.
pub open spec fn acyclic(g: Genome) -> bool {
    forall|a: int| !reaches(g, a, a)
}

/// One connection is a walk.
proof fn lemma_edge_reaches(g: Genome, a: int, b: int)
    requires
        g.has_edge(a, b),
    ensures
        reaches(g, a, b),
{
    let p: Seq<int> = seq![a, b];
    assert(is_path(g, p));
    assert(p.first() == a && p.last() == b);
}

/// A walk followed by one more connection is a walk.
proof fn lemma_reaches_step(g: Genome, a: int, b: int, c: int)
    requires
        reaches(g, a, b),
        g.has_edge(b, c),
    ensures
        reaches(g, a, c),
{
    let p = choose|p: Seq<int>| is_path(g, p) && p.first() == a && p.last() == b;
    let q = p.push(c);
    assert forall|i: int| 0 <= i < q.len() - 1 implies g.has_edge(#[trigger] q[i], q[i + 1]) by {
        if i < p.len() - 1 {
            assert(q[i] == p[i] && q[i + 1] == p[i + 1]);
        } else {
            assert(q[i] == p.last() && q[i + 1] == c);
        }
    }
    assert(is_path(g, q));
    assert(q.first() == a && q.last() == c);
}

/// Two walks sharing an endpoint compose into one.
proof fn lemma_reaches_trans(g: Genome, a: int, b: int, c: int)
    requires
        reaches(g, a, b),
        reaches(g, b, c),
    ensures
        reaches(g, a, c),
{
    let q = choose|q: Seq<int>| is_path(g, q) && q.first() == b && q.last() == c;
    lemma_reach_along(g, a, b, q);
}

/// Walking a path from a node already reached keeps every stop reached.
proof fn lemma_reach_along(g: Genome, a: int, b: int, q: Seq<int>)
    requires
        reaches(g, a, b),
        is_path(g, q),
        q.first() == b,
    ensures
        reaches(g, a, q.last()),
    decreases q.len(),
{
    if q.len() == 2 {
        lemma_reaches_step(g, a, b, q[1]);
    } else {
        assert(g.has_edge(q[0], q[1]));
        lemma_reaches_step(g, a, b, q[1]);
        let q2 = q.subrange(1, q.len() as int);
        assert forall|i: int| 0 <= i < q2.len() - 1 implies g.has_edge(
            #[trigger] q2[i],
            q2[i + 1],
        ) by {
            assert(q2[i] == q[i + 1] && q2[i + 1] == q[i + 2]);
        }
        assert(is_path(g, q2));
        lemma_reach_along(g, a, q[1], q2);
        assert(q2.last() == q.last());
    }
}

/// Walks from a node of `s` end inside `r`, when every edge out of `s`
/// lands in `r` and `r` stays inside `s`.
proof fn lemma_closed_set_catches_path(g: Genome, s: Set<int>, r: Set<int>, p: Seq<int>)
    requires
        is_path(g, p),
        s.contains(p.first()),
        forall|a: int, b: int| s.contains(a) && g.has_edge(a, b) ==> r.contains(b),
        forall|x: int| r.contains(x) ==> s.contains(x),
    ensures
        r.contains(p.last()),
    decreases p.len(),
{
    assert(g.has_edge(p[0], p[1]));
    assert(r.contains(p[1]));
    if p.len() > 2 {
        let p2 = p.subrange(1, p.len() as int);
        assert forall|i: int| 0 <= i < p2.len() - 1 implies g.has_edge(
            #[trigger] p2[i],
            p2[i + 1],
        ) by {
            assert(p2[i] == p[i + 1] && p2[i + 1] == p[i + 2]);
        }
        assert(is_path(g, p2));
        lemma_closed_set_catches_path(g, s, r, p2);
        assert(p2.last() == p.last());
    }
}

/// Every walk of the genome extended by the one edge `u -> v` either stays
/// a walk of the old genome, or passes through the new edge: its start
/// reaches `u` and `v` reaches its end, in the old genome.
proof fn lemma_new_edge_paths(g: Genome, g2: Genome, u: int, v: int, p: Seq<int>)
    requires
        forall|a: int, b: int|
            #[trigger] g2.has_edge(a, b) <==> g.has_edge(a, b) || (a == u && b == v),
        is_path(g2, p),
    ensures
        reaches(g, p.first(), p.last()) || (reaches_or_eq(g, p.first(), u) && reaches_or_eq(
            g,
            v,
            p.last(),
        )),
    decreases p.len(),
{
    assert(g2.has_edge(p[0], p[1]));
    if p.len() == 2 {
        if g.has_edge(p[0], p[1]) {
            lemma_edge_reaches(g, p[0], p[1]);
        }
    } else {
        let p2 = p.subrange(1, p.len() as int);
        assert forall|i: int| 0 <= i < p2.len() - 1 implies g2.has_edge(
            #[trigger] p2[i],
            p2[i + 1],
        ) by {
            assert(p2[i] == p[i + 1] && p2[i + 1] == p[i + 2]);
        }
        assert(is_path(g2, p2));
        lemma_new_edge_paths(g, g2, u, v, p2);
        assert(p2.first() == p[1] && p2.last() == p.last());
        if g.has_edge(p[0], p[1]) {
            lemma_edge_reaches(g, p[0], p[1]);
            if reaches(g, p[1], p.last()) {
                lemma_reaches_trans(g, p[0], p[1], p.last());
            } else {
                if p[1] == u {
                } else {
                    lemma_reaches_trans(g, p[0], p[1], u);
                }
            }
        } else {
            assert(p[0] == u && p[1] == v);
        }
    }
}

/// Adding the edge `u -> v` to an acyclic genome keeps it acyclic, as long
/// as `v` does not already reach `u` and the edge is no self-loop. This is
/// exactly what the reachability check of the add-connection mutation
/// establishes before it accepts an edge.
pub proof fn lemma_add_edge_keeps_acyclic(g: Genome, g2: Genome, u: int, v: int)
    requires
        acyclic(g),
        u != v,
        !reaches(g, v, u),
        forall|a: int, b: int|
            #[trigger] g2.has_edge(a, b) <==> g.has_edge(a, b) || (a == u && b == v),
    ensures
        acyclic(g2),
{
    assert forall|a: int| !reaches(g2, a, a) by {
        if reaches(g2, a, a) {
            let p = choose|p: Seq<int>| is_path(g2, p) && p.first() == a && p.last() == a;
            lemma_new_edge_paths(g, g2, u, v, p);
            if reaches(g, a, a) {
            } else {
                if a == u {
                    if v == a {
                    } else {
                        assert(reaches(g, v, u));
                    }
                } else {
                    assert(reaches(g, a, u));
                    if v == a {
                        assert(reaches(g, v, u));
                    } else {
                        lemma_reaches_trans(g, v, a, u);
                    }
                }
            }
        }
    }
}

/// Whether `x` stands in `v`.
pub(crate) fn vec_contains_i32(v: &Vec<i32>, x: i32) -> (r: bool)
    ensures
        r == v@.contains(x),
{
    let mut i: usize = 0;
    while i < v.len()
        invariant
            i <= v.len(),
            forall|k: int| 0 <= k < i ==> v@[k] != x,
        decreases v.len() - i,
    {
        if v[i] == x {
            return true;
        }
        i = i + 1;
    }
    false
}

/// The out-nodes of all connections, in connection order.
pub open spec fn outs_of(g: Genome) -> Seq<i32> {
    g.connections@.map(|t: int, c: crate::connection_gene::ConnectionGene| c.out_node)
}

/// Appends an element known to be absent, keeping the list duplicate-free,
/// and says exactly what is contained afterwards.
fn push_unique(v: &mut Vec<i32>, x: i32)
    requires
        !old(v)@.contains(x),
        old(v)@.no_duplicates(),
    ensures
        final(v)@ == old(v)@.push(x),
        final(v)@.no_duplicates(),
        final(v)@.len() == old(v)@.len() + 1,
        forall|y: i32| final(v)@.contains(y) <==> old(v)@.contains(y) || y == x,
        forall|j: int| 0 <= j < old(v)@.len() ==> final(v)@[j] == old(v)@[j],
        final(v)@[old(v)@.len() as int] == x,
    {
    let ghost r0 = v@;
    v.push(x);
    proof {
        assert forall|i: int, j: int| 0 <= i < j < v@.len() implies v@[i] != v@[j] by {
            if j < r0.len() {
            } else {
                assert(v@[j] == x);
                assert(v@[i] == r0[i]);
                assert(r0.contains(r0[i]));
            }
        }
        assert forall|y: i32| v@.contains(y) implies r0.contains(y) || y == x by {
            let k = choose|k: int| 0 <= k < v@.len() && v@[k] == y;
            if k < r0.len() {
                assert(r0[k] == y);
            }
        }
        assert forall|y: i32| r0.contains(y) || y == x implies v@.contains(y) by {
            if r0.contains(y) {
                let k = choose|k: int| 0 <= k < r0.len() && r0[k] == y;
                assert(v@[k] == y);
            } else {
                assert(v@[r0.len() as int] == y);
            }
        }
    }
}

impl Genome {
    /// The set of nodes forward-reachable from `start` through existing
    /// connections, enabled or disabled: exactly those nodes that some walk
    /// from `start` ends at.
    pub fn reachable_from(&self, start: i32) -> (reach: Vec<i32>)
        ensures
            forall|j: int|
                0 <= j < reach@.len() ==> reaches(*self, start as int, #[trigger] reach@[j] as int),
            forall|b: i32| reaches(*self, start as int, b as int) ==> reach@.contains(b),
    {
        let g = self;
        let mut reach: Vec<i32> = Vec::new();
        let mut c: usize = 0;
        while c < g.connections.len()
            invariant
                c <= g.connections.len(),
                reach@.no_duplicates(),
                forall|j: int| 0 <= j < reach@.len() ==> outs_of(*g).contains(#[trigger] reach@[j]),
                forall|j: int|
                    0 <= j < reach@.len() ==> g.has_edge(start as int, #[trigger] reach@[j] as int),
                forall|t: int|
                    0 <= t < c && g.connections@[t].in_node == start
                        ==> reach@.contains(#[trigger] g.connections@[t].out_node),
            decreases g.connections.len() - c,
        {
            if g.connections[c].get_in_node() == start {
                let out = g.connections[c].get_out_node();
                proof {
                    assert(outs_of(*g)[c as int] == out);
                    assert(outs_of(*g).contains(out));
                    assert(g.has_edge(start as int, out as int));
                }
                if !vec_contains_i32(&reach, out) {
                    push_unique(&mut reach, out);
                }
            }
            c = c + 1;
        }
        proof {
            assert forall|j: int| 0 <= j < reach@.len() implies reaches(
                *g,
                start as int,
                #[trigger] reach@[j] as int,
            ) by {
                lemma_edge_reaches(*g, start as int, reach@[j] as int);
            }
        }
        let mut qi: usize = 0;
        while qi < reach.len()
            invariant
                qi <= reach@.len(),
                reach@.no_duplicates(),
                forall|j: int| 0 <= j < reach@.len() ==> outs_of(*g).contains(#[trigger] reach@[j]),
                forall|j: int|
                    0 <= j < reach@.len() ==> reaches(*g, start as int, #[trigger] reach@[j] as int),
                forall|t: int|
                    0 <= t < g.connections@.len() && g.connections@[t].in_node == start
                        ==> reach@.contains(#[trigger] g.connections@[t].out_node),
                forall|j: int, t: int|
                    #![trigger reach@[j], g.connections@[t]]
                    0 <= j < qi && 0 <= t < g.connections@.len() && g.connections@[t].in_node
                        == reach@[j] ==> reach@.contains(g.connections@[t].out_node),
            decreases g.connections@.len() + 1 - qi,
        {
            proof {
                lemma_reach_fits(*g, reach@);
            }
            let x = reach[qi];
            let ghost fixed = reach@.subrange(0, qi as int);
            let mut c: usize = 0;
            while c < g.connections.len()
                invariant
                    c <= g.connections.len(),
                    qi < reach@.len(),
                    reach@[qi as int] == x,
                    fixed == reach@.subrange(0, qi as int),
                    reach@.no_duplicates(),
                    forall|j: int|
                        0 <= j < reach@.len() ==> outs_of(*g).contains(#[trigger] reach@[j]),
                    forall|j: int|
                        0 <= j < reach@.len() ==> reaches(
                            *g,
                            start as int,
                            #[trigger] reach@[j] as int,
                        ),
                    forall|t: int|
                        0 <= t < g.connections@.len() && g.connections@[t].in_node == start
                            ==> reach@.contains(#[trigger] g.connections@[t].out_node),
                    forall|j: int, t: int|
                        #![trigger reach@[j], g.connections@[t]]
                        0 <= j < qi && 0 <= t < g.connections@.len() && g.connections@[t].in_node
                            == reach@[j] ==> reach@.contains(g.connections@[t].out_node),
                    forall|t: int|
                        0 <= t < c && g.connections@[t].in_node == x ==> reach@.contains(
                            #[trigger] g.connections@[t].out_node,
                        ),
                decreases g.connections.len() - c,
            {
                if g.connections[c].get_in_node() == x {
                    let out = g.connections[c].get_out_node();
                    proof {
                        assert(outs_of(*g)[c as int] == out);
                        assert(outs_of(*g).contains(out));
                        assert(g.has_edge(x as int, out as int));
                        lemma_reaches_step(*g, start as int, x as int, out as int);
                    }
                    if !vec_contains_i32(&reach, out) {
                        push_unique(&mut reach, out);
                    }
                }
                c = c + 1;
            }
            qi = qi + 1;
        }
        proof {
            let r = Set::new(
                |n: int| exists|j: int| 0 <= j < reach@.len() && reach@[j] as int == n,
            );
            let s = Set::new(
                |n: int|
                    n == start as int || exists|j: int|
                        0 <= j < reach@.len() && reach@[j] as int == n,
            );
            assert forall|a: int, b: int| s.contains(a) && g.has_edge(a, b) implies r.contains(
                b,
            ) by {
                let t = choose|t: int|
                    0 <= t < g.connections@.len() && g.connections@[t].in_node == a
                        && g.connections@[t].out_node == b;
                if a == start as int {
                    assert(reach@.contains(g.connections@[t].out_node));
                    let j = choose|j: int|
                        0 <= j < reach@.len() && reach@[j] == g.connections@[t].out_node;
                    assert(reach@[j] as int == b);
                } else {
                    let j = choose|j: int| 0 <= j < reach@.len() && reach@[j] as int == a;
                    assert(g.connections@[t].in_node == reach@[j]);
                    assert(reach@.contains(g.connections@[t].out_node));
                    let j2 = choose|j2: int|
                        0 <= j2 < reach@.len() && reach@[j2] == g.connections@[t].out_node;
                    assert(reach@[j2] as int == b);
                }
            }
            assert forall|b: i32| reaches(*g, start as int, b as int) implies reach@.contains(
                b,
            ) by {
                let p = choose|p: Seq<int>|
                    is_path(*g, p) && p.first() == start as int && p.last() == b as int;
                assert(s.contains(p.first()));
                lemma_closed_set_catches_path(*g, s, r, p);
                let j = choose|j: int| 0 <= j < reach@.len() && reach@[j] as int == b as int;
                assert(reach@[j] == b);
            }
        }
        reach
    }
}

/// A duplicate-free list of out-nodes cannot outgrow the connection list.
proof fn lemma_reach_fits(g: Genome, reach: Seq<i32>)
    requires
        reach.no_duplicates(),
        forall|j: int| 0 <= j < reach.len() ==> outs_of(g).contains(#[trigger] reach[j]),
    ensures
        reach.len() <= g.connections@.len(),
{
    let outs = outs_of(g);
    reach.unique_seq_to_set();
    outs.lemma_cardinality_of_set();
    assert(reach.to_set().subset_of(outs.to_set())) by {
        assert forall|x: i32| reach.to_set().contains(x) implies outs.to_set().contains(x) by {
            assert(reach.contains(x));
            let j = choose|j: int| 0 <= j < reach.len() && reach[j] == x;
            assert(outs.contains(reach[j]));
        }
    }
    vstd::set_lib::lemma_len_subset(reach.to_set(), outs.to_set());
}

} // verus!
