//! Alignment of two genomes' gene keys, and the compatibility distance
//! built from it. Keys are scanned from 0 to the larger genome's maximum
//! key, independently for node-id space and connection-innovation space: a
//! key present in both genomes is matching, one present in exactly one
//! genome and beyond the other's maximum key is excess, one present in
//! exactly one genome but within both key ranges is disjoint.

use vstd::prelude::*;

use crate::genome::Genome;
use crate::numeric::COEFF_LIMIT;
use crate::numeric::SCALE;
use crate::numeric::WEIGHT_LIMIT;
use crate::numeric::abs_int;

verus! {

/// Key presence in one of the two key spaces: connection-innovation space
/// when `conn_space` holds, node-id space otherwise.
pub open spec fn in_space(g: Genome, conn_space: bool, k: int) -> bool {
    if conn_space {
        g.has_conn(k)
    } else {
        g.has_node(k)
    }
}

/// The largest key of the space (meaningful for sorted, populated genomes).
pub open spec fn space_top(g: Genome, conn_space: bool) -> int {
    if conn_space {
        g.max_innovation()
    } else {
        g.max_node_id()
    }
}

/// The last key the alignment scan of a space visits.
pub open spec fn scan_top(g1: Genome, g2: Genome, conn_space: bool) -> int {
    if space_top(g1, conn_space) >= space_top(g2, conn_space) {
        space_top(g1, conn_space)
    } else {
        space_top(g2, conn_space)
    }
}

/// How many keys below `k` are present in both genomes.
pub open spec fn matching_upto(g1: Genome, g2: Genome, conn_space: bool, k: nat) -> int
    decreases k,
{
    if k == 0 {
        0
    } else {
        matching_upto(g1, g2, conn_space, (k - 1) as nat) + if in_space(g1, conn_space, k - 1)
            && in_space(g2, conn_space, k - 1) {
            1int
        } else {
            0int
        }
    }
}

/// How many keys below `k` are present in exactly one genome and beyond the
/// other genome's maximum key.
pub open spec fn excess_upto(g1: Genome, g2: Genome, conn_space: bool, k: nat) -> int
    decreases k,
{
    if k == 0 {
        0
    } else {
        excess_upto(g1, g2, conn_space, (k - 1) as nat) + if in_space(g1, conn_space, k - 1)
            && !in_space(g2, conn_space, k - 1) && k - 1 > space_top(g2, conn_space) {
            1int
        } else if in_space(g2, conn_space, k - 1) && !in_space(g1, conn_space, k - 1) && k - 1
            > space_top(g1, conn_space) {
            1int
        } else {
            0int
        }
    }
}

/// How many keys below `k` are present in exactly one genome but within the
/// other genome's key range.
pub open spec fn disjoint_upto(g1: Genome, g2: Genome, conn_space: bool, k: nat) -> int
    decreases k,
{
    if k == 0 {
        0
    } else {
        disjoint_upto(g1, g2, conn_space, (k - 1) as nat) + if in_space(g1, conn_space, k - 1)
            && !in_space(g2, conn_space, k - 1) && k - 1 <= space_top(g2, conn_space) {
            1int
        } else if in_space(g2, conn_space, k - 1) && !in_space(g1, conn_space, k - 1) && k - 1
            <= space_top(g1, conn_space) {
            1int
        } else {
            0int
        }
    }
}

/// The summed magnitude of weight differences over matching connection
/// keys below `k`.
pub open spec fn weight_gap_upto(g1: Genome, g2: Genome, k: nat) -> int
    decreases k,
{
    if k == 0 {
        0
    } else {
        weight_gap_upto(g1, g2, (k - 1) as nat) + if g1.has_conn(k - 1) && g2.has_conn(k - 1) {
            abs_int(g1.conn_at(k - 1).weight - g2.conn_at(k - 1).weight)
        } else {
            0int
        }
    }
}

/// Matching gene count over both key spaces.
pub open spec fn spec_matching_genes(g1: Genome, g2: Genome) -> int {
    matching_upto(g1, g2, false, (scan_top(g1, g2, false) + 1) as nat) + matching_upto(
        g1,
        g2,
        true,
        (scan_top(g1, g2, true) + 1) as nat,
    )
}

/// Excess gene count over both key spaces.
pub open spec fn spec_excess_genes(g1: Genome, g2: Genome) -> int {
    excess_upto(g1, g2, false, (scan_top(g1, g2, false) + 1) as nat) + excess_upto(
        g1,
        g2,
        true,
        (scan_top(g1, g2, true) + 1) as nat,
    )
}

/// Disjoint gene count over both key spaces.
pub open spec fn spec_disjoint_genes(g1: Genome, g2: Genome) -> int {
    disjoint_upto(g1, g2, false, (scan_top(g1, g2, false) + 1) as nat) + disjoint_upto(
        g1,
        g2,
        true,
        (scan_top(g1, g2, true) + 1) as nat,
    )
}

/// Matching connection genes alone: the denominator of the mean weight
/// difference.
pub open spec fn spec_matching_connections(g1: Genome, g2: Genome) -> int {
    matching_upto(g1, g2, true, (scan_top(g1, g2, true) + 1) as nat)
}

/// Total weight gap over matching connection genes.
pub open spec fn spec_weight_gap_total(g1: Genome, g2: Genome) -> int {
    weight_gap_upto(g1, g2, (scan_top(g1, g2, true) + 1) as nat)
}

/// The mean magnitude of weight differences over matching connection genes.
/// Meaningful only when at least one connection key matches.
pub open spec fn spec_average_weight_diff(g1: Genome, g2: Genome) -> int {
    spec_weight_gap_total(g1, g2) / spec_matching_connections(g1, g2)
}

/// The compatibility distance `c1*E/N + c2*D/N + c3*W` with the normalizer
/// `N` fixed to 1, a deliberate simplification for small genomes. All
/// quantities are fixed-point values in thousandths, hence the rescaling of
/// the `c3` term.
pub open spec fn spec_compatibility_distance(
    g1: Genome,
    g2: Genome,
    c1: int,
    c2: int,
    c3: int,
) -> int {
    c1 * spec_excess_genes(g1, g2) + c2 * spec_disjoint_genes(g1, g2) + (c3
        * spec_average_weight_diff(g1, g2)) / (SCALE as int)
}

/// Division stays below any bound that the dividend stays below in
/// multiples of the divisor.
pub(crate) proof fn lemma_div_bound(a: int, m: int, b: int)
    requires
        0 <= a,
        a <= m * b,
        m >= 1,
        0 <= b,
    ensures
        a / m <= b,
{
    vstd::arithmetic::div_mod::lemma_fundamental_div_mod(a, m);
    vstd::arithmetic::div_mod::lemma_mod_bound(a, m);
    let q = a / m;
    let r = a % m;
    assert(q <= b) by (nonlinear_arith)
        requires
            a == m * q + r,
            0 <= r < m,
            a <= m * b,
            m >= 1,
    ;
}

/// Counts of nonnegative per-key contributions are nonnegative and bounded
/// by the number of keys scanned.
proof fn lemma_matching_upto_bounds(g1: Genome, g2: Genome, conn_space: bool, k: nat)
    ensures
        0 <= matching_upto(g1, g2, conn_space, k) <= k,
    decreases k,
{
    if k > 0 {
        lemma_matching_upto_bounds(g1, g2, conn_space, (k - 1) as nat);
    }
}

proof fn lemma_matching_upto_symmetric(g1: Genome, g2: Genome, conn_space: bool, k: nat)
    ensures
        matching_upto(g1, g2, conn_space, k) == matching_upto(g2, g1, conn_space, k),
    decreases k,
{
    if k > 0 {
        lemma_matching_upto_symmetric(g1, g2, conn_space, (k - 1) as nat);
    }
}

proof fn lemma_excess_upto_symmetric(g1: Genome, g2: Genome, conn_space: bool, k: nat)
    ensures
        excess_upto(g1, g2, conn_space, k) == excess_upto(g2, g1, conn_space, k),
    decreases k,
{
    if k > 0 {
        lemma_excess_upto_symmetric(g1, g2, conn_space, (k - 1) as nat);
    }
}

proof fn lemma_disjoint_upto_symmetric(g1: Genome, g2: Genome, conn_space: bool, k: nat)
    ensures
        disjoint_upto(g1, g2, conn_space, k) == disjoint_upto(g2, g1, conn_space, k),
    decreases k,
{
    if k > 0 {
        lemma_disjoint_upto_symmetric(g1, g2, conn_space, (k - 1) as nat);
    }
}

proof fn lemma_weight_gap_upto_symmetric(g1: Genome, g2: Genome, k: nat)
    ensures
        weight_gap_upto(g1, g2, k) == weight_gap_upto(g2, g1, k),
    decreases k,
{
    if k > 0 {
        lemma_weight_gap_upto_symmetric(g1, g2, (k - 1) as nat);
    }
}

/// The compatibility distance does not depend on the order of its two
/// genome arguments: every ingredient — matching, excess and disjoint
/// counts, and the summed weight gap — is symmetric.
pub proof fn lemma_compatibility_distance_symmetric(
    g1: Genome,
    g2: Genome,
    c1: int,
    c2: int,
    c3: int,
)
    ensures
        spec_compatibility_distance(g1, g2, c1, c2, c3) == spec_compatibility_distance(
            g2,
            g1,
            c1,
            c2,
            c3,
        ),
{
    lemma_excess_upto_symmetric(g1, g2, false, (scan_top(g1, g2, false) + 1) as nat);
    lemma_excess_upto_symmetric(g1, g2, true, (scan_top(g1, g2, true) + 1) as nat);
    lemma_disjoint_upto_symmetric(g1, g2, false, (scan_top(g1, g2, false) + 1) as nat);
    lemma_disjoint_upto_symmetric(g1, g2, true, (scan_top(g1, g2, true) + 1) as nat);
    lemma_matching_upto_symmetric(g1, g2, true, (scan_top(g1, g2, true) + 1) as nat);
    lemma_weight_gap_upto_symmetric(g1, g2, (scan_top(g1, g2, true) + 1) as nat);
}

proof fn lemma_excess_upto_self(g: Genome, conn_space: bool, k: nat)
    ensures
        excess_upto(g, g, conn_space, k) == 0,
    decreases k,
{
    if k > 0 {
        lemma_excess_upto_self(g, conn_space, (k - 1) as nat);
    }
}

proof fn lemma_disjoint_upto_self(g: Genome, conn_space: bool, k: nat)
    ensures
        disjoint_upto(g, g, conn_space, k) == 0,
    decreases k,
{
    if k > 0 {
        lemma_disjoint_upto_self(g, conn_space, (k - 1) as nat);
    }
}

proof fn lemma_weight_gap_upto_self(g: Genome, k: nat)
    ensures
        weight_gap_upto(g, g, k) == 0,
    decreases k,
{
    if k > 0 {
        lemma_weight_gap_upto_self(g, (k - 1) as nat);
    }
}

proof fn lemma_matching_upto_monotone(g1: Genome, g2: Genome, conn_space: bool, j: nat, k: nat)
    requires
        j <= k,
    ensures
        matching_upto(g1, g2, conn_space, j) <= matching_upto(g1, g2, conn_space, k),
    decreases k,
{
    if j < k {
        lemma_matching_upto_monotone(g1, g2, conn_space, j, (k - 1) as nat);
    }
}

/// A key present in both genomes puts the matching count at one or more.
proof fn lemma_matching_upto_positive(g1: Genome, g2: Genome, conn_space: bool, k0: int, k: nat)
    requires
        0 <= k0 < k,
        in_space(g1, conn_space, k0),
        in_space(g2, conn_space, k0),
    ensures
        matching_upto(g1, g2, conn_space, k) >= 1,
{
    lemma_matching_upto_bounds(g1, g2, conn_space, k0 as nat);
    assert(matching_upto(g1, g2, conn_space, (k0 + 1) as nat) >= 1);
    lemma_matching_upto_monotone(g1, g2, conn_space, (k0 + 1) as nat, k);
}

/// A populated genome shares its first connection key with itself, so the
/// matching-connection count against itself is positive and the mean weight
/// difference is defined.
pub proof fn lemma_matching_connections_self_positive(g: Genome)
    requires
        g.wf(),
        g.populated(),
    ensures
        spec_matching_connections(g, g) >= 1,
{
    let k0 = g.connections@[0].innovation as int;
    g.lemma_conn_at_index(0);
    g.lemma_last_conn_is_max();
    assert(k0 <= scan_top(g, g, true));
    lemma_matching_upto_positive(g, g, true, k0, (scan_top(g, g, true) + 1) as nat);
}

/// A genome is at compatibility distance zero from itself, whatever the
/// coefficients: it has no excess and no disjoint genes against itself, and
/// every matching weight difference vanishes.
pub proof fn lemma_compatibility_distance_self_is_zero(g: Genome, c1: int, c2: int, c3: int)
    requires
        g.wf(),
        g.populated(),
    ensures
        spec_compatibility_distance(g, g, c1, c2, c3) == 0,
{
    lemma_excess_upto_self(g, false, (scan_top(g, g, false) + 1) as nat);
    lemma_excess_upto_self(g, true, (scan_top(g, g, true) + 1) as nat);
    lemma_disjoint_upto_self(g, false, (scan_top(g, g, false) + 1) as nat);
    lemma_disjoint_upto_self(g, true, (scan_top(g, g, true) + 1) as nat);
    lemma_weight_gap_upto_self(g, (scan_top(g, g, true) + 1) as nat);
    lemma_matching_connections_self_positive(g);
    let m = spec_matching_connections(g, g);
    vstd::arithmetic::div_mod::lemma_div_basics(m);
    assert(spec_average_weight_diff(g, g) == 0);
    vstd::arithmetic::div_mod::lemma_div_basics(SCALE as int);
    assert(spec_excess_genes(g, g) == 0);
    assert(spec_disjoint_genes(g, g) == 0);
    let e = spec_excess_genes(g, g);
    let d = spec_disjoint_genes(g, g);
    let w = spec_average_weight_diff(g, g);
    assert(c1 * e == 0) by (nonlinear_arith)
        requires
            e == 0,
    ;
    assert(c2 * d == 0) by (nonlinear_arith)
        requires
            d == 0,
    ;
    assert(c3 * w == 0) by (nonlinear_arith)
        requires
            w == 0,
    ;
    assert((c3 * w) / (SCALE as int) == 0);
}

impl Genome {
    /// How many connection keys the two genomes share: the count of genes
    /// whose mean weight difference the distance averages over.
    pub fn count_matching_connections(genome1: &Genome, genome2: &Genome) -> (r: i64)
        requires
            genome1.wf(),
            genome2.wf(),
            genome1.populated(),
            genome2.populated(),
        ensures
            r == spec_matching_connections(*genome1, *genome2),
            0 <= r,
    {
        let ctop1 = genome1.highest_innovation();
        let ctop2 = genome2.highest_innovation();
        let conn_top: i32 = if ctop1 >= ctop2 {
            ctop1
        } else {
            ctop2
        };
        proof {
            genome1.lemma_last_conn_is_max();
            genome2.lemma_last_conn_is_max();
        }
        let mut conn_count: i64 = 0;
        let mut k: i64 = 0;
        while k <= conn_top as i64
            invariant
                0 <= k <= conn_top as i64 + 1,
                conn_top as int == scan_top(*genome1, *genome2, true),
                conn_top >= 0,
                conn_count == matching_upto(*genome1, *genome2, true, k as nat),
                0 <= conn_count <= k,
            decreases conn_top as i64 + 1 - k,
        {
            let p1 = genome1.contains_conn_id(k as i32);
            let p2 = genome2.contains_conn_id(k as i32);
            if p1 && p2 {
                conn_count = conn_count + 1;
            }
            k = k + 1;
        }
        conn_count
    }

    /// How many keys the two genomes share, over node-id space and
    /// connection-innovation space together.
    pub fn count_matching_genes(genome1: &Genome, genome2: &Genome) -> (r: i64)
        requires
            genome1.wf(),
            genome2.wf(),
            genome1.populated(),
            genome2.populated(),
        ensures
            r == spec_matching_genes(*genome1, *genome2),
            0 <= r <= 0x1_0000_0000,
    {
        let top1 = genome1.highest_node_id();
        let top2 = genome2.highest_node_id();
        let node_top: i32 = if top1 >= top2 {
            top1
        } else {
            top2
        };
        proof {
            genome1.lemma_last_node_is_max();
            genome2.lemma_last_node_is_max();
        }
        let mut node_count: i64 = 0;
        let mut k: i64 = 0;
        while k <= node_top as i64
            invariant
                0 <= k <= node_top as i64 + 1,
                node_top as int == scan_top(*genome1, *genome2, false),
                node_top >= 0,
                node_count == matching_upto(*genome1, *genome2, false, k as nat),
                0 <= node_count <= k,
            decreases node_top as i64 + 1 - k,
        {
            let p1 = genome1.contains_node_id(k as i32);
            let p2 = genome2.contains_node_id(k as i32);
            if p1 && p2 {
                node_count = node_count + 1;
            }
            k = k + 1;
        }
        let ctop1 = genome1.highest_innovation();
        let ctop2 = genome2.highest_innovation();
        let conn_top: i32 = if ctop1 >= ctop2 {
            ctop1
        } else {
            ctop2
        };
        proof {
            genome1.lemma_last_conn_is_max();
            genome2.lemma_last_conn_is_max();
        }
        let mut conn_count: i64 = 0;
        let mut k: i64 = 0;
        while k <= conn_top as i64
            invariant
                0 <= k <= conn_top as i64 + 1,
                conn_top as int == scan_top(*genome1, *genome2, true),
                conn_top >= 0,
                conn_count == matching_upto(*genome1, *genome2, true, k as nat),
                0 <= conn_count <= k,
            decreases conn_top as i64 + 1 - k,
        {
            let p1 = genome1.contains_conn_id(k as i32);
            let p2 = genome2.contains_conn_id(k as i32);
            if p1 && p2 {
                conn_count = conn_count + 1;
            }
            k = k + 1;
        }
        node_count + conn_count
    }

    /// How many genes stand in exactly one genome, beyond the other
    /// genome's key range, over both key spaces.
    pub fn count_excess_genes(genome1: &Genome, genome2: &Genome) -> (r: i64)
        requires
            genome1.wf(),
            genome2.wf(),
            genome1.populated(),
            genome2.populated(),
        ensures
            r == spec_excess_genes(*genome1, *genome2),
            0 <= r <= 0x1_0000_0000,
    {
        let top1 = genome1.highest_node_id();
        let top2 = genome2.highest_node_id();
        let node_top: i32 = if top1 >= top2 {
            top1
        } else {
            top2
        };
        proof {
            genome1.lemma_last_node_is_max();
            genome2.lemma_last_node_is_max();
        }
        let mut node_count: i64 = 0;
        let mut k: i64 = 0;
        while k <= node_top as i64
            invariant
                0 <= k <= node_top as i64 + 1,
                node_top as int == scan_top(*genome1, *genome2, false),
                top1 as int == space_top(*genome1, false),
                top2 as int == space_top(*genome2, false),
                node_top >= 0,
                node_count == excess_upto(*genome1, *genome2, false, k as nat),
                0 <= node_count <= k,
            decreases node_top as i64 + 1 - k,
        {
            let p1 = genome1.contains_node_id(k as i32);
            let p2 = genome2.contains_node_id(k as i32);
            if p1 && !p2 && k > top2 as i64 {
                node_count = node_count + 1;
            } else if p2 && !p1 && k > top1 as i64 {
                node_count = node_count + 1;
            }
            k = k + 1;
        }
        let ctop1 = genome1.highest_innovation();
        let ctop2 = genome2.highest_innovation();
        let conn_top: i32 = if ctop1 >= ctop2 {
            ctop1
        } else {
            ctop2
        };
        proof {
            genome1.lemma_last_conn_is_max();
            genome2.lemma_last_conn_is_max();
        }
        let mut conn_count: i64 = 0;
        let mut k: i64 = 0;
        while k <= conn_top as i64
            invariant
                0 <= k <= conn_top as i64 + 1,
                conn_top as int == scan_top(*genome1, *genome2, true),
                ctop1 as int == space_top(*genome1, true),
                ctop2 as int == space_top(*genome2, true),
                conn_top >= 0,
                conn_count == excess_upto(*genome1, *genome2, true, k as nat),
                0 <= conn_count <= k,
            decreases conn_top as i64 + 1 - k,
        {
            let p1 = genome1.contains_conn_id(k as i32);
            let p2 = genome2.contains_conn_id(k as i32);
            if p1 && !p2 && k > ctop2 as i64 {
                conn_count = conn_count + 1;
            } else if p2 && !p1 && k > ctop1 as i64 {
                conn_count = conn_count + 1;
            }
            k = k + 1;
        }
        node_count + conn_count
    }

    /// How many genes stand in exactly one genome, within the other
    /// genome's key range, over both key spaces.
    pub fn count_disjoint_genes(genome1: &Genome, genome2: &Genome) -> (r: i64)
        requires
            genome1.wf(),
            genome2.wf(),
            genome1.populated(),
            genome2.populated(),
        ensures
            r == spec_disjoint_genes(*genome1, *genome2),
            0 <= r <= 0x1_0000_0000,
    {
        let top1 = genome1.highest_node_id();
        let top2 = genome2.highest_node_id();
        let node_top: i32 = if top1 >= top2 {
            top1
        } else {
            top2
        };
        proof {
            genome1.lemma_last_node_is_max();
            genome2.lemma_last_node_is_max();
        }
        let mut node_count: i64 = 0;
        let mut k: i64 = 0;
        while k <= node_top as i64
            invariant
                0 <= k <= node_top as i64 + 1,
                node_top as int == scan_top(*genome1, *genome2, false),
                top1 as int == space_top(*genome1, false),
                top2 as int == space_top(*genome2, false),
                node_top >= 0,
                node_count == disjoint_upto(*genome1, *genome2, false, k as nat),
                0 <= node_count <= k,
            decreases node_top as i64 + 1 - k,
        {
            let p1 = genome1.contains_node_id(k as i32);
            let p2 = genome2.contains_node_id(k as i32);
            if p1 && !p2 && k <= top2 as i64 {
                node_count = node_count + 1;
            } else if p2 && !p1 && k <= top1 as i64 {
                node_count = node_count + 1;
            }
            k = k + 1;
        }
        let ctop1 = genome1.highest_innovation();
        let ctop2 = genome2.highest_innovation();
        let conn_top: i32 = if ctop1 >= ctop2 {
            ctop1
        } else {
            ctop2
        };
        proof {
            genome1.lemma_last_conn_is_max();
            genome2.lemma_last_conn_is_max();
        }
        let mut conn_count: i64 = 0;
        let mut k: i64 = 0;
        while k <= conn_top as i64
            invariant
                0 <= k <= conn_top as i64 + 1,
                conn_top as int == scan_top(*genome1, *genome2, true),
                ctop1 as int == space_top(*genome1, true),
                ctop2 as int == space_top(*genome2, true),
                conn_top >= 0,
                conn_count == disjoint_upto(*genome1, *genome2, true, k as nat),
                0 <= conn_count <= k,
            decreases conn_top as i64 + 1 - k,
        {
            let p1 = genome1.contains_conn_id(k as i32);
            let p2 = genome2.contains_conn_id(k as i32);
            if p1 && !p2 && k <= ctop2 as i64 {
                conn_count = conn_count + 1;
            } else if p2 && !p1 && k <= ctop1 as i64 {
                conn_count = conn_count + 1;
            }
            k = k + 1;
        }
        node_count + conn_count
    }

    /// The mean magnitude of weight differences over the connection genes
    /// the two genomes share. The caller must guard against genomes that
    /// share no connection key: the mean is undefined there.
    pub fn average_weight_diff(genome1: &Genome, genome2: &Genome) -> (r: i64)
        requires
            genome1.wf(),
            genome2.wf(),
            genome1.populated(),
            genome2.populated(),
            spec_matching_connections(*genome1, *genome2) >= 1,
        ensures
            r == spec_average_weight_diff(*genome1, *genome2),
            0 <= r <= 2 * WEIGHT_LIMIT,
    {
        let ctop1 = genome1.highest_innovation();
        let ctop2 = genome2.highest_innovation();
        let conn_top: i32 = if ctop1 >= ctop2 {
            ctop1
        } else {
            ctop2
        };
        proof {
            genome1.lemma_last_conn_is_max();
            genome2.lemma_last_conn_is_max();
        }
        let mut matching: i64 = 0;
        let mut gap: u128 = 0;
        let mut k: i64 = 0;
        while k <= conn_top as i64
            invariant
                0 <= k <= conn_top as i64 + 1,
                conn_top as int == scan_top(*genome1, *genome2, true),
                conn_top >= 0,
                genome1.wf(),
                genome2.wf(),
                matching == matching_upto(*genome1, *genome2, true, k as nat),
                0 <= matching <= k,
                gap == weight_gap_upto(*genome1, *genome2, k as nat),
                gap <= matching * (2 * WEIGHT_LIMIT),
            decreases conn_top as i64 + 1 - k,
        {
            let i1 = genome1.find_conn_index(k as i32);
            let i2 = genome2.find_conn_index(k as i32);
            match (i1, i2) {
                (Some(i1), Some(i2)) => {
                    proof {
                        assert(-WEIGHT_LIMIT <= genome1.connections@[i1 as int].weight
                            <= WEIGHT_LIMIT);
                        assert(-WEIGHT_LIMIT <= genome2.connections@[i2 as int].weight
                            <= WEIGHT_LIMIT);
                    }
                    let w1 = genome1.connections[i1].get_weight();
                    let w2 = genome2.connections[i2].get_weight();
                    let d: i64 = if w1 >= w2 {
                        w1 - w2
                    } else {
                        w2 - w1
                    };
                    assert(d == abs_int(genome1.conn_at(k as int).weight - genome2.conn_at(
                        k as int,
                    ).weight));
                    matching = matching + 1;
                    proof {
                        assert(gap + d <= matching * (2 * WEIGHT_LIMIT)) by (nonlinear_arith)
                            requires
                                gap <= (matching - 1) * (2 * WEIGHT_LIMIT),
                                0 <= d <= 2 * WEIGHT_LIMIT,
                                matching >= 1,
                        ;
                        assert(matching * (2 * WEIGHT_LIMIT) <= 0x1_0000_0000 * (2 * WEIGHT_LIMIT))
                            by (nonlinear_arith)
                            requires
                                0 <= matching <= 0x1_0000_0000,
                        ;
                    }
                    gap = gap + d as u128;
                },
                _ => {},
            }
            k = k + 1;
        }
        proof {
            lemma_div_bound(gap as int, matching as int, 2 * WEIGHT_LIMIT);
        }
        (gap / matching as u128) as i64
    }

    /// The compatibility distance of two genomes:
    /// `c1*E + c2*D + c3*W`, with `E` the excess count, `D` the disjoint
    /// count and `W` the mean weight difference over matching connection
    /// genes, all in fixed-point thousandths. Identical genomes are at
    /// distance zero. The caller must guard against genomes that share no
    /// connection key. The coefficients are importance weights and must be
    /// nonnegative: the fixed-point form divides the `c3` term by the
    /// scale, and only for nonnegative products does that division agree
    /// with the real-valued formula.
    pub fn compatibility_distance(genome1: &Genome, genome2: &Genome, c1: i64, c2: i64, c3: i64) -> (r:
        i64)
        requires
            genome1.wf(),
            genome2.wf(),
            genome1.populated(),
            genome2.populated(),
            0 <= c1 <= COEFF_LIMIT,
            0 <= c2 <= COEFF_LIMIT,
            0 <= c3 <= COEFF_LIMIT,
            spec_matching_connections(*genome1, *genome2) >= 1,
        ensures
            r == spec_compatibility_distance(*genome1, *genome2, c1 as int, c2 as int, c3 as int),
            0 <= r,
    {
        let excess = Genome::count_excess_genes(genome1, genome2);
        let disjoint = Genome::count_disjoint_genes(genome1, genome2);
        let avg = Genome::average_weight_diff(genome1, genome2);
        assert(c1 * excess <= COEFF_LIMIT * 0x1_0000_0000 && c1 * excess >= 0) by (nonlinear_arith)
            requires
                0 <= c1 <= COEFF_LIMIT,
                0 <= excess <= 0x1_0000_0000,
        ;
        assert(c2 * disjoint <= COEFF_LIMIT * 0x1_0000_0000 && c2 * disjoint >= 0)
            by (nonlinear_arith)
            requires
                0 <= c2 <= COEFF_LIMIT,
                0 <= disjoint <= 0x1_0000_0000,
        ;
        assert(c3 * avg <= COEFF_LIMIT * (2 * WEIGHT_LIMIT) && c3 * avg >= 0) by (nonlinear_arith)
            requires
                0 <= c3 <= COEFF_LIMIT,
                0 <= avg <= 2 * WEIGHT_LIMIT,
        ;
        let term1: i64 = c1 * excess;
        let term2: i64 = c2 * disjoint;
        let term3: i64 = ((c3 as u128) * (avg as u128) / (SCALE as u128)) as i64;
        proof {
            lemma_div_bound(c3 * avg, SCALE as int, COEFF_LIMIT * (2 * WEIGHT_LIMIT) / (
            SCALE as int));
            vstd::arithmetic::div_mod::lemma_div_is_ordered(0, c3 * avg, SCALE as int);
        }
        term1 + term2 + term3
    }
}

} // verus!
