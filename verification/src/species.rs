//! A species: a cluster of mutually compatible scored genomes. It owns an
//! ordered roster of players, a representative genome, its best and
//! average fitness, and a staleness count of generations without
//! improvement.

use vstd::prelude::*;

use crate::config::Config;
use crate::counter::Counter;
use crate::crossover::crossover_post;
use crate::crossover::lemma_crossover_post_same_view;
use crate::distance::spec_compatibility_distance;
use crate::distance::spec_matching_connections;
use crate::fitness_genome::FitnessGenome;
use crate::genome::Genome;
use crate::mutation::connection_mutation_post;
use crate::mutation::node_split_post;
use crate::mutation::weight_mutation_post;
use crate::numeric::FITNESS_LIMIT;
use crate::numeric::ROSTER_LIMIT;
use crate::numeric::SCALE;
use crate::rng::rng_in_range;
use crate::sort::sort_fitness_desc;
use crate::sort::sorted_desc_fitness;

verus! {

/// Every player of the roster is well formed and its genome populated.
pub open spec fn players_ok(players: Seq<FitnessGenome>) -> bool {
    forall|i: int|
        0 <= i < players.len() ==> (#[trigger] players[i]).wf() && players[i].genome.populated()
}

/// Every player's genome keeps its keys at or below the counter values.
pub open spec fn players_within(players: Seq<FitnessGenome>, nb: int, cb: int) -> bool {
    forall|i: int|
        0 <= i < players.len() ==> (#[trigger] players[i]).genome.nodes_within(nb)
            && players[i].genome.conns_within(cb)
}

/// Whether a roster of one well-formed shape keeps being one after a
/// reordering or a selection: membership implies the properties.
pub proof fn lemma_players_ok_subset(a: Seq<FitnessGenome>, b: Seq<FitnessGenome>)
    requires
        players_ok(a),
        forall|x: FitnessGenome| b.contains(x) ==> a.contains(x),
    ensures
        players_ok(b),
{
    assert forall|i: int|
        0 <= i < b.len() implies (#[trigger] b[i]).wf() && b[i].genome.populated() by {
        assert(b.contains(b[i]));
        let j = choose|j: int| 0 <= j < a.len() && a[j] == b[i];
    }
}

/// The counter bounds survive reordering and selection as well.
pub proof fn lemma_players_within_subset(
    a: Seq<FitnessGenome>,
    b: Seq<FitnessGenome>,
    nb: int,
    cb: int,
)
    requires
        players_within(a, nb, cb),
        forall|x: FitnessGenome| b.contains(x) ==> a.contains(x),
    ensures
        players_within(b, nb, cb),
{
    assert forall|i: int|
        0 <= i < b.len() implies (#[trigger] b[i]).genome.nodes_within(nb)
            && b[i].genome.conns_within(cb) by {
        assert(b.contains(b[i]));
        let j = choose|j: int| 0 <= j < a.len() && a[j] == b[i];
    }
}

/// The summed fitness of a roster.
pub open spec fn fitness_sum(s: Seq<FitnessGenome>) -> int
    decreases s.len(),
{
    if s.len() == 0 {
        0
    } else {
        fitness_sum(s.drop_last()) + s.last().fitness
    }
}

proof fn lemma_fitness_sum_bounds(s: Seq<FitnessGenome>)
    requires
        forall|i: int| 0 <= i < s.len() ==> 0 <= (#[trigger] s[i]).fitness <= FITNESS_LIMIT,
    ensures
        0 <= fitness_sum(s) <= s.len() * FITNESS_LIMIT,
    decreases s.len(),
{
    if s.len() > 0 {
        lemma_fitness_sum_bounds(s.drop_last());
    }
}

/// Whether `g` falls into the species represented by `rep` under the
/// configured distance: the genomes must share at least one connection key
/// (otherwise their mean weight difference is undefined and they never
/// match) and their compatibility distance must stay strictly below the
/// threshold.
pub open spec fn spec_same_species(rep: Genome, g: Genome, config: Config) -> bool {
    spec_matching_connections(rep, g) >= 1 && spec_compatibility_distance(
        rep,
        g,
        config.c1 as int,
        config.c2 as int,
        config.c3 as int,
    ) < config.compatibility_threshold
}

/// What sorting the roster does to a species: the same players in
/// descending fitness order, and the staleness bookkeeping — a strictly
/// improved best resets staleness and adopts the new best player as
/// representative, anything else ages the species by one generation.
pub open spec fn sort_players_post(pre: Species, post: Species) -> bool {
    post.players@.len() == pre.players@.len() && post.players@.to_multiset()
        == pre.players@.to_multiset() && sorted_desc_fitness(post.players@)
        && post.average_fitness == pre.average_fitness && if pre.players@.len() == 0 {
        post.best_fitness == pre.best_fitness && post.staleness == pre.staleness && post.rep
            == pre.rep
    } else {
        let top = post.players@[0];
        if top.fitness > pre.best_fitness {
            post.staleness == 0 && post.best_fitness == top.fitness && post.rep.nodes@
                == top.genome.nodes@ && post.rep.connections@ == top.genome.connections@
        } else {
            post.best_fitness == pre.best_fitness && post.rep == pre.rep && post.staleness == (
            if pre.staleness < i32::MAX {
                pre.staleness as int + 1
            } else {
                pre.staleness as int
            })
        }
    }
}

#[derive(Debug, Clone, PartialEq)]
pub struct Species {
    pub players: Vec<FitnessGenome>,
    /// Best fitness any player of this species ever reached.
    pub best_fitness: i64,
    /// The roster's fitness average, refreshed by `get_average_fitness`.
    pub average_fitness: i64,
    /// Generations without an improvement of the best fitness.
    pub staleness: i32,
    /// Representative genome: the current best.
    pub rep: Genome,
}

impl Species {
    /// A well-formed species: representative and players well formed and
    /// populated, bookkeeping fields in range.
    pub open spec fn wf(self) -> bool {
        self.rep.wf() && self.rep.populated() && 0 <= self.best_fitness <= FITNESS_LIMIT && 0
            <= self.average_fitness <= FITNESS_LIMIT && 0 <= self.staleness && players_ok(
            self.players@,
        )
    }

    /// All genomes of the species keep their keys at or below the counter
    /// values.
    pub open spec fn within(self, nb: int, cb: int) -> bool {
        self.rep.nodes_within(nb) && self.rep.conns_within(cb) && players_within(
            self.players@,
            nb,
            cb,
        )
    }

    /// A fresh species around a representative genome: a roster holding one
    /// unscored copy of it.
    pub fn new(rep: Genome) -> (s: Species)
        requires
            rep.wf(),
            rep.populated(),
        ensures
            s.wf(),
            s.players@.len() == 1,
            s.players@[0].fitness == 0,
            s.players@[0].genome.nodes@ == rep.nodes@,
            s.players@[0].genome.connections@ == rep.connections@,
            s.best_fitness == 0,
            s.average_fitness == 0,
            s.staleness == 0,
            s.rep == rep,
    {
        let copy = FitnessGenome::new_empty(
            Genome { nodes: rep.get_node_genes(), connections: rep.get_connection_genes() },
        );
        let mut players = Vec::new();
        players.push(copy);
        Species { players, best_fitness: 0, average_fitness: 0, staleness: 0, rep }
    }

    /// Sorts the players by fitness and updates the staleness bookkeeping.
    pub fn sort_players(&mut self)
        requires
            old(self).wf(),
        ensures
            final(self).wf(),
            sort_players_post(*old(self), *final(self)),
            forall|x: FitnessGenome|
                final(self).players@.contains(x) <==> old(self).players@.contains(x),
    {
        let ghost pre = *self;
        sort_fitness_desc(&mut self.players);
        proof {
            lemma_players_ok_subset(pre.players@, self.players@);
        }
        if self.players.len() > 0 {
            let top_fitness = self.players[0].get_fitness();
            if top_fitness > self.best_fitness {
                self.staleness = 0;
                self.best_fitness = top_fitness;
                self.rep = self.players[0].get_genome();
            } else {
                if self.staleness < i32::MAX {
                    self.staleness = self.staleness + 1;
                }
            }
        }
    }

    /// Sorts, then keeps the players at indices up to and including half
    /// the roster length, discarding the rest. Kills nothing and reports
    /// `false` when fewer than two players remain. The inclusive boundary —
    /// a five-player roster keeps three — is deliberate and preserved.
    pub fn kill(&mut self) -> (r: bool)
        requires
            old(self).wf(),
        ensures
            final(self).wf(),
            r == (old(self).players@.len() >= 2),
            final(self).players@.len() == (if old(self).players@.len() < 2 {
                old(self).players@.len() as int
            } else {
                old(self).players@.len() as int / 2 + 1
            }),
            exists|mid: Species|
                {
                    &&& #[trigger] sort_players_post(*old(self), mid)
                    &&& if old(self).players@.len() < 2 {
                        *final(self) == mid
                    } else {
                        final(self).players@ == mid.players@.subrange(
                            0,
                            old(self).players@.len() as int / 2 + 1,
                        ) && final(self).best_fitness == mid.best_fitness && final(self).average_fitness == mid.average_fitness && final(self).staleness
                            == mid.staleness && final(self).rep == mid.rep
                    }
                },
    {
        self.sort_players();
        let ghost mid = *self;
        if self.players.len() < 2 {
            proof {
                assert(sort_players_post(*old(self), mid) && *self == mid);
            }
            return false;
        }
        let cutoff_index = self.players.len() / 2;
        let ghost before_cut = self.players@;
        self.players.truncate(cutoff_index + 1);
        proof {
            assert(self.players@ == before_cut.subrange(0, cutoff_index + 1 as int));
            assert forall|x: FitnessGenome|
                self.players@.contains(x) implies before_cut.contains(x) by {
                let i = choose|i: int| 0 <= i < self.players@.len() && self.players@[i] == x;
                assert(before_cut[i] == x);
            }
            lemma_players_ok_subset(before_cut, self.players@);
            assert(sort_players_post(*old(self), mid));
        }
        true
    }

    /// Whether `g` belongs to this species: its compatibility distance to
    /// the representative stays strictly below the configured threshold.
    /// Genomes sharing no connection key never match, their distance being
    /// undefined.
    pub fn same_species(&mut self, g: Genome, config: &Config) -> (r: bool)
        requires
            old(self).rep.wf(),
            old(self).rep.populated(),
            g.wf(),
            g.populated(),
            config.valid(),
        ensures
            *final(self) == *old(self),
            r == spec_same_species(old(self).rep, g, *config),
    {
        same_species_check(&self.rep, &g, config)
    }

    /// Appends a player to the roster.
    pub fn add_player(&mut self, player: FitnessGenome)
        ensures
            final(self).players@ == old(self).players@.push(player),
            final(self).best_fitness == old(self).best_fitness,
            final(self).average_fitness == old(self).average_fitness,
            final(self).staleness == old(self).staleness,
            final(self).rep == old(self).rep,
    {
        self.players.push(player);
    }

    /// Computes the roster's average fitness, stores it, and returns it.
    /// An empty roster averages to zero.
    pub fn get_average_fitness(&mut self) -> (r: i64)
        requires
            old(self).wf(),
        ensures
            final(self).wf(),
            final(self).players@ == old(self).players@,
            final(self).best_fitness == old(self).best_fitness,
            final(self).staleness == old(self).staleness,
            final(self).rep == old(self).rep,
            final(self).average_fitness == r,
            old(self).players@.len() == 0 ==> r == 0,
            old(self).players@.len() > 0 ==> r == fitness_sum(old(self).players@) / old(self).players@.len() as int,
    {
        if self.players.len() == 0 {
            self.average_fitness = 0;
            return 0;
        }
        let ghost all = self.players@;
        let mut sum: i128 = 0;
        let mut i: usize = 0;
        while i < self.players.len()
            invariant
                i <= self.players@.len(),
                self.players@ == all,
                players_ok(all),
                sum == fitness_sum(all.subrange(0, i as int)),
                0 <= sum <= i * FITNESS_LIMIT,
            decreases self.players@.len() - i,
        {
            proof {
                assert(all.subrange(0, i + 1 as int).drop_last() =~= all.subrange(0, i as int));
                assert(all.subrange(0, i + 1 as int).last() == all[i as int]);
            }
            sum = sum + self.players[i].get_fitness() as i128;
            i = i + 1;
        }
        proof {
            assert(all.subrange(0, all.len() as int) =~= all);
            lemma_fitness_sum_bounds(all);
            crate::distance::lemma_div_bound(sum as int, all.len() as int, FITNESS_LIMIT as int);
        }
        let avg: i64 = ((sum as u128) / (self.players.len() as u128)) as i64;
        self.average_fitness = avg;
        avg
    }

    /// Sorts the roster and records the best player's fitness as the
    /// species' best.
    pub fn refresh_best_fitness(&mut self) -> (r: i64)
        requires
            old(self).wf(),
            old(self).players@.len() > 0,
        ensures
            final(self).wf(),
            exists|mid: Species|
                #[trigger] sort_players_post(*old(self), mid) && *final(self) == (Species {
                    best_fitness: final(self).best_fitness,
                    ..mid
                }) && final(self).best_fitness == mid.players@[0].fitness,
            r == final(self).best_fitness,
    {
        self.sort_players();
        let best = self.players[0].get_fitness();
        let ghost mid = *self;
        self.best_fitness = best;
        proof {
            assert(*self == (Species { best_fitness: self.best_fitness, ..mid }));
        }
        best
    }

    pub fn get_best_fitness(&self) -> (r: i64)
        ensures
            r == self.best_fitness,
    {
        self.best_fitness
    }

    /// Sorts the roster and hands out a copy of its best player.
    pub fn get_best_player(&mut self) -> (r: FitnessGenome)
        requires
            old(self).wf(),
            old(self).players@.len() > 0,
        ensures
            final(self).wf(),
            sort_players_post(*old(self), *final(self)),
            r.like(final(self).players@[0]),
            r.wf(),
            r.genome.populated(),
    {
        self.sort_players();
        self.players[0].snapshot()
    }

    /// Divides every player's fitness by the roster size, so that large
    /// species do not dominate reproduction.
    pub fn fitness_sharing(&mut self)
        requires
            old(self).wf(),
        ensures
            final(self).wf(),
            final(self).players@.len() == old(self).players@.len(),
            forall|i: int|
                0 <= i < old(self).players@.len() ==> {
                    let p0 = old(self).players@[i];
                    let p1 = #[trigger] final(self).players@[i];
                    p1.genome.nodes@ == p0.genome.nodes@ && p1.genome.connections@
                        == p0.genome.connections@ && p1.fitness == p0.fitness as int / old(self).players@.len() as int
                },
            final(self).best_fitness == old(self).best_fitness,
            final(self).average_fitness == old(self).average_fitness,
            final(self).staleness == old(self).staleness,
            final(self).rep == old(self).rep,
    {
        let ghost pre = *self;
        let len = self.players.len();
        let mut i: usize = 0;
        while i < self.players.len()
            invariant
                i <= self.players@.len(),
                len == pre.players@.len(),
                self.players@.len() == pre.players@.len(),
                pre.wf(),
                self.best_fitness == pre.best_fitness,
                self.average_fitness == pre.average_fitness,
                self.staleness == pre.staleness,
                self.rep == pre.rep,
                len > 0 || self.players@.len() == 0,
                forall|k: int| i <= k < self.players@.len() ==> #[trigger] self.players@[k]
                    == pre.players@[k],
                forall|k: int|
                    0 <= k < i ==> {
                        let p0 = pre.players@[k];
                        let p1 = #[trigger] self.players@[k];
                        p1.genome.nodes@ == p0.genome.nodes@ && p1.genome.connections@
                            == p0.genome.connections@ && p1.fitness == p0.fitness as int / len as int && 0
                            <= p1.fitness <= FITNESS_LIMIT
                    },
            decreases self.players@.len() - i,
        {
            let shared = (self.players[i].get_fitness() as u64 / len as u64) as i64;
            proof {
                vstd::arithmetic::div_mod::lemma_div_is_ordered(
                    0,
                    pre.players@[i as int].fitness as int,
                    len as int,
                );
                crate::distance::lemma_div_bound(
                    pre.players@[i as int].fitness as int,
                    len as int,
                    FITNESS_LIMIT as int,
                );
            }
            let mut p = self.players[i].snapshot();
            let updated = FitnessGenome { fitness: shared, genome: p.genome };
            self.players.set(i, updated);
            i = i + 1;
        }
        proof {
            assert forall|k: int|
                0 <= k < self.players@.len() implies (#[trigger] self.players@[k]).wf()
                && self.players@[k].genome.populated() by {
                assert(pre.players@[k].wf() && pre.players@[k].genome.populated());
            }
        }
    }
}

/// Whether `g` falls into the species represented by `rep`, per
/// [`spec_same_species`].
pub(crate) fn same_species_check(rep: &Genome, g: &Genome, config: &Config) -> (r: bool)
    requires
        rep.wf(),
        rep.populated(),
        g.wf(),
        g.populated(),
        config.valid(),
    ensures
        r == spec_same_species(*rep, *g, *config),
{
    let matching = Genome::count_matching_connections(rep, g);
    if matching == 0 {
        return false;
    }
    let distance = Genome::compatibility_distance(rep, g, config.c1, config.c2, config.c3);
    config.compatibility_threshold > distance
}

/// What refreshing a species' best fitness does: the roster is sorted with
/// its staleness bookkeeping, and the best player's fitness is recorded.
pub open spec fn refreshed_from(pre: Species, post: Species) -> bool {
    exists|mid: Species|
        #[trigger] sort_players_post(pre, mid) && post == (Species {
            best_fitness: post.best_fitness,
            ..mid
        }) && mid.players@.len() > 0 && post.best_fitness == mid.players@[0].fitness
}

/// Sorting a roster keeps every genome of the species within the counter
/// bounds: the players are the same, and a representative adopted from the
/// roster was within bounds already.
pub proof fn lemma_sorted_species_within(pre: Species, post: Species, nb: int, cb: int)
    requires
        pre.within(nb, cb),
        sort_players_post(pre, post),
    ensures
        post.within(nb, cb),
{
    crate::sort::lemma_same_multiset_same_members(post.players@, pre.players@);
    assert forall|x: FitnessGenome| post.players@.contains(x) implies pre.players@.contains(x) by {}
    lemma_players_within_subset(pre.players@, post.players@, nb, cb);
    if pre.players@.len() > 0 {
        let top = post.players@[0];
        if top.fitness > pre.best_fitness {
            assert(post.players@.contains(top));
            assert(pre.players@.contains(top));
            let j = choose|j: int| 0 <= j < pre.players@.len() && pre.players@[j] == top;
        }
    }
}

/// The derivation of one bred child from a roster, with every
/// intermediate value named: `roster[j1]` and `roster[j2]` are the
/// parents, the fitter first; `g_cross` is their crossover; `g_weights`,
/// `g_split` and finally the child's genome arise from the optional
/// weight mutation, node split and connection mutation, in that fixed
/// order, each step either skipped or meeting its operator's relation.
/// `cc0`/`cc_mid`/`cc1` and `nc0`/`nc1` are the counter values along the
/// way.
pub open spec fn offspring_of_with(
    roster: Seq<FitnessGenome>,
    cc0: int,
    cc1: int,
    nc0: int,
    nc1: int,
    child: FitnessGenome,
    j1: int,
    j2: int,
    g_cross: Genome,
    g_weights: Genome,
    g_split: Genome,
    cc_mid: int,
) -> bool {
    &&& child.fitness == 0
    &&& 0 <= j1 < roster.len()
    &&& 0 <= j2 < roster.len()
    &&& roster[j1].fitness >= roster[j2].fitness
    &&& crossover_post(roster[j1].genome, roster[j2].genome, g_cross)
    &&& (g_weights == g_cross || weight_mutation_post(g_cross, g_weights))
    &&& ((g_split == g_weights && cc_mid == cc0 && nc1 == nc0) || node_split_post(
        g_weights,
        g_split,
        cc0,
        cc_mid,
        nc0,
        nc1,
    ))
    &&& connection_mutation_post(g_split, child.genome, cc_mid, cc1)
}

/// The derivation of one bred child from a roster, through the whole
/// pipeline, for some choice of parents and intermediate stages.
pub open spec fn offspring_of(
    roster: Seq<FitnessGenome>,
    cc0: int,
    cc1: int,
    nc0: int,
    nc1: int,
    child: FitnessGenome,
) -> bool {
    exists|j1: int, j2: int, g_cross: Genome, g_weights: Genome, g_split: Genome, cc_mid: int|
        #[trigger] offspring_of_with(
            roster,
            cc0,
            cc1,
            nc0,
            nc1,
            child,
            j1,
            j2,
            g_cross,
            g_weights,
            g_split,
            cc_mid,
        )
}

/// A child bred from some pair of the roster's members, at some counter
/// positions of the run.
pub open spec fn bred_from(roster: Seq<FitnessGenome>, child: FitnessGenome) -> bool {
    exists|cc0: int, cc1: int, nc0: int, nc1: int|
        #[trigger] offspring_of(roster, cc0, cc1, nc0, nc1, child)
}

/// The offspring relation only reads roster members' scores and genomes,
/// so it survives any reshuffling of the roster that keeps its members.
pub proof fn lemma_offspring_roster_exchange(
    a: Seq<FitnessGenome>,
    b: Seq<FitnessGenome>,
    cc0: int,
    cc1: int,
    nc0: int,
    nc1: int,
    child: FitnessGenome,
)
    requires
        offspring_of(a, cc0, cc1, nc0, nc1, child),
        forall|x: FitnessGenome| a.contains(x) ==> b.contains(x),
    ensures
        offspring_of(b, cc0, cc1, nc0, nc1, child),
{
    let (j1, j2, g_cross, g_weights, g_split, cc_mid) = choose|
        j1: int,
        j2: int,
        g_cross: Genome,
        g_weights: Genome,
        g_split: Genome,
        cc_mid: int,
    |
        #[trigger] offspring_of_with(
            a,
            cc0,
            cc1,
            nc0,
            nc1,
            child,
            j1,
            j2,
            g_cross,
            g_weights,
            g_split,
            cc_mid,
        );
    assert(a.contains(a[j1]));
    assert(b.contains(a[j1]));
    let k1 = choose|k: int| 0 <= k < b.len() && b[k] == a[j1];
    assert(a.contains(a[j2]));
    assert(b.contains(a[j2]));
    let k2 = choose|k: int| 0 <= k < b.len() && b[k] == a[j2];
    assert(offspring_of_with(
        b,
        cc0,
        cc1,
        nc0,
        nc1,
        child,
        k1,
        k2,
        g_cross,
        g_weights,
        g_split,
        cc_mid,
    ));
}

/// The draw-to-pick map of fitness-proportionate selection: with a draw of
/// `draw`, the pick is a copy of the first player whose running fitness
/// total exceeds the draw.
pub open spec fn parent_pick_at(
    roster: Seq<FitnessGenome>,
    draw: int,
    j: int,
    r: FitnessGenome,
) -> bool {
    &&& 0 <= j < roster.len()
    &&& r.like(roster[j])
    &&& fitness_sum(roster.subrange(0, j + 1)) > draw
    &&& forall|k: int|
        0 <= k < j ==> fitness_sum(#[trigger] roster.subrange(0, k + 1)) <= draw
}

/// One full parent selection: a draw lands in `[0, 1 + total fitness)`;
/// either the first player whose running total exceeds it is copied out
/// (`j` names that player), or no player's total exceeds the draw and the
/// sorted roster's head is copied out instead (`j` is the roster length).
pub open spec fn parent_selected(
    pre: Species,
    post: Species,
    r: FitnessGenome,
    draw: int,
    j: int,
) -> bool {
    &&& 0 <= draw < crate::numeric::SCALE + fitness_sum(pre.players@)
    &&& (parent_pick_at(pre.players@, draw, j, r) || (j == pre.players@.len()
        && fitness_sum(pre.players@) <= draw && sort_players_post(pre, post) && r.like(
        post.players@[0],
    )))
}

impl Species {
    /// Fitness-proportionate parent selection: a draw lands uniformly in
    /// `[0, 1 + total fitness)` — the one-unit floor guards an all-zero
    /// roster — and the first player whose running fitness total exceeds
    /// the draw is chosen; when the scan completes without a hit, the
    /// top-ranked player is returned.
    pub fn select_parent(&mut self, rng: &mut rand::rngs::StdRng) -> (r: FitnessGenome)
        requires
            old(self).wf(),
            old(self).players@.len() > 0,
            old(self).players@.len() <= ROSTER_LIMIT,
        ensures
            final(self).wf(),
            final(self).players@.len() == old(self).players@.len(),
            final(self).players@.to_multiset() == old(self).players@.to_multiset(),
            *final(self) == *old(self) || sort_players_post(*old(self), *final(self)),
            exists|j: int|
                0 <= j < old(self).players@.len() && r.like(#[trigger] old(self).players@[j]),
            exists|draw: int, j: int|
                #[trigger] parent_selected(*old(self), *final(self), r, draw, j),
            r.wf(),
            r.genome.populated(),
    {
        let ghost pre = *self;
        let ghost all = self.players@;
        let mut fitness_total: i64 = SCALE;
        let mut i: usize = 0;
        while i < self.players.len()
            invariant
                i <= all.len(),
                *self == pre,
                pre.wf(),
                self.players@ == all,
                players_ok(all),
                all.len() <= ROSTER_LIMIT,
                fitness_total == SCALE + fitness_sum(all.subrange(0, i as int)),
                SCALE <= fitness_total <= SCALE + i * FITNESS_LIMIT,
            decreases all.len() - i,
        {
            proof {
                assert(all.subrange(0, i + 1 as int).drop_last() =~= all.subrange(0, i as int));
                assert(all.subrange(0, i + 1 as int).last() == all[i as int]);
            }
            fitness_total = fitness_total + self.players[i].get_fitness();
            i = i + 1;
        }
        proof {
            assert(all.subrange(0, all.len() as int) =~= all);
        }
        let draw = rng_in_range(rng, 0, fitness_total);
        let mut running: i64 = 0;
        let mut i: usize = 0;
        while i < self.players.len()
            invariant
                i <= all.len(),
                *self == pre,
                pre.wf(),
                self.players@ == all,
                players_ok(all),
                all.len() <= ROSTER_LIMIT,
                0 <= running <= i * FITNESS_LIMIT,
                running == fitness_sum(all.subrange(0, i as int)),
                0 <= draw < crate::numeric::SCALE + fitness_sum(all),
                forall|k: int|
                    0 <= k < i ==> fitness_sum(#[trigger] all.subrange(0, k + 1)) <= draw,
            decreases all.len() - i,
        {
            proof {
                assert(all.subrange(0, i + 1 as int).drop_last() =~= all.subrange(0, i as int));
                assert(all.subrange(0, i + 1 as int).last() == all[i as int]);
            }
            running = running + self.players[i].get_fitness();
            if running > draw {
                let pick = self.players[i].snapshot();
                proof {
                    assert(pick.like(all[i as int]));
                    assert(parent_pick_at(all, draw as int, i as int, pick));
                    assert(parent_selected(pre, *self, pick, draw as int, i as int));
                }
                return pick;
            }
            i = i + 1;
        }
        proof {
            assert(all.subrange(0, all.len() as int) =~= all);
            assert(fitness_sum(all) <= draw) by {
                assert(fitness_sum(all.subrange(0, all.len() - 1 + 1)) <= draw);
            }
        }
        let best = self.get_best_player();
        proof {
            crate::sort::lemma_same_multiset_same_members(self.players@, all);
            let top = self.players@[0];
            assert(self.players@.contains(top));
            assert(all.contains(top));
            let j = choose|j: int| 0 <= j < all.len() && all[j] == top;
            assert(best.like(all[j]));
            assert(parent_selected(pre, *self, best, draw as int, all.len() as int));
        }
        best
    }

    /// Breeds one child: two parents picked by fitness-proportionate
    /// selection (they may coincide) are crossed over, fitter first, and
    /// the child then faces the weight, add-node and add-connection
    /// mutations, each with its configured probability. The child's fitness
    /// starts at zero.
    #[verifier::rlimit(100)]
    pub fn generate_offspring(
        &mut self,
        connection_innovation: &mut Counter,
        node_innovation: &mut Counter,
        config: &Config,
        rng: &mut rand::rngs::StdRng,
    ) -> (child: FitnessGenome)
        requires
            old(self).wf(),
            old(self).players@.len() > 0,
            old(self).players@.len() <= ROSTER_LIMIT,
            0 <= old(node_innovation).current_innovation < i32::MAX - 1,
            0 <= old(connection_innovation).current_innovation < i32::MAX - 3,
            old(self).within(
                old(node_innovation).current_innovation as int,
                old(connection_innovation).current_innovation as int,
            ),
        ensures
            final(self).wf(),
            final(self).players@.len() == old(self).players@.len(),
            final(self).players@.to_multiset() == old(self).players@.to_multiset(),
            final(self).average_fitness == old(self).average_fitness,
            final(self).within(
                final(node_innovation).current_innovation as int,
                final(connection_innovation).current_innovation as int,
            ),
            old(node_innovation).current_innovation <= final(node_innovation).current_innovation
                <= old(node_innovation).current_innovation + 1,
            old(connection_innovation).current_innovation <= final(connection_innovation).current_innovation <= old(connection_innovation).current_innovation + 3,
            child.fitness == 0,
            child.genome.wf(),
            child.genome.populated(),
            child.genome.nodes_within(final(node_innovation).current_innovation as int),
            child.genome.conns_within(final(connection_innovation).current_innovation as int),
            offspring_of(
                old(self).players@,
                old(connection_innovation).current_innovation as int,
                final(connection_innovation).current_innovation as int,
                old(node_innovation).current_innovation as int,
                final(node_innovation).current_innovation as int,
                child,
            ),
    {
        let ghost nb0 = node_innovation.current_innovation as int;
        let ghost cb0 = connection_innovation.current_innovation as int;
        let parent1 = self.select_parent(rng);
        proof {
            if sort_players_post(*old(self), *self) {
                lemma_sorted_species_within(*old(self), *self, nb0, cb0);
            } else {
                assert(*self == *old(self));
            }
        }
        let ghost mid1 = *self;
        let parent2 = self.select_parent(rng);
        proof {
            if sort_players_post(mid1, *self) {
                lemma_sorted_species_within(mid1, *self, nb0, cb0);
            } else {
                assert(*self == mid1);
            }
            assert(parent1.genome.nodes_within(nb0) && parent1.genome.conns_within(cb0)) by {
                let j = choose|j: int|
                    0 <= j < old(self).players@.len() && parent1.like(old(self).players@[j]);
            }
            assert(parent2.genome.nodes_within(nb0) && parent2.genome.conns_within(cb0)) by {
                let j = choose|j: int|
                    0 <= j < mid1.players@.len() && parent2.like(mid1.players@[j]);
                assert(players_within(mid1.players@, nb0, cb0));
            }
        }
        let ghost roster = old(self).players@;
        let ghost pick1: int = choose|j: int| 0 <= j < roster.len() && parent1.like(roster[j]);
        let ghost pick2: int = {
            let j = choose|j: int| 0 <= j < mid1.players@.len() && parent2.like(mid1.players@[j]);
            crate::sort::lemma_same_multiset_same_members(mid1.players@, roster);
            assert(mid1.players@.contains(mid1.players@[j]));
            assert(roster.contains(mid1.players@[j]));
            choose|k: int| 0 <= k < roster.len() && roster[k] == mid1.players@[j]
        };
        proof {
            assert(parent1.like(roster[pick1]));
            assert(parent2.like(roster[pick2]));
        }
        let ghost jf: int = if parent1.fitness < parent2.fitness {
            pick2
        } else {
            pick1
        };
        let ghost jl: int = if parent1.fitness < parent2.fitness {
            pick1
        } else {
            pick2
        };
        let mut child_genome = if parent1.get_fitness() < parent2.get_fitness() {
            Genome::crossover(
                &parent2.genome,
                &parent1.genome,
                config.disabled_gene_inheriting_chance,
                rng,
            )
        } else {
            Genome::crossover(
                &parent1.genome,
                &parent2.genome,
                config.disabled_gene_inheriting_chance,
                rng,
            )
        };
        proof {
            assert(child_genome.nodes_within(nb0) && child_genome.conns_within(cb0)) by {
                assert forall|i: int|
                    0 <= i < child_genome.connections@.len() implies #[trigger] child_genome.connections@[i].innovation
                    <= cb0 by {
                    if parent1.fitness < parent2.fitness {
                        assert(child_genome.connections@[i].innovation
                            == parent2.genome.connections@[i].innovation);
                    } else {
                        assert(child_genome.connections@[i].innovation
                            == parent1.genome.connections@[i].innovation);
                    }
                }
            }
            assert(child_genome.populated());
        }
        let ghost g_cross_v = child_genome;
        proof {
            assert(players_ok(roster));
            assert(roster[jf].wf() && roster[jl].wf());
            assert(roster[jf].fitness >= roster[jl].fitness);
            if parent1.fitness < parent2.fitness {
                assert(crossover_post(parent2.genome, parent1.genome, g_cross_v));
                lemma_crossover_post_same_view(
                    parent2.genome,
                    roster[jf].genome,
                    parent1.genome,
                    roster[jl].genome,
                    g_cross_v,
                );
            } else {
                assert(crossover_post(parent1.genome, parent2.genome, g_cross_v));
                lemma_crossover_post_same_view(
                    parent1.genome,
                    roster[jf].genome,
                    parent2.genome,
                    roster[jl].genome,
                    g_cross_v,
                );
            }
            assert(crossover_post(roster[jf].genome, roster[jl].genome, g_cross_v));
        }
        if rng_in_range(rng, 0, SCALE) < config.mutation_rate {
            child_genome.mutation(config.pertrubing_rate, rng);
        }
        let ghost g_weights_v = child_genome;
        proof {
            assert(g_weights_v == g_cross_v || weight_mutation_post(g_cross_v, g_weights_v));
        }
        if rng_in_range(rng, 0, SCALE) < config.add_node_rate {
            child_genome.add_node_mutation(connection_innovation, node_innovation, rng);
        }
        let ghost g_split_v = child_genome;
        let ghost cc_mid = connection_innovation.current_innovation as int;
        let ghost nc_fin = node_innovation.current_innovation as int;
        proof {
            assert((g_split_v == g_weights_v && cc_mid == cb0 && nc_fin == nb0)
                || node_split_post(g_weights_v, g_split_v, cb0, cc_mid, nb0, nc_fin));
        }
        if rng_in_range(rng, 0, SCALE) < config.add_connection_rate {
            child_genome.add_connection_mutation(connection_innovation, 100, rng);
        }
        let ghost cc_fin = connection_innovation.current_innovation as int;
        let child = FitnessGenome::new_empty(child_genome);
        proof {
            assert(connection_mutation_post(g_split_v, child.genome, cc_mid, cc_fin));
            assert(node_innovation.current_innovation as int == nc_fin);
            assert(offspring_of_with(
                roster,
                cb0,
                cc_fin,
                nb0,
                nc_fin,
                child,
                jf,
                jl,
                g_cross_v,
                g_weights_v,
                g_split_v,
                cc_mid,
            ));
        }
        child
    }

    /// Refreshes every species' best fitness and sorts the list by it,
    /// worst first.
    pub fn sort_species(species: &mut Vec<Species>)
        requires
            forall|i: int| 0 <= i < old(species)@.len() ==> (#[trigger] old(species)@[i]).wf(),
            forall|i: int|
                0 <= i < old(species)@.len() ==> (#[trigger] old(species)@[i]).players@.len() > 0,
        ensures
            final(species)@.len() == old(species)@.len(),
            crate::sort::sorted_asc_best(final(species)@),
            forall|i: int| 0 <= i < final(species)@.len() ==> (#[trigger] final(species)@[i]).wf(),
            exists|mid: Seq<Species>|
                #![trigger mid.to_multiset()]
                {
                    &&& mid.len() == old(species)@.len()
                    &&& (forall|i: int|
                        0 <= i < mid.len() ==> refreshed_from(
                            old(species)@[i],
                            #[trigger] mid[i],
                        ))
                    &&& final(species)@.to_multiset() == mid.to_multiset()
                },
    {
        let ghost orig = species@;
        let mut refreshed: Vec<Species> = Vec::new();
        while species.len() > 0
            invariant
                refreshed@.len() + species@.len() == orig.len(),
                species@ == orig.subrange(refreshed@.len() as int, orig.len() as int),
                forall|i: int| 0 <= i < orig.len() ==> (#[trigger] orig[i]).wf(),
                forall|i: int| 0 <= i < orig.len() ==> (#[trigger] orig[i]).players@.len() > 0,
                forall|k: int|
                    0 <= k < refreshed@.len() ==> refreshed_from(
                        orig[k],
                        #[trigger] refreshed@[k],
                    ) && refreshed@[k].wf(),
            decreases species@.len(),
        {
            let ghost k = refreshed@.len() as int;
            let mut s = species.remove(0);
            proof {
                assert(s == orig[k]);
            }
            let ghost pre = s;
            s.refresh_best_fitness();
            proof {
                let m = choose|m: Species|
                    #[trigger] sort_players_post(pre, m) && s == (Species {
                        best_fitness: s.best_fitness,
                        ..m
                    }) && s.best_fitness == m.players@[0].fitness;
                assert(m.players@.len() > 0);
                assert(refreshed_from(pre, s));
            }
            refreshed.push(s);
            proof {
                assert(species@ =~= orig.subrange(refreshed@.len() as int, orig.len() as int));
            }
        }
        let ghost mid = refreshed@;
        crate::sort::sort_species_asc(&mut refreshed);
        proof {
            crate::sort::lemma_same_multiset_same_members(refreshed@, mid);
            assert forall|i: int|
                0 <= i < refreshed@.len() implies (#[trigger] refreshed@[i]).wf() by {
                assert(refreshed@.contains(refreshed@[i]));
                assert(mid.contains(refreshed@[i]));
                let j = choose|j: int| 0 <= j < mid.len() && mid[j] == refreshed@[i];
            }
        }
        *species = refreshed;
    }
}

} // verus!
