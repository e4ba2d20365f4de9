//! The evaluator: one generation at a time it speciates the population,
//! has the caller score every genome, culls within and across species, and
//! refills the population from elite copies and bred offspring.

use vstd::prelude::*;

use crate::config::Config;
use crate::counter::Counter;
use crate::fitness_genome::FitnessGenome;
use crate::genome::Genome;
use crate::numeric::FITNESS_LIMIT;
use crate::numeric::ROSTER_LIMIT;
use crate::numeric::SPECIES_LIMIT;
use crate::species::Species;
use crate::species::players_ok;
use crate::species::players_within;
use crate::species::spec_same_species;

verus! {

/// Largest counter value at which a generation may still start: leaves
/// room for every innovation number a full generation can consume.
pub const COUNTER_HEADROOM: i32 = 2_000_000_000;

/// Per-generation bookkeeping.
#[derive(Debug, Clone, PartialEq)]
pub struct Stats {
    this_generation_kills: i32,
}

/// A genesis genome shaped after a template: the template's node genes
/// verbatim and one connection gene per template gene with the same
/// endpoints, innovation number and expressed flag — only the weight may
/// differ, within the weight bound.
pub open spec fn genesis_shaped(template: Genome, g: Genome) -> bool {
    &&& g.nodes@ == template.nodes@
    &&& g.connections@.len() == template.connections@.len()
    &&& forall|i: int|
        0 <= i < g.connections@.len() ==> {
            let c = #[trigger] g.connections@[i];
            let c0 = template.connections@[i];
            c.innovation == c0.innovation && c.in_node == c0.in_node && c.out_node == c0.out_node
                && c.expressed == c0.expressed && -crate::numeric::WEIGHT_LIMIT <= c.weight
                <= crate::numeric::WEIGHT_LIMIT
        }
}

/// Supplies the initial genome of every population slot, shaped after a
/// template: the node genes and the structure of every connection gene are
/// kept, only the weights may be redrawn, within the weight bound.
pub trait GenesisGenomeProvider {
    fn generate_genesis_genome(&self, genome: &Genome) -> (r: Genome)
        ensures
            genesis_shaped(*genome, r),
    ;
}

/// Scores a genome. The score must be a pure function of the genome and
/// lie within the fitness range. The function itself is the caller's: an
/// implementation is never verified, so nothing beyond the range can be
/// assumed of the value handed back.
pub trait FitnessGenomeProvider {
    fn fitness_genome_evaluator(&self, genome: &Genome) -> (r: i64)
        ensures
            0 <= r <= FITNESS_LIMIT,
    ;
}

/// How many players all rosters of a species list hold together.
pub open spec fn roster_total(ss: Seq<Species>) -> int
    decreases ss.len(),
{
    if ss.len() == 0 {
        0
    } else {
        roster_total(ss.drop_last()) + ss.last().players@.len()
    }
}

/// Every species of the list is well formed.
pub open spec fn species_all_wf(ss: Seq<Species>) -> bool {
    forall|i: int| 0 <= i < ss.len() ==> (#[trigger] ss[i]).wf()
}

/// Every genome of every species stays within the counter bounds.
pub open spec fn species_all_within(ss: Seq<Species>, nb: int, cb: int) -> bool {
    forall|i: int| 0 <= i < ss.len() ==> (#[trigger] ss[i]).within(nb, cb)
}

/// No roster outgrows the limit the parent selection accepts.
pub open spec fn rosters_bounded(ss: Seq<Species>) -> bool {
    forall|i: int| 0 <= i < ss.len() ==> (#[trigger] ss[i]).players@.len() <= ROSTER_LIMIT
}

/// Every roster holds at least one player.
pub open spec fn rosters_nonempty(ss: Seq<Species>) -> bool {
    forall|i: int| 0 <= i < ss.len() ==> (#[trigger] ss[i]).players@.len() >= 1
}

/// The stored average fitness of every member is part of the sum of a
/// nonnegative list.
pub open spec fn avg_total(ss: Seq<Species>) -> int
    decreases ss.len(),
{
    if ss.len() == 0 {
        0
    } else {
        avg_total(ss.drop_last()) + ss.last().average_fitness
    }
}

proof fn lemma_avg_total_bounds(ss: Seq<Species>)
    requires
        species_all_wf(ss),
    ensures
        0 <= avg_total(ss) <= ss.len() * FITNESS_LIMIT,
    decreases ss.len(),
{
    if ss.len() > 0 {
        assert(ss.last().wf());
        assert forall|i: int| 0 <= i < ss.drop_last().len() implies (#[trigger] ss.drop_last()[i]).wf() by {
            assert(ss[i].wf());
        }
        lemma_avg_total_bounds(ss.drop_last());
    }
}

/// The sum of the stored averages covers each single member.
proof fn lemma_avg_total_member(ss: Seq<Species>, i: int)
    requires
        species_all_wf(ss),
        0 <= i < ss.len(),
    ensures
        ss[i].average_fitness <= avg_total(ss),
    decreases ss.len(),
{
    assert(ss.last().wf());
    assert forall|k: int| 0 <= k < ss.drop_last().len() implies (#[trigger] ss.drop_last()[k]).wf() by {
        assert(ss[k].wf());
    }
    lemma_avg_total_bounds(ss.drop_last());
    if i < ss.len() - 1 {
        lemma_avg_total_member(ss.drop_last(), i);
        assert(ss.last().wf());
    }
}

/// Orchestrates the generational loop: population, species, counters and
/// the best genome seen so far.
pub struct Evaluator {
    config: Config,
    players: Vec<FitnessGenome>,
    species: Vec<Species>,
    best_player: FitnessGenome,
    gen_players: Vec<FitnessGenome>,
    best_fitness: i64,
    generation_id: Counter,
    node_innovation: Counter,
    connection_innovation: Counter,
    stats: Stats,
}

impl Evaluator {
    pub closed spec fn spec_config(self) -> Config {
        self.config
    }

    pub closed spec fn spec_players(self) -> Seq<FitnessGenome> {
        self.players@
    }

    pub closed spec fn spec_species(self) -> Seq<Species> {
        self.species@
    }

    pub closed spec fn spec_node_counter(self) -> int {
        self.node_innovation.current_innovation as int
    }

    pub closed spec fn spec_conn_counter(self) -> int {
        self.connection_innovation.current_innovation as int
    }

    pub closed spec fn spec_generation(self) -> int {
        self.generation_id.current_innovation as int
    }

    pub closed spec fn spec_best_fitness(self) -> int {
        self.best_fitness as int
    }

    pub closed spec fn spec_best_player(self) -> FitnessGenome {
        self.best_player
    }

    /// The per-generation log of each generation's leading player.
    pub closed spec fn spec_generation_bests(self) -> Seq<FitnessGenome> {
        self.gen_players@
    }

    /// The evaluator's standing invariant: every genome it holds is well
    /// formed, populated and within the counters, every bookkeeping field
    /// in range.
    pub closed spec fn inv(self) -> bool {
        &&& players_ok(self.players@)
        &&& players_within(
            self.players@,
            self.node_innovation.current_innovation as int,
            self.connection_innovation.current_innovation as int,
        )
        &&& species_all_wf(self.species@)
        &&& species_all_within(
            self.species@,
            self.node_innovation.current_innovation as int,
            self.connection_innovation.current_innovation as int,
        )
        &&& rosters_bounded(self.species@)
        &&& self.players@.len() <= ROSTER_LIMIT
        &&& self.best_player.wf()
        &&& 0 <= self.best_fitness <= FITNESS_LIMIT
        &&& players_ok(self.gen_players@)
        &&& 0 <= self.generation_id.current_innovation
        &&& 0 <= self.node_innovation.current_innovation
        &&& 0 <= self.connection_innovation.current_innovation
        &&& 0 <= self.stats.this_generation_kills
    }

    /// A blank evaluator: empty population, empty species list, fresh
    /// counters, and a default configuration awaiting `init`.
    pub fn new() -> (e: Evaluator)
        ensures
            e.inv(),
            e.spec_players().len() == 0,
            e.spec_species().len() == 0,
            e.spec_node_counter() == 0,
            e.spec_conn_counter() == 0,
    {
        Evaluator {
            config: Config::new(0, 0, 0),
            players: Vec::new(),
            species: Vec::new(),
            best_player: FitnessGenome::new_empty(Genome::new()),
            gen_players: Vec::new(),
            best_fitness: 0,
            generation_id: Counter::new(),
            node_innovation: Counter::new(),
            connection_innovation: Counter::new(),
            stats: Stats { this_generation_kills: 0 },
        }
    }

    /// Initializes a run: adopts the configuration and the counter values,
    /// clears any previous state, and fills the population with one
    /// genesis genome per slot, each shaped after the template.
    pub fn init<P: GenesisGenomeProvider>(
        &mut self,
        config: &Config,
        default_genome: &Genome,
        genome_provider: &P,
        node_innovation: &mut Counter,
        connection_innovation: &mut Counter,
    )
        requires
            old(self).inv(),
            config.valid(),
            default_genome.wf(),
            default_genome.populated(),
            0 <= old(node_innovation).current_innovation,
            0 <= old(connection_innovation).current_innovation,
            default_genome.nodes_within(old(node_innovation).current_innovation as int),
            default_genome.conns_within(old(connection_innovation).current_innovation as int),
        ensures
            final(self).inv(),
            final(self).spec_config() == *config,
            final(self).spec_players().len() == config.population_size,
            final(self).spec_species().len() == 0,
            final(self).spec_node_counter() == old(node_innovation).current_innovation as int,
            final(self).spec_conn_counter() == old(connection_innovation).current_innovation as int,
            *final(node_innovation) == *old(node_innovation),
            *final(connection_innovation) == *old(connection_innovation),
            forall|i: int|
                0 <= i < final(self).spec_players().len() ==> (#[trigger] final(self).spec_players()[i]).fitness == 0,
            forall|i: int|
                0 <= i < final(self).spec_players().len() ==> genesis_shaped(
                    *default_genome,
                    (#[trigger] final(self).spec_players()[i]).genome,
                ),
    {
        self.config = *config;
        self.species = Vec::new();
        self.players = Vec::new();
        self.node_innovation.current_innovation = node_innovation.load_innovation();
        self.connection_innovation.current_innovation = connection_innovation.load_innovation();
        let target = self.config.get_population_size();
        let mut i: usize = 0;
        while i < target
            invariant
                i <= target,
                self.players@.len() == i,
                target == config.population_size <= crate::numeric::POPULATION_LIMIT,
                self.config == *config,
                self.species@.len() == 0,
                self.best_player.wf(),
                0 <= self.best_fitness <= FITNESS_LIMIT,
                players_ok(self.gen_players@),
                0 <= self.generation_id.current_innovation,
                0 <= self.node_innovation.current_innovation,
                0 <= self.connection_innovation.current_innovation,
                0 <= self.stats.this_generation_kills,
                default_genome.wf(),
                default_genome.populated(),
                self.node_innovation.current_innovation == old(node_innovation).current_innovation,
                self.connection_innovation.current_innovation == old(connection_innovation).current_innovation,
                default_genome.nodes_within(self.node_innovation.current_innovation as int),
                default_genome.conns_within(self.connection_innovation.current_innovation as int),
                players_ok(self.players@),
                players_within(
                    self.players@,
                    self.node_innovation.current_innovation as int,
                    self.connection_innovation.current_innovation as int,
                ),
                forall|k: int|
                    0 <= k < self.players@.len() ==> (#[trigger] self.players@[k]).fitness == 0,
                forall|k: int|
                    0 <= k < self.players@.len() ==> genesis_shaped(
                        *default_genome,
                        (#[trigger] self.players@[k]).genome,
                    ),
            decreases target - i,
        {
            let g = genome_provider.generate_genesis_genome(default_genome);
            proof {
                assert(g.wf()) by {
                    assert forall|a: int, b: int|
                        0 <= a < b < g.connections@.len() implies g.connections@[a].innovation
                        < g.connections@[b].innovation by {
                        assert(default_genome.connections@[a].innovation
                            < default_genome.connections@[b].innovation);
                    }
                    assert forall|k: int| 0 <= k < g.connections@.len() implies g.has_node(
                        #[trigger] g.connections@[k].in_node as int,
                    ) && g.has_node(g.connections@[k].out_node as int) by {
                        assert(default_genome.has_node(
                            default_genome.connections@[k].in_node as int,
                        ));
                        assert(default_genome.has_node(
                            default_genome.connections@[k].out_node as int,
                        ));
                    }
                    assert forall|k: int|
                        0 <= k < g.connections@.len() implies #[trigger] g.connections@[k].innovation
                        >= 0 by {
                        assert(default_genome.connections@[k].innovation >= 0);
                    }
                }
                assert(g.conns_within(self.connection_innovation.current_innovation as int)) by {
                    assert forall|k: int|
                        0 <= k < g.connections@.len() implies #[trigger] g.connections@[k].innovation
                        <= self.connection_innovation.current_innovation by {
                        assert(default_genome.connections@[k].innovation
                            <= self.connection_innovation.current_innovation);
                    }
                }
            }
            self.players.push(FitnessGenome::new_empty(g));
            i = i + 1;
        }
    }
}

proof fn lemma_roster_total_bounds(ss: Seq<Species>)
    ensures
        roster_total(ss) >= 0,
        forall|i: int| 0 <= i < ss.len() ==> (#[trigger] ss[i]).players@.len() <= roster_total(ss),
    decreases ss.len(),
{
    if ss.len() > 0 {
        lemma_roster_total_bounds(ss.drop_last());
        assert forall|i: int|
            0 <= i < ss.len() implies (#[trigger] ss[i]).players@.len() <= roster_total(ss) by {
            if i < ss.len() - 1 {
                assert(ss.drop_last()[i] == ss[i]);
            }
        }
    }
}

proof fn lemma_roster_total_update(ss: Seq<Species>, j: int, s: Species)
    requires
        0 <= j < ss.len(),
    ensures
        roster_total(ss.update(j, s)) == roster_total(ss) - ss[j].players@.len()
            + s.players@.len(),
    decreases ss.len(),
{
    let t = ss.update(j, s);
    if j == ss.len() - 1 {
        assert(t.drop_last() =~= ss.drop_last());
        assert(t.last() == s);
    } else {
        assert(t.last() == ss.last());
        assert(t.drop_last() =~= ss.drop_last().update(j, s));
        lemma_roster_total_update(ss.drop_last(), j, s);
    }
}

/// The first-match placement rule of speciation, read off the final
/// species list: every player stored in species `i` matches no species
/// before `i`, and either matches species `i` or founded it (the
/// representative is its own genome).
pub open spec fn first_match_placement(ss: Seq<Species>, config: Config) -> bool {
    forall|i: int, q: int|
        #![trigger ss[i].players@[q]]
        0 <= i < ss.len() && 0 <= q < ss[i].players@.len() ==> {
            let g = ss[i].players@[q].genome;
            (forall|k: int| 0 <= k < i ==> !spec_same_species((#[trigger] ss[k]).rep, g, config))
                && (spec_same_species(ss[i].rep, g, config) || (ss[i].rep.nodes@ == g.nodes@
                && ss[i].rep.connections@ == g.connections@))
        }
}

impl Evaluator {
    /// Speciation: every species keeps its representative but starts with
    /// an empty roster; each player then joins the first species whose
    /// representative it is compatible with, in stable species order, or
    /// founds a new species. First match, not nearest match.
    pub fn speciate(&mut self)
        requires
            old(self).inv(),
            old(self).spec_config().valid(),
        ensures
            final(self).inv(),
            final(self).spec_players() == old(self).spec_players(),
            final(self).spec_config() == old(self).spec_config(),
            final(self).spec_node_counter() == old(self).spec_node_counter(),
            final(self).spec_conn_counter() == old(self).spec_conn_counter(),
            final(self).spec_generation() == old(self).spec_generation(),
            final(self).spec_best_player() == old(self).spec_best_player(),
            roster_total(final(self).spec_species()) == old(self).spec_players().len(),
            old(self).spec_species().len() <= final(self).spec_species().len() <= old(self).spec_species().len() + old(self).spec_players().len(),
            rosters_bounded(final(self).spec_species()),
            forall|i: int|
                0 <= i < old(self).spec_species().len() ==> {
                    let s0 = old(self).spec_species()[i];
                    let s1 = #[trigger] final(self).spec_species()[i];
                    s1.rep == s0.rep && s1.best_fitness == s0.best_fitness && s1.staleness
                        == s0.staleness && s1.average_fitness == s0.average_fitness
                },
            first_match_placement(final(self).spec_species(), old(self).spec_config()),
    {
        let ghost orig_species = self.species@;
        let ghost cfg = self.config;
        let ghost nb = self.node_innovation.current_innovation as int;
        let ghost cb = self.connection_innovation.current_innovation as int;
        let mut cleared: Vec<Species> = Vec::new();
        while self.species.len() > 0
            invariant
                cleared@.len() + self.species@.len() == orig_species.len(),
                self.species@ == orig_species.subrange(
                    cleared@.len() as int,
                    orig_species.len() as int,
                ),
                species_all_wf(orig_species),
                species_all_within(orig_species, nb, cb),
                self.players@ == old(self).players@,
                players_ok(self.players@),
                players_within(self.players@, nb, cb),
                self.players@.len() <= ROSTER_LIMIT,
                self.config == cfg,
                cfg.valid(),
                nb == self.node_innovation.current_innovation as int,
                cb == self.connection_innovation.current_innovation as int,
                self.best_player == old(self).best_player,
                self.generation_id == old(self).generation_id,
                self.best_player.wf(),
                0 <= self.best_fitness <= FITNESS_LIMIT,
                players_ok(self.gen_players@),
                0 <= self.generation_id.current_innovation,
                0 <= self.node_innovation.current_innovation,
                0 <= self.connection_innovation.current_innovation,
                0 <= self.stats.this_generation_kills,
                forall|k: int|
                    0 <= k < cleared@.len() ==> {
                        let s0 = orig_species[k];
                        let s1 = #[trigger] cleared@[k];
                        s1.players@.len() == 0 && s1.rep == s0.rep && s1.best_fitness
                            == s0.best_fitness && s1.staleness == s0.staleness
                            && s1.average_fitness == s0.average_fitness && s1.wf() && s1.within(
                            nb,
                            cb,
                        )
                    },
            decreases self.species@.len(),
        {
            let ghost k = cleared@.len() as int;
            let mut s = self.species.remove(0);
            proof {
                assert(s == orig_species[k]);
            }
            s.players.clear();
            cleared.push(s);
            proof {
                assert(self.species@ =~= orig_species.subrange(
                    cleared@.len() as int,
                    orig_species.len() as int,
                ));
            }
        }
        self.species = cleared;
        proof {
            lemma_roster_total_zero(self.species@);
        }
        let ghost base_len = self.species@.len() as int;
        let total = self.players.len();
        let mut pi: usize = 0;
        while pi < total
            invariant
                pi <= total,
                total == self.players@.len(),
                self.players@ == old(self).players@,
                self.players@.len() <= ROSTER_LIMIT,
                players_ok(self.players@),
                players_within(self.players@, nb, cb),
                cfg.valid(),
                self.config == cfg,
                nb == self.node_innovation.current_innovation as int,
                cb == self.connection_innovation.current_innovation as int,
                self.best_player == old(self).best_player,
                self.generation_id == old(self).generation_id,
                self.best_player.wf(),
                0 <= self.best_fitness <= FITNESS_LIMIT,
                players_ok(self.gen_players@),
                0 <= self.generation_id.current_innovation,
                0 <= self.node_innovation.current_innovation,
                0 <= self.connection_innovation.current_innovation,
                0 <= self.stats.this_generation_kills,
                species_all_wf(self.species@),
                species_all_within(self.species@, nb, cb),
                roster_total(self.species@) == pi,
                rosters_bounded(self.species@),
                base_len <= self.species@.len() <= base_len + pi,
                base_len <= orig_species.len() + pi,
                forall|i: int|
                    0 <= i < base_len ==> {
                        let s0 = orig_species[i];
                        let s1 = #[trigger] self.species@[i];
                        s1.rep == s0.rep && s1.best_fitness == s0.best_fitness && s1.staleness
                            == s0.staleness && s1.average_fitness == s0.average_fitness
                    },
                base_len == orig_species.len(),
                first_match_placement(self.species@, cfg),
            decreases total - pi,
        {
            let snap = self.players[pi].snapshot();
            proof {
                assert(self.players@[pi as int].wf());
                assert(snap.wf() && snap.genome.populated());
            }
            let mut j: usize = 0;
            let mut joined: bool = false;
            while j < self.species.len() && !joined
                invariant
                    j <= self.species@.len(),
                    cfg.valid(),
                    self.config == cfg,
                    snap.wf(),
                    snap.genome.populated(),
                    species_all_wf(self.species@),
                    !joined ==> forall|k: int|
                        0 <= k < j ==> !spec_same_species(
                            (#[trigger] self.species@[k]).rep,
                            snap.genome,
                            cfg,
                        ),
                    joined ==> j < self.species@.len() && spec_same_species(
                        self.species@[j as int].rep,
                        snap.genome,
                        cfg,
                    ) && (forall|k: int|
                        0 <= k < j ==> !spec_same_species(
                            (#[trigger] self.species@[k]).rep,
                            snap.genome,
                            cfg,
                        )),
                decreases self.species@.len() - j, (if joined { 0int } else { 1int }),
            {
                proof {
                    assert(self.species@[j as int].wf());
                }
                let matched = crate::species::same_species_check(
                    &self.species[j].rep,
                    &snap.genome,
                    &self.config,
                );
                if matched {
                    joined = true;
                } else {
                    j = j + 1;
                }
            }
            if joined {
                let ghost pre = self.species@;
                let mut s = self.species.remove(j);
                let ghost roster0 = s.players@;
                s.add_player(snap);
                self.species.insert(j, s);
                proof {
                    assert(self.species@ =~= pre.update(j as int, s));
                    lemma_roster_total_update(pre, j as int, s);
                    assert forall|i: int|
                        0 <= i < self.species@.len() implies (#[trigger] self.species@[i]).wf() by {
                        if i != j {
                            assert(self.species@[i] == pre[i]);
                        } else {
                            assert(s.players@ == roster0.push(snap));
                            assert forall|q: int|
                                0 <= q < s.players@.len() implies (#[trigger] s.players@[q]).wf()
                                && s.players@[q].genome.populated() by {
                                if q < roster0.len() {
                                    assert(pre[j as int].players@[q].wf());
                                }
                            }
                        }
                    }
                    assert forall|i: int|
                        0 <= i < self.species@.len() implies (#[trigger] self.species@[i]).within(
                        nb,
                        cb,
                    ) by {
                        if i != j {
                            assert(self.species@[i] == pre[i]);
                        } else {
                            assert forall|q: int|
                                0 <= q < s.players@.len() implies (#[trigger] s.players@[q]).genome.nodes_within(
                                nb,
                            ) && s.players@[q].genome.conns_within(cb) by {
                                if q < roster0.len() {
                                    assert(pre[j as int].players@[q].genome.nodes_within(nb)
                                        && pre[j as int].players@[q].genome.conns_within(cb));
                                } else {
                                    assert(s.players@[q] == snap);
                                    assert(self.players@[pi as int].genome.nodes_within(nb)
                                        && self.players@[pi as int].genome.conns_within(cb));
                                }
                            }
                        }
                    }
                    lemma_roster_total_bounds(self.species@);
                    assert forall|i: int, q: int|
                        #![trigger self.species@[i].players@[q]]
                        0 <= i < self.species@.len() && 0 <= q
                            < self.species@[i].players@.len() implies {
                        let g = self.species@[i].players@[q].genome;
                        (forall|k: int|
                            0 <= k < i ==> !spec_same_species(
                                (#[trigger] self.species@[k]).rep,
                                g,
                                cfg,
                            )) && (spec_same_species(self.species@[i].rep, g, cfg) || (
                        self.species@[i].rep.nodes@ == g.nodes@ && self.species@[i].rep.connections@
                            == g.connections@))
                    } by {
                        if i != j {
                            assert(self.species@[i] == pre[i]);
                            assert(pre[i].players@[q] == self.species@[i].players@[q]);
                            assert forall|k: int|
                                0 <= k < i implies !spec_same_species(
                                (#[trigger] self.species@[k]).rep,
                                self.species@[i].players@[q].genome,
                                cfg,
                            ) by {
                                if k != j {
                                    assert(self.species@[k] == pre[k]);
                                } else {
                                    assert(self.species@[k].rep == pre[k].rep);
                                }
                            }
                        } else {
                            if q < roster0.len() {
                                assert(pre[j as int].players@[q] == self.species@[i].players@[q]);
                                assert forall|k: int|
                                    0 <= k < i implies !spec_same_species(
                                    (#[trigger] self.species@[k]).rep,
                                    self.species@[i].players@[q].genome,
                                    cfg,
                                ) by {
                                    assert(self.species@[k] == pre[k]);
                                }
                            } else {
                                assert(self.species@[i].players@[q] == snap);
                                assert forall|k: int|
                                    0 <= k < i implies !spec_same_species(
                                    (#[trigger] self.species@[k]).rep,
                                    snap.genome,
                                    cfg,
                                ) by {
                                    assert(self.species@[k] == pre[k]);
                                }
                                assert(self.species@[j as int].rep == pre[j as int].rep);
                            }
                        }
                    }
                }
            } else {
                let ghost pre = self.species@;
                let rep_copy = Genome {
                    nodes: snap.genome.get_node_genes(),
                    connections: snap.genome.get_connection_genes(),
                };
                let mut roster: Vec<FitnessGenome> = Vec::new();
                roster.push(FitnessGenome { fitness: 0, genome: snap.genome });
                let fresh = Species {
                    players: roster,
                    best_fitness: 0,
                    average_fitness: 0,
                    staleness: 0,
                    rep: rep_copy,
                };
                self.species.push(fresh);
                proof {
                    assert(self.species@.drop_last() =~= pre);
                    assert(self.species@.last() == fresh);
                    assert(roster_total(self.species@) == roster_total(pre) + 1);
                    lemma_roster_total_bounds(self.species@);
                    assert forall|i: int|
                        0 <= i < self.species@.len() implies (#[trigger] self.species@[i]).wf() by {
                        if i < pre.len() {
                            assert(self.species@[i] == pre[i]);
                        } else {
                            assert(self.species@[i] == fresh);
                            assert(fresh.rep.wf() && fresh.rep.populated());
                            assert(fresh.players@[0].wf());
                        }
                    }
                    assert forall|i: int|
                        0 <= i < self.species@.len() implies (#[trigger] self.species@[i]).within(
                        nb,
                        cb,
                    ) by {
                        if i < pre.len() {
                            assert(self.species@[i] == pre[i]);
                        } else {
                            assert(self.species@[i] == fresh);
                            assert(self.players@[pi as int].genome.nodes_within(nb)
                                && self.players@[pi as int].genome.conns_within(cb));
                            assert(fresh.rep.nodes_within(nb) && fresh.rep.conns_within(cb));
                            assert(fresh.players@[0].genome.nodes_within(nb)
                                && fresh.players@[0].genome.conns_within(cb));
                        }
                    }
                    assert forall|i: int, q: int|
                        #![trigger self.species@[i].players@[q]]
                        0 <= i < self.species@.len() && 0 <= q
                            < self.species@[i].players@.len() implies {
                        let g = self.species@[i].players@[q].genome;
                        (forall|k: int|
                            0 <= k < i ==> !spec_same_species(
                                (#[trigger] self.species@[k]).rep,
                                g,
                                cfg,
                            )) && (spec_same_species(self.species@[i].rep, g, cfg) || (
                        self.species@[i].rep.nodes@ == g.nodes@ && self.species@[i].rep.connections@
                            == g.connections@))
                    } by {
                        if i < pre.len() {
                            assert(self.species@[i] == pre[i]);
                            assert(pre[i].players@[q] == self.species@[i].players@[q]);
                            assert forall|k: int|
                                0 <= k < i implies !spec_same_species(
                                (#[trigger] self.species@[k]).rep,
                                self.species@[i].players@[q].genome,
                                cfg,
                            ) by {
                                assert(self.species@[k] == pre[k]);
                            }
                        } else {
                            assert(self.species@[i] == fresh);
                            assert(fresh.players@[q] == fresh.players@[0]);
                            assert(fresh.rep.nodes@ == fresh.players@[0].genome.nodes@);
                            assert(fresh.rep.connections@ == fresh.players@[0].genome.connections@);
                            assert forall|k: int|
                                0 <= k < i implies !spec_same_species(
                                (#[trigger] self.species@[k]).rep,
                                fresh.players@[0].genome,
                                cfg,
                            ) by {
                                assert(self.species@[k] == pre[k]);
                                assert(!spec_same_species(pre[k].rep, snap.genome, cfg));
                            }
                        }
                    }
                }
            }
            pi = pi + 1;
        }
    }
}

/// The species of `ss`, in order, whose staleness stays below `limit`.
pub open spec fn retain_fresh(ss: Seq<Species>, limit: int) -> Seq<Species>
    decreases ss.len(),
{
    if ss.len() == 0 {
        Seq::empty()
    } else {
        let rest = retain_fresh(ss.drop_first(), limit);
        if ss.first().staleness < limit {
            seq![ss.first()] + rest
        } else {
            rest
        }
    }
}

/// The species of `ss`, in order, whose average fitness scaled by the
/// population size reaches the total of all averages.
pub open spec fn retain_fit(ss: Seq<Species>, pop: int, total: int) -> Seq<Species>
    decreases ss.len(),
{
    if ss.len() == 0 {
        Seq::empty()
    } else {
        let rest = retain_fit(ss.drop_first(), pop, total);
        if ss.first().average_fitness * pop >= total {
            seq![ss.first()] + rest
        } else {
            rest
        }
    }
}

/// Every retained species is one of the originals.
proof fn lemma_retain_fresh_member(ss: Seq<Species>, limit: int)
    ensures
        forall|i: int|
            0 <= i < retain_fresh(ss, limit).len() ==> exists|j: int|
                0 <= j < ss.len() && #[trigger] retain_fresh(ss, limit)[i] == ss[j],
    decreases ss.len(),
{
    if ss.len() > 0 {
        lemma_retain_fresh_member(ss.drop_first(), limit);
        let rest = retain_fresh(ss.drop_first(), limit);
        assert forall|i: int|
            0 <= i < retain_fresh(ss, limit).len() implies exists|j: int|
            0 <= j < ss.len() && #[trigger] retain_fresh(ss, limit)[i] == ss[j] by {
            if ss.first().staleness < limit {
                if i == 0 {
                    assert(retain_fresh(ss, limit)[0] == ss[0]);
                } else {
                    assert(retain_fresh(ss, limit)[i] == rest[i - 1]);
                    let j = choose|j: int|
                        0 <= j < ss.drop_first().len() && rest[i - 1] == ss.drop_first()[j];
                    assert(ss.drop_first()[j] == ss[j + 1]);
                }
            } else {
                assert(retain_fresh(ss, limit)[i] == rest[i]);
                let j = choose|j: int|
                    0 <= j < ss.drop_first().len() && rest[i] == ss.drop_first()[j];
                assert(ss.drop_first()[j] == ss[j + 1]);
            }
        }
    }
}

/// Every retained species is one of the originals.
proof fn lemma_retain_fit_member(ss: Seq<Species>, pop: int, total: int)
    ensures
        forall|i: int|
            0 <= i < retain_fit(ss, pop, total).len() ==> exists|j: int|
                0 <= j < ss.len() && #[trigger] retain_fit(ss, pop, total)[i] == ss[j],
    decreases ss.len(),
{
    if ss.len() > 0 {
        lemma_retain_fit_member(ss.drop_first(), pop, total);
        let rest = retain_fit(ss.drop_first(), pop, total);
        assert forall|i: int|
            0 <= i < retain_fit(ss, pop, total).len() implies exists|j: int|
            0 <= j < ss.len() && #[trigger] retain_fit(ss, pop, total)[i] == ss[j] by {
            if ss.first().average_fitness * pop >= total {
                if i == 0 {
                    assert(retain_fit(ss, pop, total)[0] == ss[0]);
                } else {
                    assert(retain_fit(ss, pop, total)[i] == rest[i - 1]);
                    let j = choose|j: int|
                        0 <= j < ss.drop_first().len() && rest[i - 1] == ss.drop_first()[j];
                    assert(ss.drop_first()[j] == ss[j + 1]);
                }
            } else {
                assert(retain_fit(ss, pop, total)[i] == rest[i]);
                let j = choose|j: int|
                    0 <= j < ss.drop_first().len() && rest[i] == ss.drop_first()[j];
                assert(ss.drop_first()[j] == ss[j + 1]);
            }
        }
    }
}

proof fn lemma_retain_fresh_shorter(ss: Seq<Species>, limit: int)
    ensures
        retain_fresh(ss, limit).len() <= ss.len(),
    decreases ss.len(),
{
    if ss.len() > 0 {
        lemma_retain_fresh_shorter(ss.drop_first(), limit);
    }
}

proof fn lemma_retain_fit_shorter(ss: Seq<Species>, pop: int, total: int)
    ensures
        retain_fit(ss, pop, total).len() <= ss.len(),
    decreases ss.len(),
{
    if ss.len() > 0 {
        lemma_retain_fit_shorter(ss.drop_first(), pop, total);
    }
}

/// A species within tighter counter bounds is within looser ones.
proof fn lemma_species_within_mono(s: Species, nb: int, cb: int, nb2: int, cb2: int)
    requires
        s.within(nb, cb),
        nb <= nb2,
        cb <= cb2,
    ensures
        s.within(nb2, cb2),
{
    assert forall|i: int|
        0 <= i < s.players@.len() implies (#[trigger] s.players@[i]).genome.nodes_within(nb2)
            && s.players@[i].genome.conns_within(cb2) by {
        assert(s.players@[i].genome.nodes_within(nb) && s.players@[i].genome.conns_within(cb));
    }
}

/// A roster within tighter counter bounds is within looser ones.
proof fn lemma_players_within_mono(ps: Seq<FitnessGenome>, nb: int, cb: int, nb2: int, cb2: int)
    requires
        players_within(ps, nb, cb),
        nb <= nb2,
        cb <= cb2,
    ensures
        players_within(ps, nb2, cb2),
{
    assert forall|i: int|
        0 <= i < ps.len() implies (#[trigger] ps[i]).genome.nodes_within(nb2)
            && ps[i].genome.conns_within(cb2) by {
        assert(ps[i].genome.nodes_within(nb) && ps[i].genome.conns_within(cb));
    }
}

/// The spec's offspring quota for one species: its stored average scaled
/// by the population size over the total of all averages, floored, less
/// the elite — except that a zero total grants one child.
pub open spec fn spec_quota(avg: int, total: int, pop: int) -> int {
    if total == 0 {
        1
    } else {
        (avg * pop) / total - 1
    }
}

/// The sum of the first `k` per-species bred counts.
pub open spec fn sum_counts(counts: Seq<int>, k: int) -> int
    decreases k,
{
    if k <= 0 {
        0
    } else {
        sum_counts(counts, k - 1) + counts[k - 1]
    }
}

/// `counts[i]` is exactly the clamped quota of species `i`: its spec
/// quota, no less than zero, and no more than the headroom left toward the
/// population target once the elites and the earlier species' children are
/// counted.
#[verifier::opaque]
pub open spec fn planned_count(
    species: Seq<Species>,
    total: int,
    pop: int,
    counts: Seq<int>,
    i: int,
) -> bool {
    counts[i] == {
        let q = spec_quota(species[i].average_fitness as int, total, pop);
        let head = pop - species.len() - sum_counts(counts, i);
        if q <= 0 {
            0int
        } else if head <= 0 {
            0int
        } else if q <= head {
            q
        } else {
            head
        }
    }
}

/// The reproduce step's exact bookkeeping. One elite per species stands at
/// the head of the new population; then `counts[i]` children bred from
/// species `i` — its spec quota, clamped below at zero and above at the
/// headroom left toward the population target — and finally top-up
/// children, all bred from the species at the head of the list: the
/// best-ranked when reproduction starts, since culling ranks the list
/// best-first and the stale and low-share removals keep that order (the
/// head's own best fitness may still improve while it breeds). `src`
/// assigns every non-elite slot its breeding species.
pub open spec fn reproduction_plan(
    species: Seq<Species>,
    players: Seq<FitnessGenome>,
    pop: int,
    counts: Seq<int>,
    src: Seq<int>,
) -> bool {
    let total = avg_total(species);
    &&& players.len() >= species.len()
    &&& counts.len() == species.len()
    &&& (forall|i: int| 0 <= i < counts.len() ==> 0 <= #[trigger] counts[i])
    &&& (forall|i: int|
        0 <= i < counts.len() ==> #[trigger] planned_count(species, total, pop, counts, i))
    &&& src.len() == players.len() - species.len()
    &&& (forall|t: int|
        0 <= t < src.len() ==> 0 <= #[trigger] src[t] < species.len()
            && crate::species::bred_from(species[src[t]].players@, players[species.len() + t]))
    &&& (forall|i: int, t: int|
        #![trigger counts[i], src[t]]
        0 <= i < counts.len() && sum_counts(counts, i) <= t < sum_counts(counts, i + 1) ==> src[t]
            == i)
    &&& (forall|t: int|
        sum_counts(counts, counts.len() as int) <= t < src.len() ==> #[trigger] src[t] == 0)
}

/// Lists whose members agree in stored average fitness sum to the same
/// total.
proof fn lemma_avg_total_pointwise(a: Seq<Species>, b: Seq<Species>)
    requires
        a.len() == b.len(),
        forall|i: int|
            0 <= i < a.len() ==> (#[trigger] a[i]).average_fitness == b[i].average_fitness,
    ensures
        avg_total(a) == avg_total(b),
    decreases a.len(),
{
    if a.len() > 0 {
        assert forall|i: int|
            0 <= i < a.drop_last().len() implies (#[trigger] a.drop_last()[i]).average_fitness
            == b.drop_last()[i].average_fitness by {
            assert(a[i].average_fitness == b[i].average_fitness);
        }
        lemma_avg_total_pointwise(a.drop_last(), b.drop_last());
    }
}

/// Partial sums read only the entries below the cut.
proof fn lemma_sum_counts_prefix(a: Seq<int>, b: Seq<int>, k: int)
    requires
        forall|i: int| 0 <= i < k ==> a[i] == b[i],
        k <= a.len(),
        k <= b.len(),
    ensures
        sum_counts(a, k) == sum_counts(b, k),
    decreases k,
{
    if k > 0 {
        lemma_sum_counts_prefix(a, b, k - 1);
    }
}

/// Partial sums of nonnegative counts grow with the cut.
proof fn lemma_sum_counts_mono(c: Seq<int>, j: int, k: int)
    requires
        forall|i: int| 0 <= i < c.len() ==> 0 <= #[trigger] c[i],
        0 <= j <= k <= c.len(),
    ensures
        sum_counts(c, j) <= sum_counts(c, k),
    decreases k,
{
    if j < k {
        lemma_sum_counts_mono(c, j, k - 1);
    }
}

/// `elite` is an untouched copy of a best player of the roster: it equals
/// some member and no member outscores it.
pub open spec fn elite_in(roster: Seq<FitnessGenome>, elite: FitnessGenome) -> bool {
    &&& exists|q: int| 0 <= q < roster.len() && elite.like(#[trigger] roster[q])
    &&& forall|r: int| 0 <= r < roster.len() ==> (#[trigger] roster[r]).fitness <= elite.fitness
}

/// What culling does to one species: the roster is sorted with its
/// staleness bookkeeping, truncated to the inclusive half when two or more
/// players remain, fitness-shared over the kept roster, and the stored
/// average refreshed to the shared roster's mean.
pub open spec fn culled_from(pre: Species, post: Species) -> bool {
    exists|m: Species|
        #![trigger crate::species::sort_players_post(pre, m)]
        {
            let kept = if pre.players@.len() < 2 {
                pre.players@.len() as int
            } else {
                pre.players@.len() as int / 2 + 1
            };
            &&& crate::species::sort_players_post(pre, m)
            &&& post.players@.len() == kept
            &&& (forall|q: int|
                0 <= q < kept ==> {
                    let p0 = m.players@[q];
                    let p1 = #[trigger] post.players@[q];
                    p1.genome.nodes@ == p0.genome.nodes@ && p1.genome.connections@
                        == p0.genome.connections@ && p1.fitness == p0.fitness as int / kept
                })
            &&& post.best_fitness == m.best_fitness
            &&& post.staleness == m.staleness
            &&& post.rep == m.rep
            &&& post.average_fitness == spec_avg(post)
        }
}

/// How many species of the list still hold a player.
pub open spec fn count_nonempty(ss: Seq<Species>) -> int
    decreases ss.len(),
{
    if ss.len() == 0 {
        0
    } else {
        count_nonempty(ss.drop_last()) + if ss.last().players@.len() >= 1 {
            1int
        } else {
            0int
        }
    }
}

/// How a culled-and-capped species list arises from the list before
/// culling, with every stage named: `culled` holds the per-species cull
/// results in order; `src` lists the positions of the nonempty results,
/// in increasing order, so the survivors are pairwise distinct; `resorted`
/// re-sorts each of those survivors once more; `ranked` is a best-first
/// ranking of the re-sorted survivors; and the final list keeps exactly
/// the leading `max` of the ranking — the worst-ranked beyond the cap are
/// the ones dropped.
pub open spec fn culled_selection_with(
    pre: Seq<Species>,
    post: Seq<Species>,
    max: int,
    culled: Seq<Species>,
    src: Seq<int>,
    resorted: Seq<Species>,
    ranked: Seq<Species>,
) -> bool {
    &&& culled.len() == pre.len()
    &&& (forall|i: int| 0 <= i < culled.len() ==> culled_from(pre[i], #[trigger] culled[i]))
    &&& src.len() == count_nonempty(culled)
    &&& resorted.len() == src.len()
    &&& (forall|t: int|
        0 <= t < src.len() ==> 0 <= #[trigger] src[t] < culled.len()
            && culled[src[t]].players@.len() >= 1 && crate::species::sort_players_post(
            culled[src[t]],
            resorted[t],
        ))
    &&& (forall|t1: int, t2: int|
        #![trigger src[t1], src[t2]]
        0 <= t1 < t2 < src.len() ==> src[t1] < src[t2])
    &&& ranked.to_multiset() == resorted.to_multiset()
    &&& crate::sort::sorted_desc_best(ranked)
    &&& post == ranked.subrange(
        0,
        if ranked.len() <= max {
            ranked.len() as int
        } else {
            max
        },
    )
}

/// Some full cull-resort-rank-cap chain explains the final species list.
pub open spec fn culled_selection(pre: Seq<Species>, post: Seq<Species>, max: int) -> bool {
    exists|culled: Seq<Species>, src: Seq<int>, resorted: Seq<Species>, ranked: Seq<Species>|
        #[trigger] culled_selection_with(pre, post, max, culled, src, resorted, ranked)
}

/// Exhibits a witness chain for [`culled_selection`].
proof fn lemma_culled_selection_intro(
    pre: Seq<Species>,
    post: Seq<Species>,
    max: int,
    culled: Seq<Species>,
    src: Seq<int>,
    resorted: Seq<Species>,
    ranked: Seq<Species>,
)
    requires
        culled.len() == pre.len(),
        forall|i: int| 0 <= i < culled.len() ==> culled_from(pre[i], #[trigger] culled[i]),
        src.len() == count_nonempty(culled),
        resorted.len() == src.len(),
        forall|t: int|
            0 <= t < src.len() ==> 0 <= #[trigger] src[t] < culled.len()
                && culled[src[t]].players@.len() >= 1 && crate::species::sort_players_post(
                culled[src[t]],
                resorted[t],
            ),
        forall|t1: int, t2: int|
            #![trigger src[t1], src[t2]]
            0 <= t1 < t2 < src.len() ==> src[t1] < src[t2],
        ranked.to_multiset() == resorted.to_multiset(),
        crate::sort::sorted_desc_best(ranked),
        post == ranked.subrange(
            0,
            if ranked.len() <= max {
                ranked.len() as int
            } else {
                max
            },
        ),
    ensures
        culled_selection(pre, post, max),
{
    assert(culled_selection_with(pre, post, max, culled, src, resorted, ranked));
}

/// The stored average of a roster:/// The stored average of a roster: its summed fitness over its size, zero
/// for an empty roster.
pub open spec fn spec_avg(s: Species) -> int {
    if s.players@.len() == 0 {
        0
    } else {
        crate::species::fitness_sum(s.players@) / s.players@.len() as int
    }
}

/// All players of all rosters, in species order.
pub open spec fn all_players(ss: Seq<Species>) -> Seq<FitnessGenome>
    decreases ss.len(),
{
    if ss.len() == 0 {
        Seq::empty()
    } else {
        all_players(ss.drop_last()) + ss.last().players@
    }
}

impl Evaluator {
    /// Scores every player with the caller's fitness function, once per
    /// genome.
    pub fn calculate_fitness<F: FitnessGenomeProvider>(&mut self, fitness_provider: &F)
        requires
            old(self).inv(),
        ensures
            final(self).inv(),
            final(self).spec_players().len() == old(self).spec_players().len(),
            forall|i: int|
                0 <= i < final(self).spec_players().len() ==> {
                    let p0 = old(self).spec_players()[i];
                    let p1 = #[trigger] final(self).spec_players()[i];
                    p1.genome.nodes@ == p0.genome.nodes@ && p1.genome.connections@
                        == p0.genome.connections@ && 0 <= p1.fitness <= FITNESS_LIMIT
                },
            final(self).spec_species() == old(self).spec_species(),
            final(self).spec_config() == old(self).spec_config(),
            final(self).spec_node_counter() == old(self).spec_node_counter(),
            final(self).spec_conn_counter() == old(self).spec_conn_counter(),
            final(self).spec_generation() == old(self).spec_generation(),
            final(self).spec_best_player() == old(self).spec_best_player(),
    {
        let ghost pre = *self;
        let mut i: usize = 0;
        while i < self.players.len()
            invariant
                i <= self.players@.len(),
                pre.inv(),
                self.players@.len() == pre.players@.len(),
                self.species == pre.species,
                self.config == pre.config,
                self.best_player == pre.best_player,
                self.gen_players == pre.gen_players,
                self.best_fitness == pre.best_fitness,
                self.generation_id == pre.generation_id,
                self.node_innovation == pre.node_innovation,
                self.connection_innovation == pre.connection_innovation,
                self.stats == pre.stats,
                forall|k: int| i <= k < self.players@.len() ==> #[trigger] self.players@[k]
                    == pre.players@[k],
                forall|k: int|
                    0 <= k < i ==> {
                        let p0 = pre.players@[k];
                        let p1 = #[trigger] self.players@[k];
                        p1.genome.nodes@ == p0.genome.nodes@ && p1.genome.connections@
                            == p0.genome.connections@ && 0 <= p1.fitness <= FITNESS_LIMIT
                    },
            decreases self.players@.len() - i,
        {
            let p = self.players[i].snapshot();
            let fitness = fitness_provider.fitness_genome_evaluator(&p.genome);
            self.players.set(i, FitnessGenome { fitness, genome: p.genome });
            i = i + 1;
        }
        proof {
            assert forall|k: int|
                0 <= k < self.players@.len() implies (#[trigger] self.players@[k]).wf()
                && self.players@[k].genome.populated() by {
                assert(pre.players@[k].wf() && pre.players@[k].genome.populated());
            }
            assert forall|k: int|
                0 <= k < self.players@.len() implies (#[trigger] self.players@[k]).genome.nodes_within(
                self.node_innovation.current_innovation as int,
            ) && self.players@[k].genome.conns_within(
                self.connection_innovation.current_innovation as int,
            ) by {
                assert(pre.players@[k].genome.nodes_within(
                    pre.node_innovation.current_innovation as int,
                ) && pre.players@[k].genome.conns_within(
                    pre.connection_innovation.current_innovation as int,
                ));
            }
        }
    }

    /// Sorts the population by fitness, best first.
    pub fn sort_players(&mut self)
        requires
            old(self).inv(),
        ensures
            final(self).inv(),
            final(self).spec_players().len() == old(self).spec_players().len(),
            final(self).spec_players().to_multiset() == old(self).spec_players().to_multiset(),
            crate::sort::sorted_desc_fitness(final(self).spec_players()),
            final(self).spec_species() == old(self).spec_species(),
            final(self).spec_config() == old(self).spec_config(),
            final(self).spec_node_counter() == old(self).spec_node_counter(),
            final(self).spec_conn_counter() == old(self).spec_conn_counter(),
            final(self).spec_generation() == old(self).spec_generation(),
            final(self).spec_best_player() == old(self).spec_best_player(),
    {
        let ghost pre = *self;
        crate::sort::sort_fitness_desc(&mut self.players);
        proof {
            crate::species::lemma_players_ok_subset(pre.players@, self.players@);
            crate::species::lemma_players_within_subset(
                pre.players@,
                self.players@,
                self.node_innovation.current_innovation as int,
                self.connection_innovation.current_innovation as int,
            );
        }
    }

    /// Sorts the players of every species — with its staleness bookkeeping
    /// — and then ranks the species best-first.
    pub fn sort_species(&mut self)
        requires
            old(self).inv(),
        ensures
            final(self).inv(),
            final(self).spec_species().len() == old(self).spec_species().len(),
            crate::sort::sorted_desc_best(final(self).spec_species()),
            final(self).spec_players() == old(self).spec_players(),
            final(self).spec_config() == old(self).spec_config(),
            final(self).spec_node_counter() == old(self).spec_node_counter(),
            final(self).spec_conn_counter() == old(self).spec_conn_counter(),
            final(self).spec_generation() == old(self).spec_generation(),
            final(self).spec_best_player() == old(self).spec_best_player(),
            exists|mid: Seq<Species>|
                #![trigger mid.to_multiset()]
                {
                    &&& mid.len() == old(self).spec_species().len()
                    &&& (forall|i: int|
                        0 <= i < mid.len() ==> crate::species::sort_players_post(
                            old(self).spec_species()[i],
                            #[trigger] mid[i],
                        ))
                    &&& final(self).spec_species().to_multiset() == mid.to_multiset()
                },
            rosters_nonempty(old(self).spec_species()) ==> rosters_nonempty(
                final(self).spec_species(),
            ),
    {
        let ghost pre = *self;
        let ghost nb = self.node_innovation.current_innovation as int;
        let ghost cb = self.connection_innovation.current_innovation as int;
        let ghost orig = self.species@;
        let mut refreshed: Vec<Species> = Vec::new();
        while self.species.len() > 0
            invariant
                refreshed@.len() + self.species@.len() == orig.len(),
                self.species@ == orig.subrange(refreshed@.len() as int, orig.len() as int),
                species_all_wf(orig),
                species_all_within(orig, nb, cb),
                rosters_bounded(orig),
                forall|k: int|
                    0 <= k < refreshed@.len() ==> crate::species::sort_players_post(
                        orig[k],
                        #[trigger] refreshed@[k],
                    ) && refreshed@[k].wf() && refreshed@[k].within(nb, cb)
                        && refreshed@[k].players@.len() <= ROSTER_LIMIT,
                self.players == pre.players,
                self.config == pre.config,
                self.best_player == pre.best_player,
                self.gen_players == pre.gen_players,
                self.best_fitness == pre.best_fitness,
                self.generation_id == pre.generation_id,
                self.node_innovation == pre.node_innovation,
                self.connection_innovation == pre.connection_innovation,
                self.stats == pre.stats,
            decreases self.species@.len(),
        {
            let ghost k = refreshed@.len() as int;
            let mut s = self.species.remove(0);
            proof {
                assert(s == orig[k]);
            }
            s.sort_players();
            proof {
                crate::species::lemma_sorted_species_within(orig[k], s, nb, cb);
            }
            refreshed.push(s);
            proof {
                assert(self.species@ =~= orig.subrange(refreshed@.len() as int, orig.len() as int));
            }
        }
        let ghost mid = refreshed@;
        crate::sort::sort_species_desc(&mut refreshed);
        proof {
            crate::sort::lemma_same_multiset_same_members(refreshed@, mid);
            assert forall|i: int|
                0 <= i < refreshed@.len() implies (#[trigger] refreshed@[i]).wf()
                && refreshed@[i].within(nb, cb) && refreshed@[i].players@.len()
                <= ROSTER_LIMIT by {
                assert(refreshed@.contains(refreshed@[i]));
                assert(mid.contains(refreshed@[i]));
                let j = choose|j: int| 0 <= j < mid.len() && mid[j] == refreshed@[i];
            }
        }
        self.species = refreshed;
        proof {
            if rosters_nonempty(orig) {
                assert forall|i: int|
                    0 <= i < self.species@.len() implies (#[trigger] self.species@[i]).players@.len()
                    >= 1 by {
                    assert(self.species@.contains(self.species@[i]));
                    assert(mid.contains(self.species@[i]));
                    let j = choose|j: int| 0 <= j < mid.len() && mid[j] == self.species@[i];
                    assert(mid[j].players@.len() == orig[j].players@.len());
                    assert(orig[j].players@.len() >= 1);
                }
            }
        }
    }

    /// Records the population's leading player for this generation, and
    /// adopts it as the all-time best when it strictly improves on it.
    pub fn set_best_player(&mut self)
        requires
            old(self).inv(),
            old(self).spec_players().len() > 0,
        ensures
            final(self).inv(),
            final(self).spec_players() == old(self).spec_players(),
            final(self).spec_species() == old(self).spec_species(),
            final(self).spec_config() == old(self).spec_config(),
            final(self).spec_node_counter() == old(self).spec_node_counter(),
            final(self).spec_conn_counter() == old(self).spec_conn_counter(),
            final(self).spec_generation() == old(self).spec_generation(),
            final(self).spec_generation_bests().len() == old(self).spec_generation_bests().len()
                + 1,
            final(self).spec_generation_bests().drop_last() == old(self).spec_generation_bests(),
            final(self).spec_generation_bests().last().like(old(self).spec_players()[0]),
            old(self).spec_players()[0].fitness > old(self).spec_best_fitness() ==> (final(self).spec_best_fitness() == old(self).spec_players()[0].fitness && final(self).spec_best_player().like(old(self).spec_players()[0])),
            !(old(self).spec_players()[0].fitness > old(self).spec_best_fitness()) ==> (final(self).spec_best_fitness() == old(self).spec_best_fitness() && final(self).spec_best_player() == old(self).spec_best_player()),
    {
        let top = self.players[0].snapshot();
        proof {
            assert(self.players@[0].wf());
        }
        let ghost log0 = self.gen_players@;
        self.gen_players.push(top);
        proof {
            assert(self.gen_players@.drop_last() =~= log0);
        }
        let candidate = self.players[0].snapshot();
        if candidate.get_fitness() > self.best_fitness {
            self.best_fitness = candidate.get_fitness();
            self.best_player = candidate;
        }
        proof {
            assert forall|k: int|
                0 <= k < self.gen_players@.len() implies (#[trigger] self.gen_players@[k]).wf() by {
                if k < old(self).gen_players@.len() {
                    assert(old(self).gen_players@[k].wf());
                }
            }
        }
    }

    /// Refreshes every species' stored average fitness and returns their
    /// sum.
    pub fn get_avg_fitness_sum(&mut self) -> (r: i64)
        requires
            old(self).inv(),
            old(self).spec_species().len() <= SPECIES_LIMIT + ROSTER_LIMIT,
        ensures
            final(self).inv(),
            final(self).spec_species().len() == old(self).spec_species().len(),
            forall|i: int|
                0 <= i < final(self).spec_species().len() ==> {
                    let s0 = old(self).spec_species()[i];
                    let s1 = #[trigger] final(self).spec_species()[i];
                    s1.players@ == s0.players@ && s1.rep == s0.rep && s1.best_fitness
                        == s0.best_fitness && s1.staleness == s0.staleness && s1.average_fitness
                        == spec_avg(s0)
                },
            r == avg_total(final(self).spec_species()),
            0 <= r <= (SPECIES_LIMIT + ROSTER_LIMIT) * FITNESS_LIMIT,
            final(self).spec_players() == old(self).spec_players(),
            final(self).spec_config() == old(self).spec_config(),
            final(self).spec_node_counter() == old(self).spec_node_counter(),
            final(self).spec_conn_counter() == old(self).spec_conn_counter(),
            final(self).spec_generation() == old(self).spec_generation(),
            final(self).spec_best_player() == old(self).spec_best_player(),
    {
        let ghost pre = *self;
        let ghost nb = self.node_innovation.current_innovation as int;
        let ghost cb = self.connection_innovation.current_innovation as int;
        let ghost orig = self.species@;
        let mut refreshed: Vec<Species> = Vec::new();
        let mut sum: i64 = 0;
        while self.species.len() > 0
            invariant
                refreshed@.len() + self.species@.len() == orig.len(),
                orig.len() <= SPECIES_LIMIT + ROSTER_LIMIT,
                self.species@ == orig.subrange(refreshed@.len() as int, orig.len() as int),
                species_all_wf(orig),
                species_all_within(orig, nb, cb),
                rosters_bounded(orig),
                forall|k: int|
                    0 <= k < refreshed@.len() ==> {
                        let s0 = orig[k];
                        let s1 = #[trigger] refreshed@[k];
                        s1.players@ == s0.players@ && s1.rep == s0.rep && s1.best_fitness
                            == s0.best_fitness && s1.staleness == s0.staleness
                            && s1.average_fitness == spec_avg(s0) && s1.wf() && s1.within(nb, cb)
                    },
                sum == avg_total(refreshed@),
                0 <= sum <= refreshed@.len() * FITNESS_LIMIT,
                self.players == pre.players,
                self.config == pre.config,
                self.best_player == pre.best_player,
                self.gen_players == pre.gen_players,
                self.best_fitness == pre.best_fitness,
                self.generation_id == pre.generation_id,
                self.node_innovation == pre.node_innovation,
                self.connection_innovation == pre.connection_innovation,
                self.stats == pre.stats,
            decreases self.species@.len(),
        {
            let ghost k = refreshed@.len() as int;
            let mut s = self.species.remove(0);
            proof {
                assert(s == orig[k]);
            }
            let avg = s.get_average_fitness();
            let ghost rpre = refreshed@;
            refreshed.push(s);
            sum = sum + avg;
            proof {
                assert(self.species@ =~= orig.subrange(refreshed@.len() as int, orig.len() as int));
                assert(refreshed@.drop_last() =~= rpre);
                assert(refreshed@.last() == s);
                assert(avg_total(refreshed@) == avg_total(rpre) + avg);
            }
        }
        self.species = refreshed;
        sum
    }

    /// Replaces the population with the union of all species rosters, in
    /// species order: player `t` of the new population is a copy of element
    /// `t` of the rosters' concatenation.
    pub fn update_players(&mut self)
        requires
            old(self).inv(),
            roster_total(old(self).spec_species()) <= ROSTER_LIMIT,
        ensures
            final(self).inv(),
            final(self).spec_players().len() == roster_total(old(self).spec_species()),
            forall|t: int|
                0 <= t < final(self).spec_players().len() ==> (#[trigger] final(self).spec_players()[t]).like(all_players(old(self).spec_species())[t]),
            final(self).spec_species() == old(self).spec_species(),
            final(self).spec_config() == old(self).spec_config(),
            final(self).spec_node_counter() == old(self).spec_node_counter(),
            final(self).spec_conn_counter() == old(self).spec_conn_counter(),
    {
        let ghost pre = *self;
        let ghost nb = self.node_innovation.current_innovation as int;
        let ghost cb = self.connection_innovation.current_innovation as int;
        self.players = Vec::new();
        let mut si: usize = 0;
        while si < self.species.len()
            invariant
                si <= self.species@.len(),
                self.species == pre.species,
                self.config == pre.config,
                self.best_player == pre.best_player,
                self.gen_players == pre.gen_players,
                self.best_fitness == pre.best_fitness,
                self.generation_id == pre.generation_id,
                self.node_innovation == pre.node_innovation,
                self.connection_innovation == pre.connection_innovation,
                self.stats == pre.stats,
                pre.inv(),
                roster_total(pre.species@) <= ROSTER_LIMIT,
                nb == self.node_innovation.current_innovation as int,
                cb == self.connection_innovation.current_innovation as int,
                self.players@.len() == roster_total(self.species@.subrange(0, si as int)),
                forall|t: int|
                    0 <= t < self.players@.len() ==> (#[trigger] self.players@[t]).like(
                        all_players(self.species@.subrange(0, si as int))[t],
                    ),
                players_ok(self.players@),
                players_within(self.players@, nb, cb),
                self.players@.len() <= ROSTER_LIMIT,
            decreases self.species@.len() - si,
        {
            let ghost taken = self.species@.subrange(0, si as int);
            let ghost roster = self.species@[si as int].players@;
            proof {
                assert(self.species@[si as int].wf());
                assert(self.species@[si as int].within(nb, cb));
                lemma_roster_prefix_bound(self.species@, si as int);
                lemma_all_players_len(taken);
            }
            let mut j: usize = 0;
            while j < self.species[si].players.len()
                invariant
                    si < self.species@.len(),
                    j <= roster.len(),
                    self.species == pre.species,
                    self.config == pre.config,
                    self.best_player == pre.best_player,
                    self.gen_players == pre.gen_players,
                    self.best_fitness == pre.best_fitness,
                    self.generation_id == pre.generation_id,
                    self.node_innovation == pre.node_innovation,
                    self.connection_innovation == pre.connection_innovation,
                    self.stats == pre.stats,
                    pre.inv(),
                    roster == self.species@[si as int].players@,
                    players_ok(roster),
                    players_within(roster, nb, cb),
                    taken == self.species@.subrange(0, si as int),
                    all_players(taken).len() == roster_total(taken),
                    self.players@.len() == roster_total(taken) + j,
                    forall|t: int|
                        0 <= t < self.players@.len() ==> (#[trigger] self.players@[t]).like(
                            (all_players(taken) + roster.subrange(0, j as int))[t],
                        ),
                    players_ok(self.players@),
                    players_within(self.players@, nb, cb),
                    roster_total(taken) + roster.len() <= ROSTER_LIMIT,
                    nb == self.node_innovation.current_innovation as int,
                    cb == self.connection_innovation.current_innovation as int,
                decreases roster.len() - j,
            {
                let p = self.species[si].players[j].snapshot();
                proof {
                    assert(roster[j as int].wf());
                    assert(roster[j as int].genome.nodes_within(nb) && roster[j as int].genome.conns_within(
                        cb,
                    ));
                    assert(p.like(roster[j as int]));
                }
                let ghost ppre = self.players@;
                self.players.push(p);
                proof {
                    assert forall|t: int|
                        0 <= t < self.players@.len() implies (#[trigger] self.players@[t]).like(
                        (all_players(taken) + roster.subrange(0, j + 1 as int))[t],
                    ) by {
                        let c0 = all_players(taken) + roster.subrange(0, j as int);
                        let c1 = all_players(taken) + roster.subrange(0, j + 1 as int);
                        if t < ppre.len() {
                            assert(self.players@[t] == ppre[t]);
                            assert(c1[t] == c0[t]);
                        } else {
                            assert(self.players@[t] == p);
                            assert(c1[t] == roster.subrange(0, j + 1 as int)[j as int]);
                            assert(c1[t] == roster[j as int]);
                        }
                    }
                }
                j = j + 1;
            }
            proof {
                assert(roster.subrange(0, roster.len() as int) =~= roster);
                let t2 = self.species@.subrange(0, si + 1 as int);
                assert(t2.drop_last() =~= taken);
                assert(t2.last() == self.species@[si as int]);
                assert(all_players(t2) == all_players(taken) + roster);
                assert(roster_total(t2) == roster_total(taken) + roster.len());
            }
            si = si + 1;
        }
        proof {
            assert(self.species@.subrange(0, self.species@.len() as int) =~= self.species@);
        }
    }

    /// Intra-species culling and the species-count cap: every species
    /// kills its worse half, shares fitness across its roster and refreshes
    /// its average; emptied species are dropped, players and species are
    /// ranked best-first, and the worst species beyond the configured
    /// maximum are discarded.
    pub fn kill_species(&mut self)
        requires
            old(self).inv(),
        ensures
            final(self).inv(),
            final(self).spec_species().len() <= old(self).spec_config().max_species,
            rosters_nonempty(final(self).spec_species()),
            crate::sort::sorted_desc_best(final(self).spec_species()),
            crate::sort::sorted_desc_fitness(final(self).spec_players()),
            final(self).spec_players().to_multiset() == old(self).spec_players().to_multiset(),
            final(self).spec_players().len() == old(self).spec_players().len(),
            final(self).spec_config() == old(self).spec_config(),
            final(self).spec_node_counter() == old(self).spec_node_counter(),
            final(self).spec_conn_counter() == old(self).spec_conn_counter(),
            final(self).spec_generation() == old(self).spec_generation(),
            final(self).spec_best_player() == old(self).spec_best_player(),
            forall|i: int|
                0 <= i < final(self).spec_species().len() ==> crate::sort::sorted_desc_fitness(
                    (#[trigger] final(self).spec_species()[i]).players@,
                ),
            culled_selection(
                old(self).spec_species(),
                final(self).spec_species(),
                old(self).spec_config().max_species as int,
            ),
    {
        let ghost pre = *self;
        let ghost nb = self.node_innovation.current_innovation as int;
        let ghost cb = self.connection_innovation.current_innovation as int;
        let ghost mut culled: Seq<Species> = Seq::empty();
        let ghost mut keptsrc: Seq<int> = Seq::empty();
        let mut kept: Vec<Species> = Vec::new();
        while self.species.len() > 0
            invariant
                keptsrc.len() == kept@.len(),
                forall|k: int|
                    0 <= k < kept@.len() ==> 0 <= #[trigger] keptsrc[k] < culled.len()
                        && culled[keptsrc[k]].players@.len() >= 1 && kept@[k]
                        == culled[keptsrc[k]],
                forall|t1: int, t2: int|
                    #![trigger keptsrc[t1], keptsrc[t2]]
                    0 <= t1 < t2 < keptsrc.len() ==> keptsrc[t1] < keptsrc[t2],
                culled.len() + self.species@.len() == pre.species@.len(),
                self.species@ == pre.species@.subrange(
                    culled.len() as int,
                    pre.species@.len() as int,
                ),
                forall|i: int|
                    0 <= i < culled.len() ==> culled_from(
                        pre.species@[i],
                        #[trigger] culled[i],
                    ),
                kept@.len() == count_nonempty(culled),
                species_all_wf(self.species@),
                species_all_within(self.species@, nb, cb),
                rosters_bounded(self.species@),
                species_all_wf(kept@),
                species_all_within(kept@, nb, cb),
                rosters_bounded(kept@),
                rosters_nonempty(kept@),
                self.players == pre.players,
                self.config == pre.config,
                self.best_player == pre.best_player,
                self.gen_players == pre.gen_players,
                self.best_fitness == pre.best_fitness,
                self.generation_id == pre.generation_id,
                self.node_innovation == pre.node_innovation,
                self.connection_innovation == pre.connection_innovation,
                0 <= self.stats.this_generation_kills,
                pre.inv(),
                nb == self.node_innovation.current_innovation as int,
                cb == self.connection_innovation.current_innovation as int,
            decreases self.species@.len(),
        {
            let ghost before = self.species@;
            let mut s = self.species.remove(0);
            proof {
                assert(s == before[0]);
                assert(s == pre.species@[culled.len() as int]);
                assert(self.species@ =~= pre.species@.subrange(
                    culled.len() as int + 1,
                    pre.species@.len() as int,
                ));
                assert(s.wf() && s.within(nb, cb) && s.players@.len() <= ROSTER_LIMIT);
            }
            let ghost s0 = s;
            let killed = s.kill();
            let ghost m = choose|m: Species|
                #[trigger] crate::species::sort_players_post(s0, m) && (if s0.players@.len() < 2 {
                    s == m
                } else {
                    s.players@ == m.players@.subrange(0, s0.players@.len() as int / 2 + 1)
                        && s.best_fitness == m.best_fitness && s.average_fitness
                        == m.average_fitness && s.staleness == m.staleness && s.rep == m.rep
                });
            let ghost after_kill = s;
            proof {
                crate::species::lemma_sorted_species_within(s0, m, nb, cb);
                if s0.players@.len() >= 2 {
                    assert forall|x: FitnessGenome|
                        s.players@.contains(x) implies m.players@.contains(x) by {
                        let i = choose|i: int| 0 <= i < s.players@.len() && s.players@[i] == x;
                        assert(m.players@[i] == x);
                    }
                    crate::species::lemma_players_within_subset(m.players@, s.players@, nb, cb);
                }
                assert(s.within(nb, cb));
            }
            if killed {
                if self.stats.this_generation_kills < i32::MAX {
                    self.stats.this_generation_kills = self.stats.this_generation_kills + 1;
                }
            }
            let ghost s1 = s;
            s.fitness_sharing();
            proof {
                assert forall|i: int|
                    0 <= i < s.players@.len() implies (#[trigger] s.players@[i]).genome.nodes_within(
                    nb,
                ) && s.players@[i].genome.conns_within(cb) by {
                    assert(s1.players@[i].genome.nodes_within(nb) && s1.players@[i].genome.conns_within(
                        cb,
                    ));
                }
            }
            let _ = s.get_average_fitness();
            proof {
                let kept_count = if s0.players@.len() < 2 {
                    s0.players@.len() as int
                } else {
                    s0.players@.len() as int / 2 + 1
                };
                assert(after_kill.players@.len() == kept_count);
                assert(s.players@.len() == kept_count);
                assert forall|q: int|
                    0 <= q < kept_count implies {
                    let p0 = m.players@[q];
                    let p1 = #[trigger] s.players@[q];
                    p1.genome.nodes@ == p0.genome.nodes@ && p1.genome.connections@
                        == p0.genome.connections@ && p1.fitness == p0.fitness as int / kept_count
                } by {
                    assert(after_kill.players@[q] == m.players@[q]);
                    assert(s1.players@[q] == after_kill.players@[q]);
                }
                assert(culled_from(s0, s));
            }
            let ghost culled_pre = culled;
            proof {
                culled = culled.push(s);
                assert(culled.drop_last() =~= culled_pre);
                assert(culled.last() == s);
                assert(count_nonempty(culled) == count_nonempty(culled_pre) + (
                if s.players@.len() >= 1 {
                    1int
                } else {
                    0int
                }));
                assert forall|i: int|
                    0 <= i < culled.len() implies culled_from(
                    pre.species@[i],
                    #[trigger] culled[i],
                ) by {
                    if i < culled_pre.len() {
                        assert(culled[i] == culled_pre[i]);
                    } else {
                        assert(culled[i] == s);
                    }
                }
            }
            if s.players.len() > 0 {
                let ghost kpre = kept@;
                let ghost spre = keptsrc;
                kept.push(s);
                proof {
                    keptsrc = keptsrc.push(culled.len() as int - 1);
                    assert forall|t1: int, t2: int|
                        #![trigger keptsrc[t1], keptsrc[t2]]
                        0 <= t1 < t2 < keptsrc.len() implies keptsrc[t1] < keptsrc[t2] by {
                        if t2 < spre.len() {
                            assert(keptsrc[t1] == spre[t1] && keptsrc[t2] == spre[t2]);
                        } else {
                            assert(keptsrc[t2] == culled.len() as int - 1);
                            assert(keptsrc[t1] == spre[t1]);
                            assert(spre[t1] < culled_pre.len());
                        }
                    }
                    assert forall|k: int|
                        0 <= k < kept@.len() implies 0 <= #[trigger] keptsrc[k] < culled.len()
                        && culled[keptsrc[k]].players@.len() >= 1 && kept@[k]
                        == culled[keptsrc[k]] by {
                        if k < kpre.len() {
                            assert(keptsrc[k] == spre[k]);
                            assert(kept@[k] == kpre[k]);
                            assert(culled[spre[k]] == culled_pre[spre[k]]);
                        } else {
                            assert(kept@[k] == s);
                            assert(keptsrc[k] == culled.len() as int - 1);
                            assert(culled[culled.len() as int - 1] == s);
                        }
                    }
                }
            } else {
                proof {
                    assert forall|k: int|
                        0 <= k < kept@.len() implies 0 <= #[trigger] keptsrc[k] < culled.len()
                        && culled[keptsrc[k]].players@.len() >= 1 && kept@[k]
                        == culled[keptsrc[k]] by {
                        assert(culled[keptsrc[k]] == culled_pre[keptsrc[k]]);
                    }
                }
            }
        }
        self.species = kept;
        proof {
            assert(culled.len() == pre.species@.len());
        }
        self.sort_players();
        let ghost sorted_kept = self.species@;
        self.sort_species();
        let ghost mid2 = choose|mid2: Seq<Species>|
            #![trigger mid2.to_multiset()]
            {
                &&& mid2.len() == sorted_kept.len()
                &&& (forall|i: int|
                    0 <= i < mid2.len() ==> crate::species::sort_players_post(
                        sorted_kept[i],
                        #[trigger] mid2[i],
                    ))
                &&& self.species@.to_multiset() == mid2.to_multiset()
            };
        let ghost mid = *self;
        proof {
            assert(self.species@ =~= mid.species@.subrange(0, self.species@.len() as int));
        }
        while self.species.len() > self.config.max_species
            invariant
                mid.inv(),
                self.species@.len() <= mid.species@.len(),
                self.players == mid.players,
                self.config == mid.config,
                self.best_player == mid.best_player,
                self.gen_players == mid.gen_players,
                self.best_fitness == mid.best_fitness,
                self.generation_id == mid.generation_id,
                self.node_innovation == mid.node_innovation,
                self.connection_innovation == mid.connection_innovation,
                self.stats == mid.stats,
                self.species@ == mid.species@.subrange(0, self.species@.len() as int),
                self.species@.len() >= self.config.max_species || self.species@.len()
                    == mid.species@.len(),
            decreases self.species@.len(),
        {
            let ghost cur = self.species@;
            let _ = self.species.pop();
            proof {
                assert(self.species@ =~= cur.drop_last());
                assert(self.species@ =~= mid.species@.subrange(0, self.species@.len() as int));
            }
        }
        proof {
            assert forall|i: int|
                0 <= i < self.species@.len() implies (#[trigger] self.species@[i]).wf()
                && self.species@[i].within(nb, cb) && self.species@[i].players@.len()
                <= ROSTER_LIMIT && self.species@[i].players@.len() >= 1 by {
                assert(self.species@[i] == mid.species@[i]);
            }
            assert forall|i: int, j: int|
                0 <= i < j < self.species@.len() implies self.species@[i].best_fitness
                >= self.species@[j].best_fitness by {
                assert(self.species@[i] == mid.species@[i] && self.species@[j]
                    == mid.species@[j]);
            }
            // each final species is a re-sorted nonempty cull survivor
            crate::sort::lemma_same_multiset_same_members(mid.species@, mid2);
            assert forall|i: int| #![trigger self.species@[i]]
                0 <= i < self.species@.len() implies exists|j: int|
                0 <= j < culled.len() && (#[trigger] culled[j]).players@.len() >= 1
                    && crate::species::sort_players_post(culled[j], self.species@[i]) by {
                assert(self.species@[i] == mid.species@[i]);
                assert(mid.species@.contains(mid.species@[i]));
                assert(mid2.contains(mid.species@[i]));
                let t = choose|t: int| 0 <= t < mid2.len() && mid2[t] == mid.species@[i];
                assert(crate::species::sort_players_post(sorted_kept[t], mid2[t]));
                let j = keptsrc[t];
                assert(sorted_kept[t] == culled[j]);
                assert(0 <= j < culled.len() && culled[j].players@.len() >= 1
                    && crate::species::sort_players_post(culled[j], self.species@[i]));
            }
            assert(self.species@.len() == (if count_nonempty(culled)
                <= pre.config.max_species {
                count_nonempty(culled)
            } else {
                pre.config.max_species as int
            }));
            assert(pre == *old(self));
            assert(culled.len() == pre.species@.len());
            assert forall|i: int|
                0 <= i < self.species@.len() implies crate::sort::sorted_desc_fitness(
                (#[trigger] self.species@[i]).players@,
            ) by {
                let j = choose|j: int|
                    0 <= j < culled.len() && (#[trigger] culled[j]).players@.len() >= 1
                        && crate::species::sort_players_post(culled[j], self.species@[i]);
            }
            // the full chain: nonempty culls, each re-sorted, ranked
            // best-first, capped
            assert(sorted_kept.len() == keptsrc.len());
            assert forall|t: int|
                0 <= t < keptsrc.len() implies 0 <= #[trigger] keptsrc[t] < culled.len()
                && culled[keptsrc[t]].players@.len() >= 1 && crate::species::sort_players_post(
                culled[keptsrc[t]],
                mid2[t],
            ) by {
                assert(sorted_kept[t] == culled[keptsrc[t]]);
                assert(crate::species::sort_players_post(sorted_kept[t], mid2[t]));
            }
            let cut = if mid.species@.len() as int <= pre.config.max_species as int {
                mid.species@.len() as int
            } else {
                pre.config.max_species as int
            };
            assert(self.species@.len() == cut);
            assert(self.species@ == mid.species@.subrange(0, cut));
            lemma_culled_selection_intro(
                pre.species@,
                self.species@,
                pre.config.max_species as int,
                culled,
                keptsrc,
                mid2,
                mid.species@,
            );
            assert(culled_selection(
                old(self).spec_species(),
                self.species@,
                old(self).spec_config().max_species as int,
            ));
        }
    }

    /// Removes every species whose staleness has reached the configured
    /// limit, keeping the others in order.
    pub fn kill_stale_species(&mut self)
        requires
            old(self).inv(),
        ensures
            final(self).inv(),
            final(self).spec_species() == retain_fresh(
                old(self).spec_species(),
                old(self).spec_config().max_species_staleness_before_kill as int,
            ),
            final(self).spec_species().len() <= old(self).spec_species().len(),
            rosters_nonempty(old(self).spec_species()) ==> rosters_nonempty(
                final(self).spec_species(),
            ),
            (forall|i: int|
                0 <= i < old(self).spec_species().len() ==> crate::sort::sorted_desc_fitness(
                    (#[trigger] old(self).spec_species()[i]).players@,
                )) ==> (forall|i: int|
                0 <= i < final(self).spec_species().len() ==> crate::sort::sorted_desc_fitness(
                    (#[trigger] final(self).spec_species()[i]).players@,
                )),
            final(self).spec_players() == old(self).spec_players(),
            final(self).spec_config() == old(self).spec_config(),
            final(self).spec_node_counter() == old(self).spec_node_counter(),
            final(self).spec_conn_counter() == old(self).spec_conn_counter(),
            final(self).spec_generation() == old(self).spec_generation(),
            final(self).spec_best_player() == old(self).spec_best_player(),
    {
        let ghost pre = *self;
        let ghost nb = self.node_innovation.current_innovation as int;
        let ghost cb = self.connection_innovation.current_innovation as int;
        let ghost orig = self.species@;
        let limit = self.config.max_species_staleness_before_kill;
        let mut kept: Vec<Species> = Vec::new();
        while self.species.len() > 0
            invariant
                retain_fresh(orig, limit as int) == kept@ + retain_fresh(
                    self.species@,
                    limit as int,
                ),
                limit == pre.config.max_species_staleness_before_kill,
                species_all_wf(kept@),
                species_all_within(kept@, nb, cb),
                rosters_bounded(kept@),
                species_all_wf(self.species@),
                species_all_within(self.species@, nb, cb),
                rosters_bounded(self.species@),
                rosters_nonempty(orig) ==> rosters_nonempty(kept@) && rosters_nonempty(
                    self.species@,
                ),
                self.players == pre.players,
                self.config == pre.config,
                self.best_player == pre.best_player,
                self.gen_players == pre.gen_players,
                self.best_fitness == pre.best_fitness,
                self.generation_id == pre.generation_id,
                self.node_innovation == pre.node_innovation,
                self.connection_innovation == pre.connection_innovation,
                self.stats == pre.stats,
                pre.inv(),
                nb == self.node_innovation.current_innovation as int,
                cb == self.connection_innovation.current_innovation as int,
            decreases self.species@.len(),
        {
            let ghost before = self.species@;
            let s = self.species.remove(0);
            proof {
                assert(s == before.first());
                assert(self.species@ =~= before.drop_first());
                assert forall|i: int|
                    0 <= i < self.species@.len() implies (#[trigger] self.species@[i]).wf()
                    && self.species@[i].within(nb, cb) && self.species@[i].players@.len()
                    <= ROSTER_LIMIT && (rosters_nonempty(orig)
                    ==> self.species@[i].players@.len() >= 1) by {
                    assert(self.species@[i] == before[i + 1]);
                    if rosters_nonempty(orig) {
                        assert(before[i + 1].players@.len() >= 1);
                    }
                }
                if s.staleness < limit {
                    assert(retain_fresh(before, limit as int) == seq![s] + retain_fresh(
                        self.species@,
                        limit as int,
                    ));
                } else {
                    assert(retain_fresh(before, limit as int) == retain_fresh(
                        self.species@,
                        limit as int,
                    ));
                }
            }
            if s.staleness < limit {
                let ghost kpre = kept@;
                kept.push(s);
                proof {
                    assert(kept@ =~= kpre + seq![s]);
                    assert(kpre + seq![s] + retain_fresh(self.species@, limit as int) =~= kpre + (
                    seq![s] + retain_fresh(self.species@, limit as int)));
                }
            }
        }
        proof {
            assert(retain_fresh(self.species@, limit as int) =~= Seq::<Species>::empty());
            assert(kept@ + Seq::<Species>::empty() =~= kept@);
            lemma_retain_fresh_shorter(orig, limit as int);
            lemma_retain_fresh_member(orig, limit as int);
        }
        self.species = kept;
        proof {
            if forall|i: int|
                0 <= i < orig.len() ==> crate::sort::sorted_desc_fitness(
                    (#[trigger] orig[i]).players@,
                ) {
                assert forall|i: int|
                    0 <= i < self.species@.len() implies crate::sort::sorted_desc_fitness(
                    (#[trigger] self.species@[i]).players@,
                ) by {
                    assert(self.species@ == retain_fresh(orig, limit as int));
                    let j = choose|j: int|
                        0 <= j < orig.len() && #[trigger] retain_fresh(orig, limit as int)[i]
                            == orig[j];
                    assert(crate::sort::sorted_desc_fitness(orig[j].players@));
                }
            }
        }
    }

    /// Removes every species whose share of the average fitness rounds to
    /// no offspring: one whose average fitness, scaled by the population
    /// size, stays below the sum of all averages. Averages are refreshed
    /// first.
    pub fn kill_bad_species(&mut self)
        requires
            old(self).inv(),
            old(self).spec_species().len() <= SPECIES_LIMIT + ROSTER_LIMIT,
            old(self).spec_config().valid(),
        ensures
            final(self).inv(),
            exists|mid: Seq<Species>|
                #![trigger retain_fit(mid, old(self).spec_config().population_size as int, avg_total(mid))]
                {
                    &&& mid.len() == old(self).spec_species().len()
                    &&& (forall|i: int|
                        0 <= i < mid.len() ==> {
                            let s0 = old(self).spec_species()[i];
                            let s1 = #[trigger] mid[i];
                            s1.players@ == s0.players@ && s1.rep == s0.rep && s1.best_fitness
                                == s0.best_fitness && s1.staleness == s0.staleness
                                && s1.average_fitness == spec_avg(s0)
                        })
                    &&& final(self).spec_species() == retain_fit(
                        mid,
                        old(self).spec_config().population_size as int,
                        avg_total(mid),
                    )
                },
            final(self).spec_species().len() <= old(self).spec_species().len(),
            rosters_nonempty(old(self).spec_species()) ==> rosters_nonempty(
                final(self).spec_species(),
            ),
            (forall|i: int|
                0 <= i < old(self).spec_species().len() ==> crate::sort::sorted_desc_fitness(
                    (#[trigger] old(self).spec_species()[i]).players@,
                )) ==> (forall|i: int|
                0 <= i < final(self).spec_species().len() ==> crate::sort::sorted_desc_fitness(
                    (#[trigger] final(self).spec_species()[i]).players@,
                )),
            final(self).spec_players() == old(self).spec_players(),
            final(self).spec_config() == old(self).spec_config(),
            final(self).spec_node_counter() == old(self).spec_node_counter(),
            final(self).spec_conn_counter() == old(self).spec_conn_counter(),
            final(self).spec_generation() == old(self).spec_generation(),
            final(self).spec_best_player() == old(self).spec_best_player(),
    {
        let ghost pre = *self;
        let ghost nb = self.node_innovation.current_innovation as int;
        let ghost cb = self.connection_innovation.current_innovation as int;
        let total = self.get_avg_fitness_sum();
        let ghost pre2 = *self;
        let ghost mid = self.species@;
        proof {
            if rosters_nonempty(pre.species@) {
                assert forall|i: int|
                    0 <= i < mid.len() implies (#[trigger] mid[i]).players@.len() >= 1 by {
                    assert(mid[i].players@ == pre.species@[i].players@);
                    assert(pre.species@[i].players@.len() >= 1);
                }
            }
        }
        let pop = self.config.get_population_size();
        let mut kept: Vec<Species> = Vec::new();
        while self.species.len() > 0
            invariant
                retain_fit(mid, pop as int, total as int) == kept@ + retain_fit(
                    self.species@,
                    pop as int,
                    total as int,
                ),
                pop == pre2.config.population_size,
                pop <= crate::numeric::POPULATION_LIMIT,
                species_all_wf(kept@),
                species_all_within(kept@, nb, cb),
                rosters_bounded(kept@),
                species_all_wf(self.species@),
                species_all_within(self.species@, nb, cb),
                rosters_bounded(self.species@),
                rosters_nonempty(pre.species@) ==> rosters_nonempty(kept@) && rosters_nonempty(
                    self.species@,
                ),
                self.players == pre2.players,
                self.config == pre2.config,
                self.best_player == pre2.best_player,
                self.gen_players == pre2.gen_players,
                self.best_fitness == pre2.best_fitness,
                self.generation_id == pre2.generation_id,
                self.node_innovation == pre2.node_innovation,
                self.connection_innovation == pre2.connection_innovation,
                self.stats == pre2.stats,
                pre2.inv(),
                nb == self.node_innovation.current_innovation as int,
                cb == self.connection_innovation.current_innovation as int,
            decreases self.species@.len(),
        {
            let ghost before = self.species@;
            let s = self.species.remove(0);
            proof {
                assert(s == before.first());
                assert(self.species@ =~= before.drop_first());
                assert forall|i: int|
                    0 <= i < self.species@.len() implies (#[trigger] self.species@[i]).wf()
                    && self.species@[i].within(nb, cb) && self.species@[i].players@.len()
                    <= ROSTER_LIMIT && (rosters_nonempty(pre.species@)
                    ==> self.species@[i].players@.len() >= 1) by {
                    assert(self.species@[i] == before[i + 1]);
                    if rosters_nonempty(pre.species@) {
                        assert(before[i + 1].players@.len() >= 1);
                    }
                }
                assert(s.wf());
                assert(s.average_fitness * pop <= FITNESS_LIMIT * crate::numeric::POPULATION_LIMIT
                    && s.average_fitness * pop >= 0) by (nonlinear_arith)
                    requires
                        0 <= s.average_fitness <= FITNESS_LIMIT,
                        0 <= pop <= crate::numeric::POPULATION_LIMIT,
                ;
            }
            let share: i64 = s.average_fitness * (pop as i64);
            proof {
                if share >= total {
                    assert(retain_fit(before, pop as int, total as int) == seq![s] + retain_fit(
                        self.species@,
                        pop as int,
                        total as int,
                    ));
                } else {
                    assert(retain_fit(before, pop as int, total as int) == retain_fit(
                        self.species@,
                        pop as int,
                        total as int,
                    ));
                }
            }
            if share >= total {
                let ghost kpre = kept@;
                kept.push(s);
                proof {
                    assert(kept@ =~= kpre + seq![s]);
                    assert(kpre + seq![s] + retain_fit(self.species@, pop as int, total as int)
                        =~= kpre + (seq![s] + retain_fit(self.species@, pop as int, total as int)));
                }
            }
        }
        proof {
            assert(retain_fit(self.species@, pop as int, total as int) =~= Seq::<Species>::empty());
            assert(kept@ + Seq::<Species>::empty() =~= kept@);
            lemma_retain_fit_shorter(mid, pop as int, total as int);
            lemma_retain_fit_member(mid, pop as int, total as int);
        }
        self.species = kept;
        proof {
            if forall|i: int|
                0 <= i < pre.species@.len() ==> crate::sort::sorted_desc_fitness(
                    (#[trigger] pre.species@[i]).players@,
                ) {
                assert forall|i: int|
                    0 <= i < mid.len() implies crate::sort::sorted_desc_fitness(
                    (#[trigger] mid[i]).players@,
                ) by {
                    assert(mid[i].players@ == pre.species@[i].players@);
                    assert(crate::sort::sorted_desc_fitness(pre.species@[i].players@));
                }
                assert forall|i: int|
                    0 <= i < self.species@.len() implies crate::sort::sorted_desc_fitness(
                    (#[trigger] self.species@[i]).players@,
                ) by {
                    assert(self.species@ == retain_fit(mid, pop as int, total as int));
                    let j = choose|j: int|
                        0 <= j < mid.len() && #[trigger] retain_fit(mid, pop as int, total as int)[i]
                            == mid[j];
                    assert(crate::sort::sorted_desc_fitness(mid[j].players@));
                }
            }
        }
    }

    /// Runs one full generation, in order: speciate, score every player,
    /// sort players and species, cull within species and cap the species
    /// count, record the best player, kill stale and unproductive species,
    /// and refill the population — one elite copy per surviving species
    /// plus bred offspring up to the population size, topped up from the
    /// best-ranked species. When every species has died out beforehand the
    /// generation ends early and the population is left as it stands, for
    /// the caller to detect.
    #[verifier::rlimit(100)]
    pub fn evaluate_generation<F: FitnessGenomeProvider>(
        &mut self,
        fitness_provider: &F,
        rng: &mut rand::rngs::StdRng,
    )
        requires
            old(self).inv(),
            old(self).spec_config().valid(),
            old(self).spec_players().len() > 0,
            old(self).spec_node_counter() <= COUNTER_HEADROOM,
            old(self).spec_conn_counter() <= COUNTER_HEADROOM,
            old(self).spec_generation() < i32::MAX,
        ensures
            final(self).inv(),
            final(self).spec_config() == old(self).spec_config(),
            old(self).spec_node_counter() <= final(self).spec_node_counter(),
            old(self).spec_conn_counter() <= final(self).spec_conn_counter(),
            final(self).spec_species().len() <= old(self).spec_config().max_species,
            final(self).spec_players().len() > 0,
            final(self).spec_players().len() <= ROSTER_LIMIT,
            final(self).spec_species().len() == 0 ==> final(self).spec_players().len() == old(self).spec_players().len(),
            final(self).spec_species().len() > 0 ==> final(self).spec_players().len() >= old(self).spec_config().population_size,
            final(self).spec_species().len() > 0 ==> final(self).spec_players().len() == (if final(self).spec_species().len() >= old(self).spec_config().population_size {
                final(self).spec_species().len() as int
            } else {
                old(self).spec_config().population_size as int
            }),
            forall|i: int|
                0 <= i < final(self).spec_species().len() ==> elite_in(
                    (#[trigger] final(self).spec_species()[i]).players@,
                    final(self).spec_players()[i],
                ),
            final(self).spec_species().len() > 0 ==> forall|t: int|
                final(self).spec_species().len() <= t < final(self).spec_players().len()
                    ==> (#[trigger] final(self).spec_players()[t]).fitness == 0,
            final(self).spec_species().len() > 0 ==> exists|counts: Seq<int>, src: Seq<int>|
                #[trigger] reproduction_plan(
                    final(self).spec_species(),
                    final(self).spec_players(),
                    old(self).spec_config().population_size as int,
                    counts,
                    src,
                ),
    {
        self.stats.this_generation_kills = 0;
        self.speciate();
        self.calculate_fitness(fitness_provider);
        self.sort_players();
        self.sort_species();
        self.kill_species();
        self.set_best_player();
        self.kill_stale_species();
        self.kill_bad_species();
        let average_sum = self.get_avg_fitness_sum();
        let ghost start = *self;
        let ghost nb0 = self.node_innovation.current_innovation as int;
        let ghost cb0 = self.connection_innovation.current_innovation as int;
        let target = self.config.get_population_size();
        let mut children: Vec<FitnessGenome> = Vec::new();
        let mut si: usize = 0;
        while si < self.species.len()
            invariant
                si <= self.species@.len(),
                *self == start,
                start.inv(),
                start.config.valid(),
                species_all_wf(start.species@),
                rosters_nonempty(start.species@),
                forall|i: int|
                    0 <= i < start.species@.len() ==> crate::sort::sorted_desc_fitness(
                        (#[trigger] start.species@[i]).players@,
                    ),
                children@.len() == si,
                forall|i: int|
                    0 <= i < si ==> elite_in(
                        (#[trigger] start.species@[i]).players@,
                        children@[i],
                    ),
                players_ok(children@),
                players_within(children@, nb0, cb0),
                nb0 == self.node_innovation.current_innovation as int,
                cb0 == self.connection_innovation.current_innovation as int,
            decreases self.species@.len() - si,
        {
            proof {
                assert(self.species@[si as int].wf());
                assert(self.species@[si as int].players@.len() >= 1);
                assert(self.species@[si as int].players@[0].wf());
                assert(self.species@[si as int].within(nb0, cb0));
                assert(self.species@[si as int].players@[0].genome.nodes_within(nb0)
                    && self.species@[si as int].players@[0].genome.conns_within(cb0));
            }
            let elite = self.species[si].players[0].snapshot();
            children.push(elite);
            proof {
                let roster = start.species@[si as int].players@;
                assert(elite.like(roster[0]));
                assert forall|r: int|
                    0 <= r < roster.len() implies (#[trigger] roster[r]).fitness
                    <= elite.fitness by {
                    assert(crate::sort::sorted_desc_fitness(roster));
                    if r > 0 {
                        assert(roster[0].fitness >= roster[r].fitness);
                    }
                }
                assert(elite_in(roster, elite));
            }
            si = si + 1;
        }
        let ghost elite_count = children@.len() as int;
        let ghost mut bredsrc: Seq<int> = Seq::empty();
        let ghost mut counts: Seq<int> = Seq::empty();
        let mut si: usize = 0;
        while si < self.species.len()
            invariant
                si <= self.species@.len(),
                self.species@.len() == start.species@.len(),
                self.species@.len() <= SPECIES_LIMIT,
                start.inv(),
                start.config.valid(),
                species_all_wf(start.species@),
                average_sum == avg_total(start.species@),
                0 <= average_sum,
                target == start.config.population_size,
                0 < target <= crate::numeric::POPULATION_LIMIT,
                self.players == start.players,
                self.config == start.config,
                self.best_player == start.best_player,
                self.gen_players == start.gen_players,
                self.best_fitness == start.best_fitness,
                self.generation_id == start.generation_id,
                self.stats == start.stats,
                nb0 <= self.node_innovation.current_innovation,
                cb0 <= self.connection_innovation.current_innovation,
                self.node_innovation.current_innovation <= nb0 + children@.len(),
                self.connection_innovation.current_innovation <= cb0 + 3 * children@.len(),
                0 <= nb0 <= COUNTER_HEADROOM,
                0 <= cb0 <= COUNTER_HEADROOM,
                elite_count == start.species@.len(),
                elite_count <= children@.len(),
                children@.len() <= elite_count + target,
                children@.len() > target ==> children@.len() == elite_count,
                start.species@.len() <= start.config.max_species,
                start.config == old(self).config,
                start.players@.len() == old(self).players@.len(),
                old(self).players@.len() > 0,
                old(self).spec_node_counter() <= nb0,
                old(self).spec_conn_counter() <= cb0,
                si <= SPECIES_LIMIT,
                players_within(
                    self.players@,
                    self.node_innovation.current_innovation as int,
                    self.connection_innovation.current_innovation as int,
                ),
                self.species@.len() == 0 ==> children@.len() == 0,
                species_all_wf(self.species@),
                species_all_within(
                    self.species@,
                    self.node_innovation.current_innovation as int,
                    self.connection_innovation.current_innovation as int,
                ),
                rosters_bounded(self.species@),
                rosters_nonempty(self.species@),
                forall|k: int|
                    si <= k < self.species@.len() ==> #[trigger] self.species@[k]
                        == start.species@[k],
                forall|k: int|
                    0 <= k < self.species@.len() ==> (#[trigger] self.species@[k]).players@.to_multiset()
                        == start.species@[k].players@.to_multiset(),
                forall|k: int|
                    0 <= k < self.species@.len() ==> (#[trigger] self.species@[k]).average_fitness
                        == start.species@[k].average_fitness,
                players_ok(children@),
                players_within(
                    children@,
                    self.node_innovation.current_innovation as int,
                    self.connection_innovation.current_innovation as int,
                ),
                forall|i: int|
                    0 <= i < elite_count ==> elite_in(
                        (#[trigger] start.species@[i]).players@,
                        children@[i],
                    ),
                forall|t: int|
                    elite_count <= t < children@.len() ==> (#[trigger] children@[t]).fitness == 0,
                bredsrc.len() == children@.len() - elite_count,
                forall|t: int|
                    0 <= t < bredsrc.len() ==> 0 <= #[trigger] bredsrc[t] < self.species@.len()
                        && crate::species::bred_from(
                        self.species@[bredsrc[t]].players@,
                        children@[elite_count + t],
                    ),
                counts.len() == si,
                children@.len() == elite_count + sum_counts(counts, si as int),
                forall|i: int| 0 <= i < counts.len() ==> 0 <= #[trigger] counts[i],
                forall|i: int|
                    0 <= i < counts.len() ==> #[trigger] planned_count(
                        start.species@,
                        average_sum as int,
                        target as int,
                        counts,
                        i,
                    ),
                forall|i: int, t: int|
                    #![trigger counts[i], bredsrc[t]]
                    0 <= i < counts.len() && sum_counts(counts, i) <= t < sum_counts(counts, i + 1)
                        ==> bredsrc[t] == i,
            decreases self.species@.len() - si,
        {
            let avg = self.species[si].average_fitness;
            let mut quota: i64 = 1;
            if average_sum != 0 {
                proof {
                    assert(self.species@[si as int] == start.species@[si as int]);
                    lemma_avg_total_member(start.species@, si as int);
                    assert(self.species@[si as int].wf());
                    assert(0 <= avg <= average_sum);
                    assert(avg * target <= average_sum * target && 0 <= avg * target)
                        by (nonlinear_arith)
                        requires
                            0 <= avg <= average_sum,
                            0 < target,
                    ;
                    crate::distance::lemma_div_bound(
                        avg as int * target as int,
                        average_sum as int,
                        target as int,
                    );
                    assert(avg * target <= 0x1000_0000_0000_0000_0000_0000) by (nonlinear_arith)
                        requires
                            0 <= avg <= FITNESS_LIMIT,
                            0 <= target <= crate::numeric::POPULATION_LIMIT,
                    ;
                }
                quota = ((avg as u128 * target as u128) / (average_sum as u128)) as i64 - 1;
            }
            proof {
                assert(avg == start.species@[si as int].average_fitness);
                assert(quota == spec_quota(
                    start.species@[si as int].average_fitness as int,
                    average_sum as int,
                    target as int,
                ));
            }
            let ghost entry = children@.len() as int;
            let ghost old_bredsrc = bredsrc;
            let mut bred: i64 = 0;
            while bred < quota && children.len() < target
                invariant
                    si < self.species@.len(),
                    self.species@.len() == start.species@.len(),
                    self.species@.len() <= SPECIES_LIMIT,
                    start.inv(),
                    start.config.valid(),
                    species_all_wf(start.species@),
                    target == start.config.population_size,
                    0 < target <= crate::numeric::POPULATION_LIMIT,
                    self.players == start.players,
                    self.config == start.config,
                    self.best_player == start.best_player,
                    self.gen_players == start.gen_players,
                    self.best_fitness == start.best_fitness,
                    self.generation_id == start.generation_id,
                    self.stats == start.stats,
                    nb0 <= self.node_innovation.current_innovation,
                    cb0 <= self.connection_innovation.current_innovation,
                    self.node_innovation.current_innovation <= nb0 + children@.len(),
                    self.connection_innovation.current_innovation <= cb0 + 3 * children@.len(),
                    0 <= nb0 <= COUNTER_HEADROOM,
                    0 <= cb0 <= COUNTER_HEADROOM,
                    elite_count == start.species@.len(),
                    elite_count <= children@.len(),
                    children@.len() <= elite_count + target,
                    children@.len() > target ==> children@.len() == elite_count,
                    start.species@.len() <= start.config.max_species,
                    start.config == old(self).config,
                    start.players@.len() == old(self).players@.len(),
                    old(self).players@.len() > 0,
                    old(self).spec_node_counter() <= nb0,
                    old(self).spec_conn_counter() <= cb0,
                    si < SPECIES_LIMIT,
                    bred >= 0,
                    bred <= quota || bred == 0,
                    elite_count <= entry,
                    children@.len() == entry + bred,
                    children@.len() <= target || bred == 0,
                    forall|t: int|
                        0 <= t < entry - elite_count ==> #[trigger] bredsrc[t] == old_bredsrc[t],
                    forall|t: int|
                        entry - elite_count <= t < bredsrc.len() ==> #[trigger] bredsrc[t]
                            == si as int,
                    forall|k: int|
                        0 <= k < self.species@.len() ==> (#[trigger] self.species@[k]).average_fitness
                            == start.species@[k].average_fitness,
                    players_within(
                        self.players@,
                        self.node_innovation.current_innovation as int,
                        self.connection_innovation.current_innovation as int,
                    ),
                    species_all_wf(self.species@),
                    species_all_within(
                        self.species@,
                        self.node_innovation.current_innovation as int,
                        self.connection_innovation.current_innovation as int,
                    ),
                    rosters_bounded(self.species@),
                    rosters_nonempty(self.species@),
                    forall|k: int|
                        si < k < self.species@.len() ==> #[trigger] self.species@[k]
                            == start.species@[k],
                    forall|k: int|
                        0 <= k < self.species@.len() ==> (#[trigger] self.species@[k]).players@.to_multiset()
                            == start.species@[k].players@.to_multiset(),
                    players_ok(children@),
                    players_within(
                        children@,
                        self.node_innovation.current_innovation as int,
                        self.connection_innovation.current_innovation as int,
                    ),
                    forall|i: int|
                        0 <= i < elite_count ==> elite_in(
                            (#[trigger] start.species@[i]).players@,
                            children@[i],
                        ),
                    forall|t: int|
                        elite_count <= t < children@.len() ==> (#[trigger] children@[t]).fitness
                            == 0,
                    bredsrc.len() == children@.len() - elite_count,
                    forall|t: int|
                        0 <= t < bredsrc.len() ==> 0 <= #[trigger] bredsrc[t]
                            < self.species@.len() && crate::species::bred_from(
                            self.species@[bredsrc[t]].players@,
                            children@[elite_count + t],
                        ),
                decreases quota - bred,
            {
                let ghost nb1 = self.node_innovation.current_innovation as int;
                let ghost cb1 = self.connection_innovation.current_innovation as int;
                let ghost before = self.species@;
                let mut sp = self.species.remove(si);
                let child = sp.generate_offspring(
                    &mut self.connection_innovation,
                    &mut self.node_innovation,
                    &self.config,
                    rng,
                );
                self.species.insert(si, sp);
                children.push(child);
                proof {
                    let nb2 = self.node_innovation.current_innovation as int;
                    let cb2 = self.connection_innovation.current_innovation as int;
                    assert(self.species@ =~= before.update(si as int, sp));
                    assert forall|k: int|
                        0 <= k < self.species@.len() implies (#[trigger] self.species@[k]).wf()
                        && self.species@[k].within(nb2, cb2) && self.species@[k].players@.len()
                        <= ROSTER_LIMIT && self.species@[k].players@.len() >= 1
                        && self.species@[k].players@.to_multiset()
                        == start.species@[k].players@.to_multiset()
                        && self.species@[k].average_fitness
                        == start.species@[k].average_fitness by {
                        if k != si {
                            assert(self.species@[k] == before[k]);
                            lemma_species_within_mono(before[k], nb1, cb1, nb2, cb2);
                        } else {
                            assert(self.species@[k] == sp);
                            assert(sp.players@.to_multiset()
                                == before[si as int].players@.to_multiset());
                            assert(sp.average_fitness == before[si as int].average_fitness);
                        }
                    }
                    lemma_players_within_mono(children@.drop_last(), nb1, cb1, nb2, cb2);
                    lemma_players_within_mono(self.players@, nb1, cb1, nb2, cb2);
                    assert forall|t: int|
                        0 <= t < children@.len() implies (#[trigger] children@[t]).genome.nodes_within(
                        nb2,
                    ) && children@[t].genome.conns_within(cb2) by {
                        if t < children@.len() - 1 {
                            assert(children@.drop_last()[t] == children@[t]);
                            assert(players_within(children@.drop_last(), nb2, cb2));
                        } else {
                            assert(children@[t] == child);
                        }
                    }
                    assert forall|t: int|
                        0 <= t < children@.len() implies (#[trigger] children@[t]).wf()
                        && children@[t].genome.populated() by {
                        if t < children@.len() - 1 {
                        } else {
                            assert(children@[t] == child);
                        }
                    }
                    let bpre = bredsrc;
                    bredsrc = bredsrc.push(si as int);
                    crate::sort::lemma_same_multiset_same_members(
                        before[si as int].players@,
                        sp.players@,
                    );
                    assert forall|t: int|
                        0 <= t < entry - elite_count implies #[trigger] bredsrc[t]
                        == old_bredsrc[t] by {
                        assert(t < bpre.len());
                        assert(bredsrc == bpre.push(si as int));
                        assert(bpre.push(si as int)[t] == bpre[t]);
                        assert(bredsrc[t] == bpre[t]);
                    }
                    assert forall|t: int|
                        entry - elite_count <= t < bredsrc.len() implies #[trigger] bredsrc[t]
                        == si as int by {
                        if t < bpre.len() {
                            assert(bpre.push(si as int)[t] == bpre[t]);
                            assert(bredsrc[t] == bpre[t]);
                        } else {
                            assert(bredsrc[t] == si as int);
                        }
                    }
                    assert forall|t: int|
                        0 <= t < bredsrc.len() implies 0 <= #[trigger] bredsrc[t]
                        < self.species@.len() && crate::species::bred_from(
                        self.species@[bredsrc[t]].players@,
                        children@[elite_count + t],
                    ) by {
                        if t < bpre.len() {
                            assert(bredsrc[t] == bpre[t]);
                            assert(children@[elite_count + t]
                                == children@.drop_last()[elite_count + t]);
                            if bpre[t] == si {
                                let (c0, c1, n0, n1) = choose|c0: int, c1: int, n0: int, n1: int|
                                    #[trigger] crate::species::offspring_of(
                                        before[si as int].players@,
                                        c0,
                                        c1,
                                        n0,
                                        n1,
                                        children@[elite_count + t],
                                    );
                                crate::species::lemma_offspring_roster_exchange(
                                    before[si as int].players@,
                                    sp.players@,
                                    c0,
                                    c1,
                                    n0,
                                    n1,
                                    children@[elite_count + t],
                                );
                                assert(self.species@[si as int] == sp);
                            } else {
                                assert(self.species@[bpre[t]] == before[bpre[t]]);
                            }
                        } else {
                            assert(bredsrc[t] == si);
                            assert(children@[elite_count + t] == child);
                            let (c0, c1, n0, n1) = choose|c0: int, c1: int, n0: int, n1: int|
                                #[trigger] crate::species::offspring_of(
                                    before[si as int].players@,
                                    c0,
                                    c1,
                                    n0,
                                    n1,
                                    child,
                                );
                            crate::species::lemma_offspring_roster_exchange(
                                before[si as int].players@,
                                sp.players@,
                                c0,
                                c1,
                                n0,
                                n1,
                                child,
                            );
                            assert(self.species@[si as int] == sp);
                        }
                    }
                }
                bred = bred + 1;
            }
            proof {
                let cpre = counts;
                counts = counts.push(bred as int);
                let q = spec_quota(
                    start.species@[si as int].average_fitness as int,
                    average_sum as int,
                    target as int,
                );
                let head = target - elite_count - sum_counts(cpre, si as int);
                assert(children@.len() == entry + bred);
                if q <= 0 {
                    assert(bred == 0);
                } else if head <= 0 {
                    assert(entry >= target);
                    if bred > 0 {
                        assert(children@.len() <= target);
                        assert(false);
                    }
                } else {
                    if bred < quota {
                        assert(children@.len() >= target);
                        assert(bred > 0 || entry >= target);
                        assert(bred == head);
                    } else {
                        assert(bred == quota);
                        assert(children@.len() <= target || bred == 0);
                        if bred > 0 {
                            assert(entry + bred <= target);
                            assert(q <= head);
                        } else {
                            assert(q <= 0 || head <= 0 || (q <= head && q == 0));
                        }
                    }
                }
                assert(counts[si as int] == (if q <= 0 {
                    0int
                } else if head <= 0 {
                    0int
                } else if q <= head {
                    q
                } else {
                    head
                }));
                lemma_sum_counts_prefix(counts, cpre, si as int);
                assert(sum_counts(counts, si as int + 1) == sum_counts(cpre, si as int) + bred);
                assert forall|i: int|
                    0 <= i < counts.len() implies #[trigger] planned_count(
                    start.species@,
                    average_sum as int,
                    target as int,
                    counts,
                    i,
                ) by {
                    reveal(planned_count);
                    lemma_sum_counts_prefix(counts, cpre, i);
                    if i < cpre.len() {
                        assert(counts[i] == cpre[i]);
                        assert(planned_count(
                            start.species@,
                            average_sum as int,
                            target as int,
                            cpre,
                            i,
                        ));
                    }
                }
                assert forall|i: int, t: int|
                    #![trigger counts[i], bredsrc[t]]
                    0 <= i < counts.len() && sum_counts(counts, i) <= t < sum_counts(
                        counts,
                        i + 1,
                    ) implies bredsrc[t] == i by {
                    lemma_sum_counts_prefix(counts, cpre, i);
                    if i < cpre.len() {
                        lemma_sum_counts_prefix(counts, cpre, i + 1);
                        assert(cpre[i] == counts[i]);
                        lemma_sum_counts_mono(cpre, i + 1, cpre.len() as int);
                        lemma_sum_counts_mono(cpre, 0, i);
                        assert(t < sum_counts(cpre, cpre.len() as int));
                        assert(sum_counts(cpre, cpre.len() as int) == entry - elite_count);
                        assert(0 <= t < entry - elite_count);
                        assert(bredsrc[t] == old_bredsrc[t]);
                        assert(old_bredsrc[t] == i);
                    } else {
                        assert(i == si as int);
                        assert(sum_counts(counts, i) == entry - elite_count);
                    }
                }
            }
            si = si + 1;
        }
        while children.len() < target
            invariant
                self.species@.len() == start.species@.len(),
                self.species@.len() <= SPECIES_LIMIT,
                start.inv(),
                start.config.valid(),
                species_all_wf(start.species@),
                target == start.config.population_size,
                0 < target <= crate::numeric::POPULATION_LIMIT,
                self.players == start.players,
                self.config == start.config,
                self.best_player == start.best_player,
                self.gen_players == start.gen_players,
                self.best_fitness == start.best_fitness,
                self.generation_id == start.generation_id,
                self.stats == start.stats,
                nb0 == start.node_innovation.current_innovation as int,
                cb0 == start.connection_innovation.current_innovation as int,
                nb0 <= self.node_innovation.current_innovation,
                cb0 <= self.connection_innovation.current_innovation,
                self.node_innovation.current_innovation <= nb0 + children@.len(),
                self.connection_innovation.current_innovation <= cb0 + 3 * children@.len(),
                0 <= nb0 <= COUNTER_HEADROOM,
                0 <= cb0 <= COUNTER_HEADROOM,
                elite_count == start.species@.len(),
                children@.len() >= elite_count || self.species@.len() == 0,
                self.species@.len() == 0 ==> children@.len() == 0,
                children@.len() <= elite_count + target,
                children@.len() > target ==> children@.len() == elite_count,
                start.species@.len() <= start.config.max_species,
                start.config == old(self).config,
                start.players@.len() == old(self).players@.len(),
                old(self).players@.len() > 0,
                old(self).spec_node_counter() <= nb0,
                old(self).spec_conn_counter() <= cb0,
                species_all_wf(self.species@),
                species_all_within(
                    self.species@,
                    self.node_innovation.current_innovation as int,
                    self.connection_innovation.current_innovation as int,
                ),
                rosters_bounded(self.species@),
                rosters_nonempty(self.species@),
                forall|k: int|
                    0 <= k < self.species@.len() ==> (#[trigger] self.species@[k]).players@.to_multiset()
                        == start.species@[k].players@.to_multiset(),
                players_ok(children@),
                players_within(
                    children@,
                    self.node_innovation.current_innovation as int,
                    self.connection_innovation.current_innovation as int,
                ),
                forall|i: int|
                    0 <= i < elite_count && i < children@.len() ==> elite_in(
                        (#[trigger] start.species@[i]).players@,
                        children@[i],
                    ),
                forall|t: int|
                    elite_count <= t < children@.len() ==> (#[trigger] children@[t]).fitness == 0,
                bredsrc.len() == children@.len() - elite_count,
                forall|t: int|
                    0 <= t < bredsrc.len() ==> 0 <= #[trigger] bredsrc[t] < self.species@.len()
                        && crate::species::bred_from(
                        self.species@[bredsrc[t]].players@,
                        children@[elite_count + t],
                    ),
                counts.len() == self.species@.len(),
                forall|i: int| 0 <= i < counts.len() ==> 0 <= #[trigger] counts[i],
                forall|i: int, t: int|
                    #![trigger counts[i], bredsrc[t]]
                    0 <= i < counts.len() && sum_counts(counts, i) <= t < sum_counts(counts, i + 1)
                        ==> bredsrc[t] == i,
                forall|t: int|
                    sum_counts(counts, counts.len() as int) <= t < bredsrc.len()
                        ==> #[trigger] bredsrc[t] == 0,
                children@.len() >= elite_count + sum_counts(counts, counts.len() as int),
                average_sum == avg_total(start.species@),
                forall|k: int|
                    0 <= k < self.species@.len() ==> (#[trigger] self.species@[k]).average_fitness
                        == start.species@[k].average_fitness,
            decreases target - children@.len(),
        {
            if self.species.len() == 0 {
                proof {
                    lemma_players_within_mono(
                        self.players@,
                        nb0,
                        cb0,
                        self.node_innovation.current_innovation as int,
                        self.connection_innovation.current_innovation as int,
                    );
                }
                return ;
            }
            let ghost nb1 = self.node_innovation.current_innovation as int;
            let ghost cb1 = self.connection_innovation.current_innovation as int;
            let ghost before = self.species@;
            let mut sp = self.species.remove(0);
            let child = sp.generate_offspring(
                &mut self.connection_innovation,
                &mut self.node_innovation,
                &self.config,
                rng,
            );
            self.species.insert(0, sp);
            children.push(child);
            proof {
                let nb2 = self.node_innovation.current_innovation as int;
                let cb2 = self.connection_innovation.current_innovation as int;
                assert(self.species@ =~= before.update(0, sp));
                assert forall|k: int|
                    0 <= k < self.species@.len() implies (#[trigger] self.species@[k]).wf()
                    && self.species@[k].within(nb2, cb2) && self.species@[k].players@.len()
                    <= ROSTER_LIMIT && self.species@[k].players@.len() >= 1
                    && self.species@[k].players@.to_multiset()
                    == start.species@[k].players@.to_multiset() by {
                    if k != 0 {
                        assert(self.species@[k] == before[k]);
                        lemma_species_within_mono(before[k], nb1, cb1, nb2, cb2);
                    } else {
                        assert(self.species@[k] == sp);
                        assert(sp.players@.to_multiset()
                            == before[0].players@.to_multiset());
                    }
                }
                lemma_players_within_mono(children@.drop_last(), nb1, cb1, nb2, cb2);
                lemma_players_within_mono(self.players@, nb1, cb1, nb2, cb2);
                assert forall|t: int|
                    0 <= t < children@.len() implies (#[trigger] children@[t]).genome.nodes_within(
                    nb2,
                ) && children@[t].genome.conns_within(cb2) by {
                    if t < children@.len() - 1 {
                        assert(children@.drop_last()[t] == children@[t]);
                        assert(players_within(children@.drop_last(), nb2, cb2));
                    } else {
                        assert(children@[t] == child);
                    }
                }
                assert forall|t: int|
                    0 <= t < children@.len() implies (#[trigger] children@[t]).wf()
                    && children@[t].genome.populated() by {
                    if t < children@.len() - 1 {
                    } else {
                        assert(children@[t] == child);
                    }
                }
                let bpre = bredsrc;
                bredsrc = bredsrc.push(0);
                crate::sort::lemma_same_multiset_same_members(before[0].players@, sp.players@);
                assert forall|i: int, t: int|
                    #![trigger counts[i], bredsrc[t]]
                    0 <= i < counts.len() && sum_counts(counts, i) <= t < sum_counts(
                        counts,
                        i + 1,
                    ) implies bredsrc[t] == i by {
                    lemma_sum_counts_mono(counts, i + 1, counts.len() as int);
                    lemma_sum_counts_mono(counts, 0, i);
                    assert(0 <= t);
                    assert(t < sum_counts(counts, counts.len() as int));
                    assert(t < bpre.len());
                    assert(bpre.push(0)[t] == bpre[t]);
                    assert(bredsrc[t] == bpre[t]);
                }
                assert forall|t: int|
                    sum_counts(counts, counts.len() as int) <= t < bredsrc.len() implies #[trigger] bredsrc[t]
                    == 0 by {
                    lemma_sum_counts_mono(counts, 0, counts.len() as int);
                    if t < bpre.len() {
                        assert(bpre.push(0)[t] == bpre[t]);
                        assert(bredsrc[t] == bpre[t]);
                    } else {
                        assert(bredsrc[t] == 0);
                    }
                }
                assert forall|t: int|
                    0 <= t < bredsrc.len() implies 0 <= #[trigger] bredsrc[t]
                    < self.species@.len() && crate::species::bred_from(
                    self.species@[bredsrc[t]].players@,
                    children@[elite_count + t],
                ) by {
                    if t < bpre.len() {
                        assert(bredsrc[t] == bpre[t]);
                        assert(children@[elite_count + t]
                            == children@.drop_last()[elite_count + t]);
                        if bpre[t] == 0 {
                            let (c0, c1, n0, n1) = choose|c0: int, c1: int, n0: int, n1: int|
                                #[trigger] crate::species::offspring_of(
                                    before[0].players@,
                                    c0,
                                    c1,
                                    n0,
                                    n1,
                                    children@[elite_count + t],
                                );
                            crate::species::lemma_offspring_roster_exchange(
                                before[0].players@,
                                sp.players@,
                                c0,
                                c1,
                                n0,
                                n1,
                                children@[elite_count + t],
                            );
                            assert(self.species@[0] == sp);
                        } else {
                            assert(self.species@[bpre[t]] == before[bpre[t]]);
                        }
                    } else {
                        assert(bredsrc[t] == 0);
                        assert(children@[elite_count + t] == child);
                        let (c0, c1, n0, n1) = choose|c0: int, c1: int, n0: int, n1: int|
                            #[trigger] crate::species::offspring_of(
                                before[0].players@,
                                c0,
                                c1,
                                n0,
                                n1,
                                child,
                            );
                        crate::species::lemma_offspring_roster_exchange(
                            before[0].players@,
                            sp.players@,
                            c0,
                            c1,
                            n0,
                            n1,
                            child,
                        );
                        assert(self.species@[0] == sp);
                    }
                }
            }
        }
        self.players = children;
        proof {
            if self.species@.len() > 0 {
                assert(self.players@.len() >= target);
                assert(self.players@.len() == (if self.species@.len() >= target {
                    self.species@.len() as int
                } else {
                    target as int
                }));
            }
            assert forall|i: int|
                0 <= i < self.species@.len() implies elite_in(
                (#[trigger] self.species@[i]).players@,
                self.players@[i],
            ) by {
                assert(elite_in(start.species@[i].players@, self.players@[i]));
                crate::sort::lemma_same_multiset_same_members(
                    self.species@[i].players@,
                    start.species@[i].players@,
                );
                let q = choose|q: int|
                    0 <= q < start.species@[i].players@.len() && self.players@[i].like(
                        #[trigger] start.species@[i].players@[q],
                    );
                assert(start.species@[i].players@.contains(start.species@[i].players@[q]));
                assert(self.species@[i].players@.contains(start.species@[i].players@[q]));
                let q2 = choose|q2: int|
                    0 <= q2 < self.species@[i].players@.len() && self.species@[i].players@[q2]
                        == start.species@[i].players@[q];
                assert(self.players@[i].like(self.species@[i].players@[q2]));
                assert forall|r: int|
                    0 <= r < self.species@[i].players@.len() implies (#[trigger] self.species@[i].players@[r]).fitness
                    <= self.players@[i].fitness by {
                    assert(self.species@[i].players@.contains(self.species@[i].players@[r]));
                    assert(start.species@[i].players@.contains(self.species@[i].players@[r]));
                    let r2 = choose|r2: int|
                        0 <= r2 < start.species@[i].players@.len()
                            && start.species@[i].players@[r2] == self.species@[i].players@[r];
                    assert(start.species@[i].players@[r2].fitness <= self.players@[i].fitness);
                }
            }
            assert forall|t: int|
                0 <= t < bredsrc.len() implies 0 <= #[trigger] bredsrc[t] < self.species@.len()
                && crate::species::bred_from(
                self.species@[bredsrc[t]].players@,
                self.players@[self.species@.len() + t],
            ) by {
                assert(self.players@[elite_count + t] == children@[elite_count + t]);
            }
            if self.species@.len() > 0 {
                lemma_avg_total_pointwise(self.species@, start.species@);
                assert(avg_total(self.species@) == average_sum);
                assert forall|i: int|
                    0 <= i < counts.len() implies #[trigger] planned_count(
                    self.species@,
                    avg_total(self.species@),
                    target as int,
                    counts,
                    i,
                ) by {
                    reveal(planned_count);
                    assert(planned_count(
                        start.species@,
                        average_sum as int,
                        target as int,
                        counts,
                        i,
                    ));
                    assert(self.species@[i].average_fitness
                        == start.species@[i].average_fitness);
                }
                assert(reproduction_plan(
                    self.species@,
                    self.players@,
                    target as int,
                    counts,
                    bredsrc,
                ));
            }
        }
        let _ = self.generation_id.get_innovation();
    }

    /// A copy of the best genome seen over the whole run.
    pub fn get_fittest_genome(&self) -> (r: FitnessGenome)
        ensures
            r.like(self.spec_best_player()),
    {
        self.best_player.snapshot()
    }
}

proof fn lemma_all_players_len(ss: Seq<Species>)
    ensures
        all_players(ss).len() == roster_total(ss),
    decreases ss.len(),
{
    if ss.len() > 0 {
        lemma_all_players_len(ss.drop_last());
    }
}

proof fn lemma_roster_prefix_bound(ss: Seq<Species>, i: int)
    requires
        0 <= i < ss.len(),
    ensures
        roster_total(ss.subrange(0, i)) + ss[i].players@.len() <= roster_total(ss),
    decreases ss.len(),
{
    lemma_roster_total_bounds(ss);
    if i == ss.len() - 1 {
        assert(ss.subrange(0, i) =~= ss.drop_last());
    } else {
        assert(ss.drop_last().subrange(0, i) =~= ss.subrange(0, i));
        lemma_roster_prefix_bound(ss.drop_last(), i);
    }
}

proof fn lemma_roster_total_zero(ss: Seq<Species>)
    requires
        forall|i: int| 0 <= i < ss.len() ==> (#[trigger] ss[i]).players@.len() == 0,
    ensures
        roster_total(ss) == 0,
    decreases ss.len(),
{
    if ss.len() > 0 {
        assert forall|i: int|
            0 <= i < ss.drop_last().len() implies (#[trigger] ss.drop_last()[i]).players@.len()
            == 0 by {
            assert(ss[i].players@.len() == 0);
        }
        lemma_roster_total_zero(ss.drop_last());
    }
}

} // verus!
