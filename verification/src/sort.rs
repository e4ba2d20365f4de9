//! Order-by-fitness helpers: selection sorts that move whole elements, so
//! every reordering is pinned by a multiset equation.

use vstd::prelude::*;

use crate::fitness_genome::FitnessGenome;
use vstd::multiset::Multiset;

verus! {

/// Descending fitness along the sequence.
pub open spec fn sorted_desc_fitness(s: Seq<FitnessGenome>) -> bool {
    forall|i: int, j: int| 0 <= i < j < s.len() ==> s[i].fitness >= s[j].fitness
}

/// Sorts the players by fitness, best first, by repeatedly moving the
/// earliest best remaining player across. Keeps exactly the same players.
pub(crate) fn sort_fitness_desc(v: &mut Vec<FitnessGenome>)
    ensures
        final(v)@.len() == old(v)@.len(),
        final(v)@.to_multiset() == old(v)@.to_multiset(),
        sorted_desc_fitness(final(v)@),
        forall|x: FitnessGenome| final(v)@.contains(x) <==> old(v)@.contains(x),
{
    let ghost orig = v@;
    let mut out: Vec<FitnessGenome> = Vec::new();
    proof {
        broadcast use vstd::multiset::group_multiset_axioms;

        out@.to_multiset_ensures();
        vstd::multiset::lemma_multiset_empty_len(out@.to_multiset());
        assert(out@.to_multiset() =~= Multiset::<FitnessGenome>::empty());
        assert(out@.to_multiset().add(v@.to_multiset()) =~= orig.to_multiset());
    }
    while v.len() > 0
        invariant
            out@.to_multiset().add(v@.to_multiset()) == orig.to_multiset(),
            out@.len() + v@.len() == orig.len(),
            sorted_desc_fitness(out@),
            forall|a: int, b: int|
                #![trigger out@[a], v@[b]]
                0 <= a < out@.len() && 0 <= b < v@.len() ==> out@[a].fitness >= v@[b].fitness,
        decreases v@.len(),
    {
        let mut m: usize = 0;
        let mut c: usize = 1;
        while c < v.len()
            invariant
                m < v@.len(),
                c <= v@.len(),
                v@.len() > 0,
                forall|t: int| 0 <= t < c ==> v@[m as int].fitness >= #[trigger] v@[t].fitness,
            decreases v@.len() - c,
        {
            if v[c].get_fitness() > v[m].get_fitness() {
                m = c;
            }
            c = c + 1;
        }
        let ghost vpre = v@;
        let ghost opre = out@;
        let x = v.remove(m);
        out.push(x);
        proof {
            broadcast use vstd::multiset::group_multiset_axioms;

            vpre.to_multiset_ensures();
            opre.to_multiset_ensures();
            assert(v@.to_multiset() == vpre.to_multiset().remove(x));
            assert(out@.to_multiset() =~= opre.to_multiset().insert(x));
            assert(vpre.contains(vpre[m as int]));
            assert(vpre.to_multiset().count(x) > 0);
            assert(out@.to_multiset().add(v@.to_multiset()) =~= orig.to_multiset());
            assert forall|b: int| 0 <= b < v@.len() implies x.fitness >= #[trigger] v@[b].fitness by {
                if b < m {
                    assert(v@[b] == vpre[b]);
                } else {
                    assert(v@[b] == vpre[b + 1]);
                }
            }
        }
    }
    proof {
        broadcast use vstd::multiset::group_multiset_axioms;

        v@.to_multiset_ensures();
        vstd::multiset::lemma_multiset_empty_len(v@.to_multiset());
        assert(v@.to_multiset() =~= Multiset::<FitnessGenome>::empty());
        assert(out@.to_multiset() =~= orig.to_multiset());
        out@.to_multiset_ensures();
        orig.to_multiset_ensures();
        assert forall|x: FitnessGenome| out@.contains(x) <==> orig.contains(x) by {
            assert(out@.to_multiset().count(x) == orig.to_multiset().count(x));
        }
    }
    *v = out;
}

/// Sequences with one multiset hold the same members.
pub proof fn lemma_same_multiset_same_members<A>(a: Seq<A>, b: Seq<A>)
    requires
        a.to_multiset() == b.to_multiset(),
    ensures
        forall|x: A| a.contains(x) <==> b.contains(x),
{
    assert forall|x: A| a.contains(x) implies b.contains(x) by {
        a.to_multiset_ensures();
        b.to_multiset_ensures();
        assert(a.to_multiset().count(x) > 0);
        assert(b.to_multiset().count(x) > 0);
    }
    assert forall|x: A| b.contains(x) implies a.contains(x) by {
        a.to_multiset_ensures();
        b.to_multiset_ensures();
        assert(b.to_multiset().count(x) > 0);
        assert(a.to_multiset().count(x) > 0);
    }
}

/// Descending best fitness along a sequence of species.
pub open spec fn sorted_desc_best(s: Seq<crate::species::Species>) -> bool {
    forall|i: int, j: int| 0 <= i < j < s.len() ==> s[i].best_fitness >= s[j].best_fitness
}

/// Ascending best fitness along a sequence of species.
pub open spec fn sorted_asc_best(s: Seq<crate::species::Species>) -> bool {
    forall|i: int, j: int| 0 <= i < j < s.len() ==> s[i].best_fitness <= s[j].best_fitness
}

/// Sorts species by their best fitness, best first. Keeps exactly the same
/// species.
pub(crate) fn sort_species_desc(v: &mut Vec<crate::species::Species>)
    ensures
        final(v)@.len() == old(v)@.len(),
        final(v)@.to_multiset() == old(v)@.to_multiset(),
        sorted_desc_best(final(v)@),
        forall|x: crate::species::Species| final(v)@.contains(x) <==> old(v)@.contains(x),
{
    let ghost orig = v@;
    let mut out: Vec<crate::species::Species> = Vec::new();
    proof {
        broadcast use vstd::multiset::group_multiset_axioms;

        out@.to_multiset_ensures();
        vstd::multiset::lemma_multiset_empty_len(out@.to_multiset());
        assert(out@.to_multiset() =~= Multiset::<crate::species::Species>::empty());
        assert(out@.to_multiset().add(v@.to_multiset()) =~= orig.to_multiset());
    }
    while v.len() > 0
        invariant
            out@.to_multiset().add(v@.to_multiset()) == orig.to_multiset(),
            out@.len() + v@.len() == orig.len(),
            sorted_desc_best(out@),
            forall|a: int, b: int|
                #![trigger out@[a], v@[b]]
                0 <= a < out@.len() && 0 <= b < v@.len() ==> out@[a].best_fitness
                    >= v@[b].best_fitness,
        decreases v@.len(),
    {
        let mut m: usize = 0;
        let mut c: usize = 1;
        while c < v.len()
            invariant
                m < v@.len(),
                c <= v@.len(),
                v@.len() > 0,
                forall|t: int|
                    0 <= t < c ==> v@[m as int].best_fitness >= (#[trigger] v@[t]).best_fitness,
            decreases v@.len() - c,
        {
            if v[c].get_best_fitness() > v[m].get_best_fitness() {
                m = c;
            }
            c = c + 1;
        }
        let ghost vpre = v@;
        let ghost opre = out@;
        let x = v.remove(m);
        out.push(x);
        proof {
            broadcast use vstd::multiset::group_multiset_axioms;

            vpre.to_multiset_ensures();
            opre.to_multiset_ensures();
            assert(v@.to_multiset() == vpre.to_multiset().remove(x));
            assert(out@.to_multiset() =~= opre.to_multiset().insert(x));
            assert(vpre.contains(vpre[m as int]));
            assert(vpre.to_multiset().count(x) > 0);
            assert(out@.to_multiset().add(v@.to_multiset()) =~= orig.to_multiset());
            assert forall|b: int|
                0 <= b < v@.len() implies x.best_fitness >= (#[trigger] v@[b]).best_fitness by {
                if b < m {
                    assert(v@[b] == vpre[b]);
                } else {
                    assert(v@[b] == vpre[b + 1]);
                }
            }
        }
    }
    proof {
        broadcast use vstd::multiset::group_multiset_axioms;

        v@.to_multiset_ensures();
        vstd::multiset::lemma_multiset_empty_len(v@.to_multiset());
        assert(v@.to_multiset() =~= Multiset::<crate::species::Species>::empty());
        assert(out@.to_multiset() =~= orig.to_multiset());
        lemma_same_multiset_same_members(out@, orig);
    }
    *v = out;
}

/// Sorts species by their best fitness, worst first. Keeps exactly the
/// same species.
pub(crate) fn sort_species_asc(v: &mut Vec<crate::species::Species>)
    ensures
        final(v)@.len() == old(v)@.len(),
        final(v)@.to_multiset() == old(v)@.to_multiset(),
        sorted_asc_best(final(v)@),
        forall|x: crate::species::Species| final(v)@.contains(x) <==> old(v)@.contains(x),
{
    let ghost orig = v@;
    let mut out: Vec<crate::species::Species> = Vec::new();
    proof {
        broadcast use vstd::multiset::group_multiset_axioms;

        out@.to_multiset_ensures();
        vstd::multiset::lemma_multiset_empty_len(out@.to_multiset());
        assert(out@.to_multiset() =~= Multiset::<crate::species::Species>::empty());
        assert(out@.to_multiset().add(v@.to_multiset()) =~= orig.to_multiset());
    }
    while v.len() > 0
        invariant
            out@.to_multiset().add(v@.to_multiset()) == orig.to_multiset(),
            out@.len() + v@.len() == orig.len(),
            sorted_asc_best(out@),
            forall|a: int, b: int|
                #![trigger out@[a], v@[b]]
                0 <= a < out@.len() && 0 <= b < v@.len() ==> out@[a].best_fitness
                    <= v@[b].best_fitness,
        decreases v@.len(),
    {
        let mut m: usize = 0;
        let mut c: usize = 1;
        while c < v.len()
            invariant
                m < v@.len(),
                c <= v@.len(),
                v@.len() > 0,
                forall|t: int|
                    0 <= t < c ==> v@[m as int].best_fitness <= (#[trigger] v@[t]).best_fitness,
            decreases v@.len() - c,
        {
            if v[c].get_best_fitness() < v[m].get_best_fitness() {
                m = c;
            }
            c = c + 1;
        }
        let ghost vpre = v@;
        let ghost opre = out@;
        let x = v.remove(m);
        out.push(x);
        proof {
            broadcast use vstd::multiset::group_multiset_axioms;

            vpre.to_multiset_ensures();
            opre.to_multiset_ensures();
            assert(v@.to_multiset() == vpre.to_multiset().remove(x));
            assert(out@.to_multiset() =~= opre.to_multiset().insert(x));
            assert(vpre.contains(vpre[m as int]));
            assert(vpre.to_multiset().count(x) > 0);
            assert(out@.to_multiset().add(v@.to_multiset()) =~= orig.to_multiset());
            assert forall|b: int|
                0 <= b < v@.len() implies x.best_fitness <= (#[trigger] v@[b]).best_fitness by {
                if b < m {
                    assert(v@[b] == vpre[b]);
                } else {
                    assert(v@[b] == vpre[b + 1]);
                }
            }
        }
    }
    proof {
        broadcast use vstd::multiset::group_multiset_axioms;

        v@.to_multiset_ensures();
        vstd::multiset::lemma_multiset_empty_len(v@.to_multiset());
        assert(v@.to_multiset() =~= Multiset::<crate::species::Species>::empty());
        assert(out@.to_multiset() =~= orig.to_multiset());
        lemma_same_multiset_same_members(out@, orig);
    }
    *v = out;
}

} // verus!
