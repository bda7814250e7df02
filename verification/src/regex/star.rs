//! What the automaton of a part any number of times accepts.

use vstd::prelude::*;
use crate::graph::{
    edge,
    reaches,
    lemma_reaches_self,
    lemma_reaches_more,
    lemma_reaches_transitive,
};
use crate::nfa::NfaModel;
use crate::nfa::blocks::{
    lifted,
    inside,
    holds_closed,
    lemma_closed_set,
    lemma_run_indices_more,
    lemma_run_inside,
    accepts_at,
};
use crate::nfa::words::{run_indices, is_index_word};
use crate::regex::thompson::{PartModel, part_wf, part_star, nfa_of_part, moved_by, lemma_star_wf};
use crate::regex::alt::fresh;
use crate::regex::concat::{lemma_part_nfa, lemma_lifted_reach};

verus! {

/// Whether the word is made of words that the automaton accepts, one after
/// the other, each of at least one symbol.
pub open spec fn star_at(m: NfaModel, word: Seq<int>) -> bool
    decreases word.len(),
{
    word.len() == 0 || exists|j: int|
        1 <= j <= word.len() && accepts_at(m, #[trigger] word.take(j)) && star_at(
            m,
            word.skip(j),
        )
}

/// A word made of accepted words, and an accepted word behind it, are a
/// word made of accepted words.
pub proof fn lemma_star_append(m: NfaModel, u: Seq<int>, v: Seq<int>)
    requires
        star_at(m, u),
        accepts_at(m, v),
        v.len() >= 1,
    ensures
        star_at(m, u + v),
    decreases u.len(),
{
    let w = u + v;
    if u.len() == 0 {
        assert(w =~= v);
        assert(v.take(v.len() as int) =~= v);
        assert(v.skip(v.len() as int) =~= Seq::<int>::empty());
        assert(star_at(m, v.skip(v.len() as int)));
    } else {
        let j = choose|j: int|
            1 <= j <= u.len() && accepts_at(m, #[trigger] u.take(j)) && star_at(m, u.skip(j));
        lemma_star_append(m, u.skip(j), v);
        assert(w.take(j) =~= u.take(j));
        assert(w.skip(j) =~= u.skip(j) + v);
    }
}

/// A word of at least one symbol that is made of accepted words ends with
/// an accepted word of at least one symbol.
pub proof fn lemma_star_last(m: NfaModel, w: Seq<int>) -> (j: int)
    requires
        star_at(m, w),
        w.len() >= 1,
    ensures
        0 <= j < w.len(),
        star_at(m, w.take(j)),
        accepts_at(m, w.skip(j)),
    decreases w.len(),
{
    let first = choose|j: int|
        1 <= j <= w.len() && accepts_at(m, #[trigger] w.take(j)) && star_at(m, w.skip(j));
    let rest = w.skip(first);
    if rest.len() == 0 {
        assert(w.take(first) =~= w);
        assert(w.skip(0) =~= w);
        assert(w.take(0).len() == 0);
        0
    } else {
        let last = lemma_star_last(m, rest);
        let j = first + last;
        let head = w.take(j);
        assert(head.take(first) =~= w.take(first));
        assert(head.skip(first) =~= rest.take(last));
        assert(w.skip(j) =~= rest.skip(last));
        assert(star_at(m, head));
        j
    }
}

/// The states in which the part can be after an end of the word whose
/// beginning is made of accepted words.
pub open spec fn after_stars(m: NfaModel, word: Seq<int>) -> Set<int> {
    Set::new(
        |q: int|
            exists|j: int|
                0 <= j <= word.len() && star_at(m, #[trigger] word.take(j)) && run_indices(
                    m,
                    m.start(),
                    word.skip(j),
                ).contains(q),
    )
}

/// The states in which the part can be after stars are states of the
/// part.
pub proof fn lemma_after_stars_inside(m: NfaModel, word: Seq<int>)
    requires
        m.wf(),
        is_index_word(m, word),
    ensures
        inside(m, after_stars(m, word)),
{
    assert forall|q: int| after_stars(m, word).contains(q) implies 0 <= q < m.states.len() by {
        let j = choose|j: int|
            0 <= j <= word.len() && star_at(m, #[trigger] word.take(j)) && run_indices(
                m,
                m.start(),
                word.skip(j),
            ).contains(q);
        assert forall|i: int| 0 <= i < word.skip(j).len() implies 0 <= #[trigger] word.skip(j)[i]
            < m.alphabet.len() by {
            assert(word.skip(j)[i] == word[i + j]);
        }
        lemma_run_inside(m, word.skip(j));
    }
}

/// What the moves of the whole are, seen from its part.
pub proof fn lemma_star_edges(a: PartModel, alphabet: Seq<Seq<char>>)
    requires
        part_wf(a, alphabet.len() as int),
        alphabet.no_duplicates(),
    ensures
        nfa_of_part(part_star(a, alphabet.len() as int), alphabet).wf(),
        forall|q: int|
            (#[trigger] edge(
                nfa_of_part(part_star(a, alphabet.len() as int), alphabet).epsilon_graph(),
                0,
                q,
            )) == (q == a.initial + 1),
        forall|p: int, q: int|
            0 <= p < a.states.len() ==> (#[trigger] edge(
                nfa_of_part(part_star(a, alphabet.len() as int), alphabet).epsilon_graph(),
                p + 1,
                q,
            )) == (edge(nfa_of_part(a, alphabet).epsilon_graph(), p, q - 1) || (
            a.states[p].accepting && q == 0)),
        forall|x: int, q: int|
            0 <= x < alphabet.len() ==> !(#[trigger] nfa_of_part(
                part_star(a, alphabet.len() as int),
                alphabet,
            ).states[0].transitions[x].contains(q)),
        forall|p: int, x: int, q: int|
            0 <= p < a.states.len() && 0 <= x < alphabet.len() ==> (#[trigger] nfa_of_part(
                part_star(a, alphabet.len() as int),
                alphabet,
            ).states[p + 1].transitions[x].contains(q)) == a.states[p].moves[x].contains(q - 1),
{
    let c = part_star(a, alphabet.len() as int);
    let nc = nfa_of_part(c, alphabet);
    let na = nfa_of_part(a, alphabet);
    lemma_star_wf(a, alphabet.len() as int);
    lemma_part_nfa(c, alphabet);
    assert forall|q: int| (#[trigger] edge(nc.epsilon_graph(), 0, q)) == (q == a.initial + 1) by {
        let list = c.states[0].silent;
        assert(nc.epsilon_graph()[0] == list);
        assert(list == seq![a.initial + 1]);
        if list.contains(q) {
            let i = choose|i: int| 0 <= i < list.len() && list[i] == q;
        }
        assert(list[0] == a.initial + 1);
    }
    assert forall|p: int, q: int| 0 <= p < a.states.len() implies (#[trigger] edge(
        nc.epsilon_graph(),
        p + 1,
        q,
    )) == (edge(na.epsilon_graph(), p, q - 1) || (a.states[p].accepting && q == 0)) by {
        let old_list = a.states[p].silent;
        let new_list = c.states[p + 1].silent;
        let shifted = moved_by(old_list, 1);
        assert(nc.epsilon_graph()[p + 1] == new_list);
        assert(na.epsilon_graph()[p] == old_list);
        if new_list.contains(q) {
            let i = choose|i: int| 0 <= i < new_list.len() && new_list[i] == q;
            if i < old_list.len() {
                assert(new_list[i] == shifted[i]);
                assert(old_list[i] == q - 1);
                assert(old_list.contains(q - 1));
            }
        }
        if old_list.contains(q - 1) {
            let i = choose|i: int| 0 <= i < old_list.len() && old_list[i] == q - 1;
            assert(shifted[i] == q);
            assert(new_list[i] == q);
        }
        if a.states[p].accepting && q == 0 {
            assert(new_list[old_list.len() as int] == 0);
        }
    }
    assert forall|x: int, q: int| 0 <= x < alphabet.len() implies !(
    #[trigger] nc.states[0].transitions[x].contains(q)) by {
        assert(nc.states[0].transitions[x].len() == 0);
    }
    assert forall|p: int, x: int, q: int|
        0 <= p < a.states.len() && 0 <= x < alphabet.len() implies (
    #[trigger] nc.states[p + 1].transitions[x].contains(q)) == a.states[p].moves[x].contains(
        q - 1,
    ) by {
        let old_list = a.states[p].moves[x];
        let new_list = nc.states[p + 1].transitions[x];
        assert(new_list == moved_by(old_list, 1));
        if new_list.contains(q) {
            let i = choose|i: int| 0 <= i < new_list.len() && new_list[i] == q;
            assert(old_list[i] == q - 1);
            assert(old_list.contains(q - 1));
        }
        if old_list.contains(q - 1) {
            let i = choose|i: int| 0 <= i < old_list.len() && old_list[i] == q - 1;
            assert(new_list[i] == q);
        }
    }
}

/// The states that moves that read nothing reach in the whole: those that
/// they reach in the part, and, where they reach an accepting state of the
/// part or begin at the new state, the new state and what the initial
/// state of the part reaches.
pub proof fn lemma_star_closure(a: PartModel, alphabet: Seq<Seq<char>>, set: Set<int>, start: bool)
    requires
        part_wf(a, alphabet.len() as int),
        alphabet.no_duplicates(),
        inside(nfa_of_part(a, alphabet), set),
    ensures
        ({
            let na = nfa_of_part(a, alphabet);
            let again = start || na.accepting_set(na.closure(set));
            let from = set.union(
                if again {
                    set![a.initial]
                } else {
                    Set::empty()
                },
            );
            nfa_of_part(part_star(a, alphabet.len() as int), alphabet).closure(
                fresh(start).union(lifted(set, 1)),
            ) == fresh(again).union(lifted(na.closure(from), 1)) && inside(na, na.closure(from))
        }),
{
    let na = nfa_of_part(a, alphabet);
    let nc = nfa_of_part(part_star(a, alphabet.len() as int), alphabet);
    let ga = na.epsilon_graph();
    let gc = nc.epsilon_graph();
    let again = start || na.accepting_set(na.closure(set));
    let extra = if again {
        set![a.initial]
    } else {
        Set::<int>::empty()
    };
    let from = set.union(extra);
    let seeds = fresh(start).union(lifted(set, 1));
    let closed = na.closure(from);
    let want = fresh(again).union(lifted(closed, 1));
    lemma_star_edges(a, alphabet);
    lemma_part_nfa(a, alphabet);
    assert forall|q: int| closed.contains(q) implies 0 <= q < na.states.len() by {
        let p = choose|p: int| from.contains(p) && reaches(ga, p, q);
        crate::nfa::epsilon::lemma_reach_within(na, p, q);
    }
    assert forall|x: int, y: int| #[trigger] edge(ga, x, y) implies edge(gc, x + 1, y + 1) by {}
    assert(holds_closed(gc, seeds, want)) by {
        assert forall|p: int| seeds.contains(p) implies want.contains(p) by {
            if !fresh(start).contains(p) {
                lemma_reaches_self(ga, p - 1);
                assert(from.contains(p - 1));
                assert(closed.contains(p - 1));
            }
        }
        assert forall|p: int, q: int| want.contains(p) && #[trigger] edge(
            gc,
            p,
            q,
        ) implies want.contains(q) by {
            if fresh(again).contains(p) {
                lemma_reaches_self(ga, a.initial);
                assert(from.contains(a.initial));
                assert(closed.contains(q - 1));
            } else {
                let s = choose|s: int| from.contains(s) && reaches(ga, s, p - 1);
                assert(edge(gc, (p - 1) + 1, q));
                if edge(ga, p - 1, q - 1) {
                    lemma_reaches_more(ga, s, p - 1, q - 1);
                    assert(closed.contains(q - 1));
                } else {
                    if set.contains(s) {
                        assert(na.closure(set).contains(p - 1));
                        assert(na.accepting_set(na.closure(set)));
                    }
                    assert(again);
                }
            }
        }
    }
    lemma_closed_set(gc, seeds, want);
    assert forall|q: int| want.contains(q) implies nc.closure(seeds).contains(q) by {
        // The new state is reached where the walk begins at it or reaches
        // an accepting state of the part.
        if again {
            if start {
                lemma_reaches_self(gc, 0);
                assert(seeds.contains(0));
                assert(nc.closure(seeds).contains(0));
            } else {
                let p = choose|p: int|
                    0 <= p < na.states.len() && na.closure(set).contains(p)
                        && na.states[p].accepting;
                let s = choose|s: int| set.contains(s) && reaches(ga, s, p);
                lemma_lifted_reach(ga, gc, 1, s, p);
                assert(edge(gc, p + 1, 0));
                lemma_reaches_more(gc, s + 1, p + 1, 0);
                assert(seeds.contains(s + 1));
                assert(nc.closure(seeds).contains(0));
            }
        }
        if !fresh(again).contains(q) {
            let t = choose|t: int| from.contains(t) && reaches(ga, t, q - 1);
            lemma_lifted_reach(ga, gc, 1, t, q - 1);
            if set.contains(t) {
                assert(seeds.contains(t + 1));
            } else {
                let s = choose|s: int| seeds.contains(s) && reaches(gc, s, 0);
                assert(edge(gc, 0, a.initial + 1));
                lemma_reaches_more(gc, s, 0, a.initial + 1);
                lemma_reaches_transitive(gc, s, a.initial + 1, q);
            }
        }
    }
    assert(nc.closure(seeds) =~= want);
}

/// The states to which a symbol leads in the whole.
pub proof fn lemma_star_moved(a: PartModel, alphabet: Seq<Seq<char>>, set: Set<int>, start: bool, x: int)
    requires
        part_wf(a, alphabet.len() as int),
        alphabet.no_duplicates(),
        inside(nfa_of_part(a, alphabet), set),
        0 <= x < alphabet.len(),
    ensures
        nfa_of_part(part_star(a, alphabet.len() as int), alphabet).moved(
            fresh(start).union(lifted(set, 1)),
            x,
        ) == fresh(false).union(lifted(nfa_of_part(a, alphabet).moved(set, x), 1)),
        inside(nfa_of_part(a, alphabet), nfa_of_part(a, alphabet).moved(set, x)),
{
    let na = nfa_of_part(a, alphabet);
    let nc = nfa_of_part(part_star(a, alphabet.len() as int), alphabet);
    let seeds = fresh(start).union(lifted(set, 1));
    let want = fresh(false).union(lifted(na.moved(set, x), 1));
    lemma_star_edges(a, alphabet);
    lemma_part_nfa(a, alphabet);
    crate::nfa::epsilon::lemma_moved_within(na, set, x);
    assert forall|q: int| nc.moved(seeds, x).contains(q) implies want.contains(q) by {
        let p = choose|p: int|
            0 <= p < nc.states.len() && seeds.contains(p) && nc.states[p].transitions[x].contains(
                q,
            );
        if fresh(start).contains(p) {
            assert(!nc.states[0].transitions[x].contains(q));
        } else {
            assert(nc.states[(p - 1) + 1].transitions[x].contains(q));
            assert(na.states[p - 1].transitions[x].contains(q - 1));
            assert(na.moved(set, x).contains(q - 1));
        }
    }
    assert forall|q: int| want.contains(q) implies nc.moved(seeds, x).contains(q) by {
        let p = choose|p: int|
            0 <= p < na.states.len() && set.contains(p) && na.states[p].transitions[x].contains(
                q - 1,
            );
        assert(nc.states[p + 1].transitions[x].contains(q));
        assert(seeds.contains(p + 1));
    }
    assert(nc.moved(seeds, x) =~= want);
}

/// The states in which the whole can be after a word: the new state where
/// the word is made of accepted words, and the states in which the part
/// can be after an end of the word whose beginning is made of accepted
/// words.
pub proof fn lemma_star_run(a: PartModel, alphabet: Seq<Seq<char>>, word: Seq<int>)
    requires
        part_wf(a, alphabet.len() as int),
        alphabet.no_duplicates(),
        forall|i: int| 0 <= i < word.len() ==> 0 <= #[trigger] word[i] < alphabet.len(),
    ensures
        run_indices(
            nfa_of_part(part_star(a, alphabet.len() as int), alphabet),
            nfa_of_part(part_star(a, alphabet.len() as int), alphabet).start(),
            word,
        ) == fresh(star_at(nfa_of_part(a, alphabet), word)).union(
            lifted(after_stars(nfa_of_part(a, alphabet), word), 1),
        ),
    decreases word.len(),
{
    let na = nfa_of_part(a, alphabet);
    let nc = nfa_of_part(part_star(a, alphabet.len() as int), alphabet);
    let ga = na.epsilon_graph();
    let none = Set::<int>::empty();
    lemma_part_nfa(a, alphabet);
    lemma_star_edges(a, alphabet);
    let want = after_stars(na, word);
    if word.len() == 0 {
        lemma_star_closure(a, alphabet, none, true);
        assert(fresh(true).union(lifted(none, 1)) =~= set![nc.initial]);
        let from = none.union(set![a.initial]);
        assert(from =~= set![na.initial]);
        assert(word.take(0) =~= word);
        assert(word.skip(0) =~= word);
        assert(na.closure(from) =~= want) by {
            assert forall|q: int| na.start().contains(q) implies want.contains(q) by {
                assert(star_at(na, word.take(0)));
                assert(run_indices(na, na.start(), word.skip(0)).contains(q));
            }
            assert forall|q: int| want.contains(q) implies na.start().contains(q) by {
                let j = choose|j: int|
                    0 <= j <= word.len() && star_at(na, #[trigger] word.take(j)) && run_indices(
                        na,
                        na.start(),
                        word.skip(j),
                    ).contains(q);
                assert(j == 0);
            }
        }
    } else {
        let shorter = word.drop_last();
        let x = word.last();
        assert(word =~= shorter.push(x));
        lemma_star_run(a, alphabet, shorter);
        let before = after_stars(na, shorter);
        lemma_run_indices_more(nc, nc.start(), shorter, x);
        lemma_after_stars_inside(na, shorter);
        lemma_star_moved(a, alphabet, before, star_at(na, shorter), x);
        let moved = na.moved(before, x);
        lemma_star_closure(a, alphabet, moved, false);
        assert(fresh(false).union(lifted(moved, 1)) =~= fresh(false).union(lifted(moved, 1)));
        let again = na.accepting_set(na.closure(moved));
        // What the part reaches from the moved states is what it can be in
        // after a symbol more, for the splits of the shorter word.
        assert forall|q: int| na.closure(moved).contains(q) implies exists|j: int|
            0 <= j <= shorter.len() && star_at(na, #[trigger] word.take(j)) && run_indices(
                na,
                na.start(),
                word.skip(j),
            ).contains(q) by {
            let t = choose|t: int| moved.contains(t) && reaches(ga, t, q);
            let p = choose|p: int|
                0 <= p < na.states.len() && before.contains(p)
                    && na.states[p].transitions[x].contains(t);
            let j = choose|j: int|
                0 <= j <= shorter.len() && star_at(na, #[trigger] shorter.take(j)) && run_indices(
                    na,
                    na.start(),
                    shorter.skip(j),
                ).contains(p);
            let rest = shorter.skip(j);
            lemma_run_indices_more(na, na.start(), rest, x);
            assert(rest.push(x) =~= word.skip(j));
            assert(shorter.take(j) =~= word.take(j));
            assert(na.moved(run_indices(na, na.start(), rest), x).contains(t));
            assert(run_indices(na, na.start(), word.skip(j)).contains(q));
        }
        assert forall|j: int, q: int|
            0 <= j <= shorter.len() && star_at(na, word.take(j)) && #[trigger] run_indices(
                na,
                na.start(),
                word.skip(j),
            ).contains(q) implies na.closure(moved).contains(q) by {
            let rest = shorter.skip(j);
            lemma_run_indices_more(na, na.start(), rest, x);
            assert(rest.push(x) =~= word.skip(j));
            assert(shorter.take(j) =~= word.take(j));
            let reached = run_indices(na, na.start(), rest);
            let t = choose|t: int| na.moved(reached, x).contains(t) && reaches(ga, t, q);
            let p = choose|p: int|
                0 <= p < na.states.len() && reached.contains(p)
                    && na.states[p].transitions[x].contains(t);
            assert(before.contains(p));
            assert(moved.contains(t));
        }
        assert(again == star_at(na, word)) by {
            if again {
                let p = choose|p: int|
                    0 <= p < na.states.len() && na.closure(moved).contains(p)
                        && na.states[p].accepting;
                let j = choose|j: int|
                    0 <= j <= shorter.len() && star_at(na, #[trigger] word.take(j))
                        && run_indices(na, na.start(), word.skip(j)).contains(p);
                assert(accepts_at(na, word.skip(j)));
                lemma_star_append(na, word.take(j), word.skip(j));
                assert(word.take(j) + word.skip(j) =~= word);
            }
            if star_at(na, word) {
                let j = lemma_star_last(na, word);
                let reached = run_indices(na, na.start(), word.skip(j));
                let p = choose|p: int|
                    0 <= p < na.states.len() && reached.contains(p) && na.states[p].accepting;
                assert(na.closure(moved).contains(p));
            }
        }
        let extra = if again {
            set![a.initial]
        } else {
            Set::<int>::empty()
        };
        let from = moved.union(extra);
        assert(na.closure(from) =~= want) by {
            assert forall|q: int| na.closure(from).contains(q) implies want.contains(q) by {
                let t = choose|t: int| from.contains(t) && reaches(ga, t, q);
                if moved.contains(t) {
                    assert(na.closure(moved).contains(q));
                } else {
                    let j = word.len() as int;
                    assert(word.take(j) =~= word);
                    assert(word.skip(j) =~= Seq::<int>::empty());
                    assert(set![na.initial].contains(t));
                    assert(run_indices(na, na.start(), word.skip(j)).contains(q));
                }
            }
            assert forall|q: int| want.contains(q) implies na.closure(from).contains(q) by {
                let j = choose|j: int|
                    0 <= j <= word.len() && star_at(na, #[trigger] word.take(j)) && run_indices(
                        na,
                        na.start(),
                        word.skip(j),
                    ).contains(q);
                if j < word.len() {
                    assert(na.closure(moved).contains(q));
                    let t = choose|t: int| moved.contains(t) && reaches(ga, t, q);
                    assert(from.contains(t));
                } else {
                    assert(word.take(j) =~= word);
                    assert(word.skip(j) =~= Seq::<int>::empty());
                    let t = choose|t: int| set![na.initial].contains(t) && reaches(ga, t, q);
                    assert(from.contains(t));
                }
            }
        }
    }
}

/// The whole accepts exactly the words that are made of words that the
/// part accepts.
pub proof fn lemma_star_accepts(a: PartModel, alphabet: Seq<Seq<char>>, word: Seq<int>)
    requires
        part_wf(a, alphabet.len() as int),
        alphabet.no_duplicates(),
        forall|i: int| 0 <= i < word.len() ==> 0 <= #[trigger] word[i] < alphabet.len(),
    ensures
        accepts_at(nfa_of_part(part_star(a, alphabet.len() as int), alphabet), word) == star_at(
            nfa_of_part(a, alphabet),
            word,
        ),
{
    let na = nfa_of_part(a, alphabet);
    let nc = nfa_of_part(part_star(a, alphabet.len() as int), alphabet);
    lemma_part_nfa(a, alphabet);
    lemma_star_edges(a, alphabet);
    lemma_star_run(a, alphabet, word);
    lemma_after_stars_inside(na, word);
    let set = after_stars(na, word);
    let all = fresh(star_at(na, word)).union(lifted(set, 1));
    if nc.accepting_set(all) {
        let q = choose|q: int| 0 <= q < nc.states.len() && all.contains(q) && nc.states[q].accepting;
        if !fresh(star_at(na, word)).contains(q) {
            let j = choose|j: int|
                0 <= j <= word.len() && star_at(na, #[trigger] word.take(j)) && run_indices(
                    na,
                    na.start(),
                    word.skip(j),
                ).contains(q - 1);
            assert(na.states[q - 1].accepting);
            assert(accepts_at(na, word.skip(j)));
            if j < word.len() {
                lemma_star_append(na, word.take(j), word.skip(j));
                assert(word.take(j) + word.skip(j) =~= word);
            } else {
                assert(word.take(j) =~= word);
            }
        }
    }
    if star_at(na, word) {
        assert(all.contains(0));
        assert(nc.states[0].accepting);
    }
}

} // verus!
