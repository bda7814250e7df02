//! What the automaton of two parts, one after the other, accepts.

use vstd::prelude::*;
use crate::graph::{
    edge,
    is_path,
    reaches,
    lemma_reaches_self,
    lemma_reaches_more,
    lemma_reaches_transitive,
};
use crate::nfa::NfaModel;
use crate::nfa::blocks::{
    lifted,
    inside,
    holds_closed,
    lemma_closed_set,
    lemma_run_indices_more,
    lemma_run_inside,
    accepts_at,
};
use crate::nfa::words::{run_indices, is_index_word};
use crate::regex::thompson::{
    PartModel,
    part_wf,
    part_concat,
    nfa_of_part,
    moved_by,
    lemma_concat_wf,
};

verus! {

/// The automaton of a well-formed part is well formed.
pub proof fn lemma_part_nfa(p: PartModel, alphabet: Seq<Seq<char>>)
    requires
        part_wf(p, alphabet.len() as int),
        alphabet.no_duplicates(),
    ensures
        nfa_of_part(p, alphabet).wf(),
{
}

/// Edges that a second graph has between the places moved by `by` lead
/// there from place to place as they do in the first graph.
pub proof fn lemma_lifted_reach(g: Seq<Seq<int>>, h: Seq<Seq<int>>, by: int, p: int, q: int)
    requires
        forall|a: int, b: int| #[trigger] edge(g, a, b) ==> edge(h, a + by, b + by),
        reaches(g, p, q),
    ensures
        reaches(h, p + by, q + by),
{
    let path = choose|path: Seq<int>| is_path(g, path) && path[0] == p && path.last() == q;
    lemma_lifted_path(g, h, by, path);
}

/// A path of the first graph is a path of the second between the places
/// moved by `by`.
pub proof fn lemma_lifted_path(g: Seq<Seq<int>>, h: Seq<Seq<int>>, by: int, path: Seq<int>)
    requires
        forall|a: int, b: int| #[trigger] edge(g, a, b) ==> edge(h, a + by, b + by),
        is_path(g, path),
    ensures
        reaches(h, path[0] + by, path.last() + by),
    decreases path.len(),
{
    if path.len() > 1 {
        lemma_lifted_path(g, h, by, path.drop_last());
        assert(edge(g, path[path.len() - 2], path.last()));
        lemma_reaches_more(h, path[0] + by, path[path.len() - 2] + by, path.last() + by);
    } else {
        lemma_reaches_self(h, path[0] + by);
    }
}

/// The states of the second part in which the whole can be after `word`:
/// those in which the second part can be after an end of the word whose
/// beginning the first part accepts.
pub open spec fn after_split(a: NfaModel, b: NfaModel, word: Seq<int>) -> Set<int> {
    Set::new(
        |q: int|
            exists|j: int|
                0 <= j <= word.len() && accepts_at(a, #[trigger] word.take(j)) && run_indices(
                    b,
                    b.start(),
                    word.skip(j),
                ).contains(q),
    )
}

/// The initial state of the second part where the set holds an accepting
/// state, and nothing where it does not.
pub open spec fn bridge(a: NfaModel, set: Set<int>, target: int) -> Set<int> {
    if a.accepting_set(set) {
        set![target]
    } else {
        Set::empty()
    }
}

/// What the moves of the whole are, seen from its two parts.
pub proof fn lemma_concat_edges(a: PartModel, b: PartModel, alphabet: Seq<Seq<char>>)
    requires
        part_wf(a, alphabet.len() as int),
        part_wf(b, alphabet.len() as int),
        alphabet.no_duplicates(),
    ensures
        nfa_of_part(part_concat(a, b), alphabet).wf(),
        forall|p: int, q: int|
            0 <= p < a.states.len() ==> (#[trigger] edge(
                nfa_of_part(part_concat(a, b), alphabet).epsilon_graph(),
                p,
                q,
            )) == (edge(nfa_of_part(a, alphabet).epsilon_graph(), p, q) || (a.states[p].accepting
                && q == b.initial + a.states.len())),
        forall|p: int, q: int|
            0 <= p < b.states.len() ==> (#[trigger] edge(
                nfa_of_part(part_concat(a, b), alphabet).epsilon_graph(),
                p + a.states.len(),
                q,
            )) == edge(nfa_of_part(b, alphabet).epsilon_graph(), p, q - a.states.len()),
        forall|p: int, x: int, q: int|
            0 <= p < a.states.len() && 0 <= x < alphabet.len() ==> (#[trigger] nfa_of_part(
                part_concat(a, b),
                alphabet,
            ).states[p].transitions[x].contains(q)) == a.states[p].moves[x].contains(q),
        forall|p: int, x: int, q: int|
            0 <= p < b.states.len() && 0 <= x < alphabet.len() ==> (#[trigger] nfa_of_part(
                part_concat(a, b),
                alphabet,
            ).states[p + a.states.len()].transitions[x].contains(q)) == b.states[p].moves[x].contains(
                q - a.states.len(),
            ),
{
    let c = part_concat(a, b);
    let nc = nfa_of_part(c, alphabet);
    let na = nfa_of_part(a, alphabet);
    let nb = nfa_of_part(b, alphabet);
    let by = a.states.len() as int;
    lemma_concat_wf(a, b, alphabet.len() as int);
    lemma_part_nfa(c, alphabet);
    assert forall|p: int, q: int| 0 <= p < a.states.len() implies (#[trigger] edge(
        nc.epsilon_graph(),
        p,
        q,
    )) == (edge(na.epsilon_graph(), p, q) || (a.states[p].accepting && q == b.initial + by)) by {
        let old_list = a.states[p].silent;
        let new_list = c.states[p].silent;
        assert(nc.epsilon_graph()[p] == new_list);
        assert(na.epsilon_graph()[p] == old_list);
        if new_list.contains(q) {
            let i = choose|i: int| 0 <= i < new_list.len() && new_list[i] == q;
            if i < old_list.len() {
                assert(old_list[i] == q);
                assert(old_list.contains(q));
            }
        }
        if old_list.contains(q) {
            let i = choose|i: int| 0 <= i < old_list.len() && old_list[i] == q;
            assert(new_list[i] == q);
        }
        if a.states[p].accepting && q == b.initial + by {
            assert(new_list[old_list.len() as int] == q);
        }
    }
    assert forall|p: int, q: int| 0 <= p < b.states.len() implies (#[trigger] edge(
        nc.epsilon_graph(),
        p + by,
        q,
    )) == edge(nb.epsilon_graph(), p, q - by) by {
        let old_list = b.states[p].silent;
        let new_list = c.states[p + by].silent;
        assert(nc.epsilon_graph()[p + by] == new_list);
        assert(nb.epsilon_graph()[p] == old_list);
        assert(new_list == moved_by(old_list, by));
        if new_list.contains(q) {
            let i = choose|i: int| 0 <= i < new_list.len() && new_list[i] == q;
            assert(old_list[i] == q - by);
            assert(old_list.contains(q - by));
        }
        if old_list.contains(q - by) {
            let i = choose|i: int| 0 <= i < old_list.len() && old_list[i] == q - by;
            assert(new_list[i] == q);
        }
    }
    assert forall|p: int, x: int, q: int|
        0 <= p < b.states.len() && 0 <= x < alphabet.len() implies (
    #[trigger] nc.states[p + by].transitions[x].contains(q)) == b.states[p].moves[x].contains(
        q - by,
    ) by {
        let old_list = b.states[p].moves[x];
        let new_list = nc.states[p + by].transitions[x];
        assert(new_list == moved_by(old_list, by));
        if new_list.contains(q) {
            let i = choose|i: int| 0 <= i < new_list.len() && new_list[i] == q;
            assert(old_list[i] == q - by);
            assert(old_list.contains(q - by));
        }
        if old_list.contains(q - by) {
            let i = choose|i: int| 0 <= i < old_list.len() && old_list[i] == q - by;
            assert(new_list[i] == q);
        }
    }
}

/// The states that moves that read nothing reach in the whole: those that
/// they reach in the first part, and those that they reach in the second
/// part, also from its initial state where they reach an accepting state
/// of the first part.
pub proof fn lemma_concat_closure(
    a: PartModel,
    b: PartModel,
    alphabet: Seq<Seq<char>>,
    first: Set<int>,
    second: Set<int>,
)
    requires
        part_wf(a, alphabet.len() as int),
        part_wf(b, alphabet.len() as int),
        alphabet.no_duplicates(),
        inside(nfa_of_part(a, alphabet), first),
        inside(nfa_of_part(b, alphabet), second),
    ensures
        nfa_of_part(part_concat(a, b), alphabet).closure(
            first.union(lifted(second, a.states.len() as int)),
        ) == nfa_of_part(a, alphabet).closure(first).union(
            lifted(
                nfa_of_part(b, alphabet).closure(
                    second.union(
                        bridge(
                            nfa_of_part(a, alphabet),
                            nfa_of_part(a, alphabet).closure(first),
                            b.initial,
                        ),
                    ),
                ),
                a.states.len() as int,
            ),
        ),
        inside(nfa_of_part(a, alphabet), nfa_of_part(a, alphabet).closure(first)),
        inside(
            nfa_of_part(b, alphabet),
            nfa_of_part(b, alphabet).closure(
                second.union(
                    bridge(
                        nfa_of_part(a, alphabet),
                        nfa_of_part(a, alphabet).closure(first),
                        b.initial,
                    ),
                ),
            ),
        ),
{
    let na = nfa_of_part(a, alphabet);
    let nb = nfa_of_part(b, alphabet);
    let nc = nfa_of_part(part_concat(a, b), alphabet);
    let by = a.states.len() as int;
    let ga = na.epsilon_graph();
    let gb = nb.epsilon_graph();
    let gc = nc.epsilon_graph();
    let seeds = first.union(lifted(second, by));
    let closed_a = na.closure(first);
    let more = second.union(bridge(na, closed_a, b.initial));
    let closed_b = nb.closure(more);
    let want = closed_a.union(lifted(closed_b, by));
    lemma_concat_edges(a, b, alphabet);
    lemma_part_nfa(a, alphabet);
    lemma_part_nfa(b, alphabet);
    assert forall|q: int| closed_a.contains(q) implies 0 <= q < na.states.len() by {
        let p = choose|p: int| first.contains(p) && reaches(ga, p, q);
        crate::nfa::epsilon::lemma_reach_within(na, p, q);
    }
    assert forall|q: int| closed_b.contains(q) implies 0 <= q < nb.states.len() by {
        let p = choose|p: int| more.contains(p) && reaches(gb, p, q);
        crate::nfa::epsilon::lemma_reach_within(nb, p, q);
    }
    assert(holds_closed(gc, seeds, want)) by {
        assert forall|p: int| seeds.contains(p) implies want.contains(p) by {
            if first.contains(p) {
                lemma_reaches_self(ga, p);
            } else {
                lemma_reaches_self(gb, p - by);
                assert(more.contains(p - by));
                assert(closed_b.contains(p - by));
            }
        }
        assert forall|p: int, q: int| want.contains(p) && #[trigger] edge(
            gc,
            p,
            q,
        ) implies want.contains(q) by {
            if closed_a.contains(p) {
                let s = choose|s: int| first.contains(s) && reaches(ga, s, p);
                if edge(ga, p, q) {
                    lemma_reaches_more(ga, s, p, q);
                } else {
                    assert(na.accepting_set(closed_a));
                    assert(more.contains(b.initial));
                    lemma_reaches_self(gb, b.initial);
                    assert(closed_b.contains(q - by));
                }
            } else {
                let s = choose|s: int| more.contains(s) && reaches(gb, s, p - by);
                assert(edge(gc, (p - by) + by, q));
                lemma_reaches_more(gb, s, p - by, q - by);
            }
        }
    }
    lemma_closed_set(gc, seeds, want);
    assert forall|q: int| want.contains(q) implies nc.closure(seeds).contains(q) by {
        if closed_a.contains(q) {
            let s = choose|s: int| first.contains(s) && reaches(ga, s, q);
            lemma_lifted_reach(ga, gc, 0, s, q);
            assert(seeds.contains(s));
        } else {
            let t = choose|t: int| more.contains(t) && reaches(gb, t, q - by);
            assert(0 <= t < nb.states.len()) by {
                crate::nfa::epsilon::lemma_reach_within(nb, t, q - by);
            }
            assert forall|x: int, y: int| #[trigger] edge(gb, x, y) implies edge(
                gc,
                x + by,
                y + by,
            ) by {}
            lemma_lifted_reach(gb, gc, by, t, q - by);
            if second.contains(t) {
                assert(seeds.contains(t + by));
            } else {
                let p = choose|p: int|
                    0 <= p < na.states.len() && closed_a.contains(p) && na.states[p].accepting;
                let s = choose|s: int| first.contains(s) && reaches(ga, s, p);
                lemma_lifted_reach(ga, gc, 0, s, p);
                assert(edge(gc, p, b.initial + by));
                lemma_reaches_more(gc, s, p, b.initial + by);
                lemma_reaches_transitive(gc, s, b.initial + by, q);
                assert(seeds.contains(s));
            }
        }
    }
    assert(nc.closure(seeds) =~= want);
}

/// The states to which a symbol leads in the whole: those to which it
/// leads in the first part and those to which it leads in the second.
pub proof fn lemma_concat_moved(
    a: PartModel,
    b: PartModel,
    alphabet: Seq<Seq<char>>,
    first: Set<int>,
    second: Set<int>,
    x: int,
)
    requires
        part_wf(a, alphabet.len() as int),
        part_wf(b, alphabet.len() as int),
        alphabet.no_duplicates(),
        inside(nfa_of_part(a, alphabet), first),
        inside(nfa_of_part(b, alphabet), second),
        0 <= x < alphabet.len(),
    ensures
        nfa_of_part(part_concat(a, b), alphabet).moved(
            first.union(lifted(second, a.states.len() as int)),
            x,
        ) == nfa_of_part(a, alphabet).moved(first, x).union(
            lifted(nfa_of_part(b, alphabet).moved(second, x), a.states.len() as int),
        ),
        inside(nfa_of_part(a, alphabet), nfa_of_part(a, alphabet).moved(first, x)),
        inside(nfa_of_part(b, alphabet), nfa_of_part(b, alphabet).moved(second, x)),
{
    let na = nfa_of_part(a, alphabet);
    let nb = nfa_of_part(b, alphabet);
    let nc = nfa_of_part(part_concat(a, b), alphabet);
    let by = a.states.len() as int;
    let seeds = first.union(lifted(second, by));
    let want = na.moved(first, x).union(lifted(nb.moved(second, x), by));
    lemma_concat_edges(a, b, alphabet);
    lemma_part_nfa(a, alphabet);
    lemma_part_nfa(b, alphabet);
    crate::nfa::epsilon::lemma_moved_within(na, first, x);
    crate::nfa::epsilon::lemma_moved_within(nb, second, x);
    assert forall|q: int| nc.moved(seeds, x).contains(q) implies want.contains(q) by {
        let p = choose|p: int|
            0 <= p < nc.states.len() && seeds.contains(p) && nc.states[p].transitions[x].contains(
                q,
            );
        if first.contains(p) {
            assert(a.states[p].moves[x].contains(q));
            assert(na.states[p].transitions[x].contains(q));
        } else {
            assert(nc.states[(p - by) + by].transitions[x].contains(q));
            assert(nb.states[p - by].transitions[x].contains(q - by));
            assert(nb.moved(second, x).contains(q - by));
        }
    }
    assert forall|q: int| want.contains(q) implies nc.moved(seeds, x).contains(q) by {
        if na.moved(first, x).contains(q) {
            let p = choose|p: int|
                0 <= p < na.states.len() && first.contains(p)
                    && na.states[p].transitions[x].contains(q);
            assert(nc.states[p].transitions[x].contains(q));
            assert(seeds.contains(p));
        } else {
            let p = choose|p: int|
                0 <= p < nb.states.len() && second.contains(p)
                    && nb.states[p].transitions[x].contains(q - by);
            assert(nc.states[p + by].transitions[x].contains(q));
            assert(seeds.contains(p + by));
        }
    }
    assert(nc.moved(seeds, x) =~= want);
}

/// The states in which the second part can be after a split are states of
/// the second part.
pub proof fn lemma_after_split_inside(a: NfaModel, b: NfaModel, word: Seq<int>)
    requires
        b.wf(),
        is_index_word(b, word),
    ensures
        inside(b, after_split(a, b, word)),
{
    assert forall|q: int| after_split(a, b, word).contains(q) implies 0 <= q < b.states.len() by {
        let j = choose|j: int|
            0 <= j <= word.len() && accepts_at(a, #[trigger] word.take(j)) && run_indices(
                b,
                b.start(),
                word.skip(j),
            ).contains(q);
        assert forall|i: int| 0 <= i < word.skip(j).len() implies 0 <= #[trigger] word.skip(j)[i]
            < b.alphabet.len() by {
            assert(word.skip(j)[i] == word[i + j]);
        }
        lemma_run_inside(b, word.skip(j));
    }
}

/// The states in which the whole can be after a word: those in which the
/// first part can be after it, and those in which the second part can be
/// after an end of the word whose beginning the first part accepts.
pub proof fn lemma_concat_run(a: PartModel, b: PartModel, alphabet: Seq<Seq<char>>, word: Seq<int>)
    requires
        part_wf(a, alphabet.len() as int),
        part_wf(b, alphabet.len() as int),
        alphabet.no_duplicates(),
        forall|i: int| 0 <= i < word.len() ==> 0 <= #[trigger] word[i] < alphabet.len(),
    ensures
        run_indices(
            nfa_of_part(part_concat(a, b), alphabet),
            nfa_of_part(part_concat(a, b), alphabet).start(),
            word,
        ) == run_indices(nfa_of_part(a, alphabet), nfa_of_part(a, alphabet).start(), word).union(
            lifted(
                after_split(nfa_of_part(a, alphabet), nfa_of_part(b, alphabet), word),
                a.states.len() as int,
            ),
        ),
    decreases word.len(),
{
    let na = nfa_of_part(a, alphabet);
    let nb = nfa_of_part(b, alphabet);
    let nc = nfa_of_part(part_concat(a, b), alphabet);
    let by = a.states.len() as int;
    let gb = nb.epsilon_graph();
    let none = Set::<int>::empty();
    lemma_part_nfa(a, alphabet);
    lemma_part_nfa(b, alphabet);
    lemma_concat_edges(a, b, alphabet);
    let first = run_indices(na, na.start(), word);
    let second = after_split(na, nb, word);
    if word.len() == 0 {
        let seed = set![a.initial];
        lemma_concat_closure(a, b, alphabet, seed, none);
        assert(seed.union(lifted(none, by)) =~= set![nc.initial]);
        let from = none.union(bridge(na, na.closure(seed), b.initial));
        assert(nb.closure(from) =~= second) by {
            assert(word.take(0) =~= word);
            assert(word.skip(0) =~= word);
            assert forall|q: int| nb.closure(from).contains(q) implies second.contains(q) by {
                let t = choose|t: int| from.contains(t) && reaches(gb, t, q);
                assert(accepts_at(na, word.take(0)));
                assert(set![b.initial].contains(t));
                assert(run_indices(nb, nb.start(), word.skip(0)).contains(q));
            }
            assert forall|q: int| second.contains(q) implies nb.closure(from).contains(q) by {
                let j = choose|j: int|
                    0 <= j <= word.len() && accepts_at(na, #[trigger] word.take(j))
                        && run_indices(nb, nb.start(), word.skip(j)).contains(q);
                assert(j == 0);
                let t = choose|t: int| set![nb.initial].contains(t) && reaches(gb, t, q);
                assert(from.contains(t));
            }
        }
    } else {
        let shorter = word.drop_last();
        let x = word.last();
        assert(word =~= shorter.push(x));
        lemma_concat_run(a, b, alphabet, shorter);
        let before_a = run_indices(na, na.start(), shorter);
        let before_b = after_split(na, nb, shorter);
        lemma_run_indices_more(nc, nc.start(), shorter, x);
        lemma_run_indices_more(na, na.start(), shorter, x);
        lemma_run_inside(na, shorter);
        lemma_after_split_inside(na, nb, shorter);
        lemma_concat_moved(a, b, alphabet, before_a, before_b, x);
        let moved_a = na.moved(before_a, x);
        let moved_b = nb.moved(before_b, x);
        lemma_concat_closure(a, b, alphabet, moved_a, moved_b);
        assert(na.closure(moved_a) == first);
        let from = moved_b.union(bridge(na, first, b.initial));
        assert(nb.closure(from) =~= second) by {
            assert forall|q: int| nb.closure(from).contains(q) implies second.contains(q) by {
                let t = choose|t: int| from.contains(t) && reaches(gb, t, q);
                if moved_b.contains(t) {
                    let p = choose|p: int|
                        0 <= p < nb.states.len() && before_b.contains(p)
                            && nb.states[p].transitions[x].contains(t);
                    let j = choose|j: int|
                        0 <= j <= shorter.len() && accepts_at(na, #[trigger] shorter.take(j))
                            && run_indices(nb, nb.start(), shorter.skip(j)).contains(p);
                    let rest = shorter.skip(j);
                    lemma_run_indices_more(nb, nb.start(), rest, x);
                    assert(rest.push(x) =~= word.skip(j));
                    assert(shorter.take(j) =~= word.take(j));
                    assert(nb.moved(run_indices(nb, nb.start(), rest), x).contains(t));
                    assert(run_indices(nb, nb.start(), word.skip(j)).contains(q));
                } else {
                    let j = word.len() as int;
                    assert(word.take(j) =~= word);
                    assert(word.skip(j) =~= Seq::<int>::empty());
                    assert(accepts_at(na, word.take(j)));
                    assert(set![b.initial].contains(t));
                    assert(run_indices(nb, nb.start(), word.skip(j)).contains(q));
                }
            }
            assert forall|q: int| second.contains(q) implies nb.closure(from).contains(q) by {
                let j = choose|j: int|
                    0 <= j <= word.len() && accepts_at(na, #[trigger] word.take(j))
                        && run_indices(nb, nb.start(), word.skip(j)).contains(q);
                if j < word.len() {
                    let rest = shorter.skip(j);
                    lemma_run_indices_more(nb, nb.start(), rest, x);
                    assert(rest.push(x) =~= word.skip(j));
                    assert(shorter.take(j) =~= word.take(j));
                    let reached = run_indices(nb, nb.start(), rest);
                    let t = choose|t: int| nb.moved(reached, x).contains(t) && reaches(gb, t, q);
                    let p = choose|p: int|
                        0 <= p < nb.states.len() && reached.contains(p)
                            && nb.states[p].transitions[x].contains(t);
                    assert(before_b.contains(p));
                    assert(moved_b.contains(t));
                    assert(from.contains(t));
                } else {
                    assert(word.take(j) =~= word);
                    assert(word.skip(j) =~= Seq::<int>::empty());
                    assert(na.accepting_set(first));
                    let t = choose|t: int| set![nb.initial].contains(t) && reaches(gb, t, q);
                    assert(from.contains(t));
                }
            }
        }
    }
}

/// The whole accepts a word exactly where the first part accepts a
/// beginning of the word and the second part the rest.
pub proof fn lemma_concat_accepts(a: PartModel, b: PartModel, alphabet: Seq<Seq<char>>, word: Seq<int>)
    requires
        part_wf(a, alphabet.len() as int),
        part_wf(b, alphabet.len() as int),
        alphabet.no_duplicates(),
        forall|i: int| 0 <= i < word.len() ==> 0 <= #[trigger] word[i] < alphabet.len(),
    ensures
        accepts_at(nfa_of_part(part_concat(a, b), alphabet), word) <==> exists|j: int|
            0 <= j <= word.len() && accepts_at(nfa_of_part(a, alphabet), #[trigger] word.take(j))
                && accepts_at(nfa_of_part(b, alphabet), word.skip(j)),
{
    let na = nfa_of_part(a, alphabet);
    let nb = nfa_of_part(b, alphabet);
    let nc = nfa_of_part(part_concat(a, b), alphabet);
    let by = a.states.len() as int;
    lemma_part_nfa(a, alphabet);
    lemma_part_nfa(b, alphabet);
    lemma_concat_edges(a, b, alphabet);
    lemma_concat_run(a, b, alphabet, word);
    lemma_run_inside(na, word);
    lemma_after_split_inside(na, nb, word);
    let first = run_indices(na, na.start(), word);
    let second = after_split(na, nb, word);
    let all = first.union(lifted(second, by));
    if nc.accepting_set(all) {
        let q = choose|q: int| 0 <= q < nc.states.len() && all.contains(q) && nc.states[q].accepting;
        assert(!first.contains(q));
        let j = choose|j: int|
            0 <= j <= word.len() && accepts_at(na, #[trigger] word.take(j)) && run_indices(
                nb,
                nb.start(),
                word.skip(j),
            ).contains(q - by);
        assert(nb.states[q - by].accepting);
        assert(accepts_at(nb, word.skip(j)));
    }
    if exists|j: int|
        0 <= j <= word.len() && accepts_at(na, #[trigger] word.take(j)) && accepts_at(
            nb,
            word.skip(j),
        ) {
        let j = choose|j: int|
            0 <= j <= word.len() && accepts_at(na, #[trigger] word.take(j)) && accepts_at(
                nb,
                word.skip(j),
            );
        let reached = run_indices(nb, nb.start(), word.skip(j));
        let q = choose|q: int| 0 <= q < nb.states.len() && reached.contains(q) && nb.states[q].accepting;
        assert(second.contains(q));
        assert(all.contains(q + by));
        assert(nc.states[q + by].accepting);
    }
}

} // verus!
