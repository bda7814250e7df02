//! What the automaton of one of two parts accepts.

use vstd::prelude::*;
use crate::graph::{
    edge,
    reaches,
    lemma_reaches_self,
    lemma_reaches_more,
    lemma_reaches_transitive,
};
use crate::nfa::blocks::{
    lifted,
    inside,
    holds_closed,
    lemma_closed_set,
    lemma_run_indices_more,
    lemma_run_inside,
    accepts_at,
};
use crate::nfa::words::run_indices;
use crate::regex::thompson::{PartModel, part_wf, part_alt, nfa_of_part, moved_by, lemma_alt_wf};
use crate::regex::concat::{lemma_part_nfa, lemma_lifted_reach};

verus! {

/// What the moves of the whole are, seen from its two parts.
pub proof fn lemma_alt_edges(a: PartModel, b: PartModel, alphabet: Seq<Seq<char>>)
    requires
        part_wf(a, alphabet.len() as int),
        part_wf(b, alphabet.len() as int),
        alphabet.no_duplicates(),
    ensures
        nfa_of_part(part_alt(a, b, alphabet.len() as int), alphabet).wf(),
        forall|q: int|
            (#[trigger] edge(
                nfa_of_part(part_alt(a, b, alphabet.len() as int), alphabet).epsilon_graph(),
                0,
                q,
            )) == (q == a.initial + 1 || q == b.initial + 1 + a.states.len()),
        forall|p: int, q: int|
            0 <= p < a.states.len() ==> (#[trigger] edge(
                nfa_of_part(part_alt(a, b, alphabet.len() as int), alphabet).epsilon_graph(),
                p + 1,
                q,
            )) == edge(nfa_of_part(a, alphabet).epsilon_graph(), p, q - 1),
        forall|p: int, q: int|
            0 <= p < b.states.len() ==> (#[trigger] edge(
                nfa_of_part(part_alt(a, b, alphabet.len() as int), alphabet).epsilon_graph(),
                p + 1 + a.states.len(),
                q,
            )) == edge(nfa_of_part(b, alphabet).epsilon_graph(), p, q - 1 - a.states.len()),
        forall|x: int, q: int|
            0 <= x < alphabet.len() ==> !(#[trigger] nfa_of_part(
                part_alt(a, b, alphabet.len() as int),
                alphabet,
            ).states[0].transitions[x].contains(q)),
        forall|p: int, x: int, q: int|
            0 <= p < a.states.len() && 0 <= x < alphabet.len() ==> (#[trigger] nfa_of_part(
                part_alt(a, b, alphabet.len() as int),
                alphabet,
            ).states[p + 1].transitions[x].contains(q)) == a.states[p].moves[x].contains(q - 1),
        forall|p: int, x: int, q: int|
            0 <= p < b.states.len() && 0 <= x < alphabet.len() ==> (#[trigger] nfa_of_part(
                part_alt(a, b, alphabet.len() as int),
                alphabet,
            ).states[p + 1 + a.states.len()].transitions[x].contains(q))
                == b.states[p].moves[x].contains(q - 1 - a.states.len()),
{
    let c = part_alt(a, b, alphabet.len() as int);
    let nc = nfa_of_part(c, alphabet);
    let na = nfa_of_part(a, alphabet);
    let nb = nfa_of_part(b, alphabet);
    let by = 1 + a.states.len() as int;
    lemma_alt_wf(a, b, alphabet.len() as int);
    lemma_part_nfa(c, alphabet);
    assert forall|q: int| (#[trigger] edge(nc.epsilon_graph(), 0, q)) == (q == a.initial + 1 || q
        == b.initial + by) by {
        let list = c.states[0].silent;
        assert(nc.epsilon_graph()[0] == list);
        assert(list == seq![a.initial + 1, b.initial + by]);
        if list.contains(q) {
            let i = choose|i: int| 0 <= i < list.len() && list[i] == q;
        }
        assert(list[0] == a.initial + 1);
        assert(list[1] == b.initial + by);
    }
    assert forall|p: int, q: int| 0 <= p < a.states.len() implies (#[trigger] edge(
        nc.epsilon_graph(),
        p + 1,
        q,
    )) == edge(na.epsilon_graph(), p, q - 1) by {
        let old_list = a.states[p].silent;
        let new_list = c.states[p + 1].silent;
        assert(nc.epsilon_graph()[p + 1] == new_list);
        assert(na.epsilon_graph()[p] == old_list);
        assert(new_list == moved_by(old_list, 1));
        if new_list.contains(q) {
            let i = choose|i: int| 0 <= i < new_list.len() && new_list[i] == q;
            assert(old_list[i] == q - 1);
            assert(old_list.contains(q - 1));
        }
        if old_list.contains(q - 1) {
            let i = choose|i: int| 0 <= i < old_list.len() && old_list[i] == q - 1;
            assert(new_list[i] == q);
        }
    }
    assert forall|p: int, q: int| 0 <= p < b.states.len() implies (#[trigger] edge(
        nc.epsilon_graph(),
        p + 1 + a.states.len(),
        q,
    )) == edge(nb.epsilon_graph(), p, q - 1 - a.states.len()) by {
        let old_list = b.states[p].silent;
        let new_list = c.states[p + by].silent;
        assert(nc.epsilon_graph()[p + by] == new_list);
        assert(nb.epsilon_graph()[p] == old_list);
        assert(new_list == moved_by(old_list, by));
        if new_list.contains(q) {
            let i = choose|i: int| 0 <= i < new_list.len() && new_list[i] == q;
            assert(old_list[i] == q - by);
            assert(old_list.contains(q - by));
        }
        if old_list.contains(q - by) {
            let i = choose|i: int| 0 <= i < old_list.len() && old_list[i] == q - by;
            assert(new_list[i] == q);
        }
    }
    assert forall|x: int, q: int| 0 <= x < alphabet.len() implies !(
    #[trigger] nc.states[0].transitions[x].contains(q)) by {
        assert(nc.states[0].transitions[x].len() == 0);
    }
    assert forall|p: int, x: int, q: int|
        0 <= p < a.states.len() && 0 <= x < alphabet.len() implies (
    #[trigger] nc.states[p + 1].transitions[x].contains(q)) == a.states[p].moves[x].contains(
        q - 1,
    ) by {
        let old_list = a.states[p].moves[x];
        let new_list = nc.states[p + 1].transitions[x];
        assert(new_list == moved_by(old_list, 1));
        if new_list.contains(q) {
            let i = choose|i: int| 0 <= i < new_list.len() && new_list[i] == q;
            assert(old_list[i] == q - 1);
            assert(old_list.contains(q - 1));
        }
        if old_list.contains(q - 1) {
            let i = choose|i: int| 0 <= i < old_list.len() && old_list[i] == q - 1;
            assert(new_list[i] == q);
        }
    }
    assert forall|p: int, x: int, q: int|
        0 <= p < b.states.len() && 0 <= x < alphabet.len() implies (
    #[trigger] nc.states[p + 1 + a.states.len()].transitions[x].contains(q))
        == b.states[p].moves[x].contains(q - 1 - a.states.len()) by {
        let old_list = b.states[p].moves[x];
        let new_list = nc.states[p + by].transitions[x];
        assert(new_list == moved_by(old_list, by));
        if new_list.contains(q) {
            let i = choose|i: int| 0 <= i < new_list.len() && new_list[i] == q;
            assert(old_list[i] == q - by);
            assert(old_list.contains(q - by));
        }
        if old_list.contains(q - by) {
            let i = choose|i: int| 0 <= i < old_list.len() && old_list[i] == q - by;
            assert(new_list[i] == q);
        }
    }
}

/// The new initial state where `first` holds, and nothing where it does
/// not.
pub open spec fn fresh(first: bool) -> Set<int> {
    if first {
        set![0int]
    } else {
        Set::empty()
    }
}

/// The states that moves that read nothing reach in the whole from states
/// of the two parts, and from the new initial state.
pub proof fn lemma_alt_closure(
    a: PartModel,
    b: PartModel,
    alphabet: Seq<Seq<char>>,
    first: Set<int>,
    second: Set<int>,
    start: bool,
)
    requires
        part_wf(a, alphabet.len() as int),
        part_wf(b, alphabet.len() as int),
        alphabet.no_duplicates(),
        inside(nfa_of_part(a, alphabet), first),
        inside(nfa_of_part(b, alphabet), second),
        start ==> first.contains(a.initial) && second.contains(b.initial),
    ensures
        nfa_of_part(part_alt(a, b, alphabet.len() as int), alphabet).closure(
            fresh(start).union(lifted(first, 1)).union(lifted(second, 1 + a.states.len() as int)),
        ) == fresh(start).union(lifted(nfa_of_part(a, alphabet).closure(first), 1)).union(
            lifted(nfa_of_part(b, alphabet).closure(second), 1 + a.states.len() as int),
        ),
        inside(nfa_of_part(a, alphabet), nfa_of_part(a, alphabet).closure(first)),
        inside(nfa_of_part(b, alphabet), nfa_of_part(b, alphabet).closure(second)),
{
    let na = nfa_of_part(a, alphabet);
    let nb = nfa_of_part(b, alphabet);
    let nc = nfa_of_part(part_alt(a, b, alphabet.len() as int), alphabet);
    let by = 1 + a.states.len() as int;
    let ga = na.epsilon_graph();
    let gb = nb.epsilon_graph();
    let gc = nc.epsilon_graph();
    let seeds = fresh(start).union(lifted(first, 1)).union(lifted(second, by));
    let closed_a = na.closure(first);
    let closed_b = nb.closure(second);
    let want = fresh(start).union(lifted(closed_a, 1)).union(lifted(closed_b, by));
    lemma_alt_edges(a, b, alphabet);
    lemma_part_nfa(a, alphabet);
    lemma_part_nfa(b, alphabet);
    assert forall|q: int| closed_a.contains(q) implies 0 <= q < na.states.len() by {
        let p = choose|p: int| first.contains(p) && reaches(ga, p, q);
        crate::nfa::epsilon::lemma_reach_within(na, p, q);
    }
    assert forall|q: int| closed_b.contains(q) implies 0 <= q < nb.states.len() by {
        let p = choose|p: int| second.contains(p) && reaches(gb, p, q);
        crate::nfa::epsilon::lemma_reach_within(nb, p, q);
    }
    assert(holds_closed(gc, seeds, want)) by {
        assert forall|p: int| seeds.contains(p) implies want.contains(p) by {
            if fresh(start).contains(p) {
            } else if lifted(first, 1).contains(p) {
                lemma_reaches_self(ga, p - 1);
                assert(closed_a.contains(p - 1));
            } else {
                lemma_reaches_self(gb, p - by);
                assert(closed_b.contains(p - by));
            }
        }
        assert forall|p: int, q: int| want.contains(p) && #[trigger] edge(
            gc,
            p,
            q,
        ) implies want.contains(q) by {
            if fresh(start).contains(p) {
                lemma_reaches_self(ga, a.initial);
                lemma_reaches_self(gb, b.initial);
                if q == a.initial + 1 {
                    assert(closed_a.contains(q - 1));
                } else {
                    assert(closed_b.contains(q - by));
                }
            } else if lifted(closed_a, 1).contains(p) {
                let s = choose|s: int| first.contains(s) && reaches(ga, s, p - 1);
                assert(edge(gc, (p - 1) + 1, q));
                lemma_reaches_more(ga, s, p - 1, q - 1);
                assert(closed_a.contains(q - 1));
            } else {
                let s = choose|s: int| second.contains(s) && reaches(gb, s, p - by);
                assert(edge(gc, (p - by) + 1 + a.states.len(), q));
                lemma_reaches_more(gb, s, p - by, q - by);
                assert(closed_b.contains(q - by));
            }
        }
    }
    lemma_closed_set(gc, seeds, want);
    assert forall|q: int| want.contains(q) implies nc.closure(seeds).contains(q) by {
        if fresh(start).contains(q) {
            lemma_reaches_self(gc, q);
            assert(seeds.contains(q));
        } else if lifted(closed_a, 1).contains(q) {
            let s = choose|s: int| first.contains(s) && reaches(ga, s, q - 1);
            assert forall|x: int, y: int| #[trigger] edge(ga, x, y) implies edge(
                gc,
                x + 1,
                y + 1,
            ) by {}
            lemma_lifted_reach(ga, gc, 1, s, q - 1);
            assert(seeds.contains(s + 1));
        } else {
            let s = choose|s: int| second.contains(s) && reaches(gb, s, q - by);
            assert forall|x: int, y: int| #[trigger] edge(gb, x, y) implies edge(
                gc,
                x + by,
                y + by,
            ) by {
                assert(edge(gc, x + 1 + a.states.len(), y + by));
            }
            lemma_lifted_reach(gb, gc, by, s, q - by);
            assert(seeds.contains(s + by));
        }
    }
    assert(nc.closure(seeds) =~= want);
}

/// The states to which a symbol leads in the whole.
pub proof fn lemma_alt_moved(
    a: PartModel,
    b: PartModel,
    alphabet: Seq<Seq<char>>,
    first: Set<int>,
    second: Set<int>,
    start: bool,
    x: int,
)
    requires
        part_wf(a, alphabet.len() as int),
        part_wf(b, alphabet.len() as int),
        alphabet.no_duplicates(),
        inside(nfa_of_part(a, alphabet), first),
        inside(nfa_of_part(b, alphabet), second),
        0 <= x < alphabet.len(),
    ensures
        nfa_of_part(part_alt(a, b, alphabet.len() as int), alphabet).moved(
            fresh(start).union(lifted(first, 1)).union(lifted(second, 1 + a.states.len() as int)),
            x,
        ) == fresh(false).union(lifted(nfa_of_part(a, alphabet).moved(first, x), 1)).union(
            lifted(nfa_of_part(b, alphabet).moved(second, x), 1 + a.states.len() as int),
        ),
        inside(nfa_of_part(a, alphabet), nfa_of_part(a, alphabet).moved(first, x)),
        inside(nfa_of_part(b, alphabet), nfa_of_part(b, alphabet).moved(second, x)),
{
    let na = nfa_of_part(a, alphabet);
    let nb = nfa_of_part(b, alphabet);
    let nc = nfa_of_part(part_alt(a, b, alphabet.len() as int), alphabet);
    let by = 1 + a.states.len() as int;
    let seeds = fresh(start).union(lifted(first, 1)).union(lifted(second, by));
    let want = fresh(false).union(lifted(na.moved(first, x), 1)).union(
        lifted(nb.moved(second, x), by),
    );
    lemma_alt_edges(a, b, alphabet);
    lemma_part_nfa(a, alphabet);
    lemma_part_nfa(b, alphabet);
    crate::nfa::epsilon::lemma_moved_within(na, first, x);
    crate::nfa::epsilon::lemma_moved_within(nb, second, x);
    assert forall|q: int| nc.moved(seeds, x).contains(q) implies want.contains(q) by {
        let p = choose|p: int|
            0 <= p < nc.states.len() && seeds.contains(p) && nc.states[p].transitions[x].contains(
                q,
            );
        if fresh(start).contains(p) {
            assert(!nc.states[0].transitions[x].contains(q));
        } else if lifted(first, 1).contains(p) {
            assert(nc.states[(p - 1) + 1].transitions[x].contains(q));
            assert(na.states[p - 1].transitions[x].contains(q - 1));
            assert(na.moved(first, x).contains(q - 1));
        } else {
            assert(nc.states[(p - by) + 1 + a.states.len()].transitions[x].contains(q));
            assert(nb.states[p - by].transitions[x].contains(q - by));
            assert(nb.moved(second, x).contains(q - by));
        }
    }
    assert forall|q: int| want.contains(q) implies nc.moved(seeds, x).contains(q) by {
        if lifted(na.moved(first, x), 1).contains(q) {
            let p = choose|p: int|
                0 <= p < na.states.len() && first.contains(p)
                    && na.states[p].transitions[x].contains(q - 1);
            assert(nc.states[p + 1].transitions[x].contains(q));
            assert(seeds.contains(p + 1));
        } else {
            let p = choose|p: int|
                0 <= p < nb.states.len() && second.contains(p)
                    && nb.states[p].transitions[x].contains(q - by);
            assert(nc.states[p + 1 + a.states.len()].transitions[x].contains(q));
            assert(seeds.contains(p + by));
        }
    }
    assert(nc.moved(seeds, x) =~= want);
}

/// The states in which the whole can be after a word: those in which the
/// two parts can be after it, and before any symbol also the new initial
/// state.
pub proof fn lemma_alt_run(a: PartModel, b: PartModel, alphabet: Seq<Seq<char>>, word: Seq<int>)
    requires
        part_wf(a, alphabet.len() as int),
        part_wf(b, alphabet.len() as int),
        alphabet.no_duplicates(),
        forall|i: int| 0 <= i < word.len() ==> 0 <= #[trigger] word[i] < alphabet.len(),
    ensures
        run_indices(
            nfa_of_part(part_alt(a, b, alphabet.len() as int), alphabet),
            nfa_of_part(part_alt(a, b, alphabet.len() as int), alphabet).start(),
            word,
        ) == fresh(word.len() == 0).union(
            lifted(run_indices(nfa_of_part(a, alphabet), nfa_of_part(a, alphabet).start(), word), 1),
        ).union(
            lifted(
                run_indices(nfa_of_part(b, alphabet), nfa_of_part(b, alphabet).start(), word),
                1 + a.states.len() as int,
            ),
        ),
    decreases word.len(),
{
    let na = nfa_of_part(a, alphabet);
    let nb = nfa_of_part(b, alphabet);
    let nc = nfa_of_part(part_alt(a, b, alphabet.len() as int), alphabet);
    let by = 1 + a.states.len() as int;
    lemma_part_nfa(a, alphabet);
    lemma_part_nfa(b, alphabet);
    lemma_alt_edges(a, b, alphabet);
    if word.len() == 0 {
        let sa = set![a.initial];
        let sb = set![b.initial];
        lemma_alt_closure(a, b, alphabet, sa, sb, true);
        let seeds = fresh(true).union(lifted(sa, 1)).union(lifted(sb, by));
        assert forall|q: int| nc.closure(seeds).contains(q) implies nc.start().contains(q) by {
            let s = choose|s: int| seeds.contains(s) && reaches(nc.epsilon_graph(), s, q);
            if s != 0 {
                assert(edge(nc.epsilon_graph(), 0, s));
                lemma_reaches_self(nc.epsilon_graph(), 0);
                lemma_reaches_more(nc.epsilon_graph(), 0, 0, s);
                lemma_reaches_transitive(nc.epsilon_graph(), 0, s, q);
            }
            assert(set![nc.initial].contains(0));
        }
        assert forall|q: int| nc.start().contains(q) implies nc.closure(seeds).contains(q) by {
            assert(seeds.contains(0));
        }
        assert(nc.start() =~= nc.closure(seeds));
    } else {
        let shorter = word.drop_last();
        let x = word.last();
        assert(word =~= shorter.push(x));
        lemma_alt_run(a, b, alphabet, shorter);
        let before_a = run_indices(na, na.start(), shorter);
        let before_b = run_indices(nb, nb.start(), shorter);
        lemma_run_indices_more(nc, nc.start(), shorter, x);
        lemma_run_indices_more(na, na.start(), shorter, x);
        lemma_run_indices_more(nb, nb.start(), shorter, x);
        lemma_run_inside(na, shorter);
        lemma_run_inside(nb, shorter);
        lemma_alt_moved(a, b, alphabet, before_a, before_b, shorter.len() == 0, x);
        lemma_alt_closure(a, b, alphabet, na.moved(before_a, x), nb.moved(before_b, x), false);
    }
}

/// The whole accepts a word exactly where one of the two parts accepts
/// it.
pub proof fn lemma_alt_accepts(a: PartModel, b: PartModel, alphabet: Seq<Seq<char>>, word: Seq<int>)
    requires
        part_wf(a, alphabet.len() as int),
        part_wf(b, alphabet.len() as int),
        alphabet.no_duplicates(),
        forall|i: int| 0 <= i < word.len() ==> 0 <= #[trigger] word[i] < alphabet.len(),
    ensures
        accepts_at(nfa_of_part(part_alt(a, b, alphabet.len() as int), alphabet), word) == (
        accepts_at(nfa_of_part(a, alphabet), word) || accepts_at(nfa_of_part(b, alphabet), word)),
{
    let na = nfa_of_part(a, alphabet);
    let nb = nfa_of_part(b, alphabet);
    let nc = nfa_of_part(part_alt(a, b, alphabet.len() as int), alphabet);
    let by = 1 + a.states.len() as int;
    lemma_part_nfa(a, alphabet);
    lemma_part_nfa(b, alphabet);
    lemma_alt_edges(a, b, alphabet);
    lemma_alt_run(a, b, alphabet, word);
    lemma_run_inside(na, word);
    lemma_run_inside(nb, word);
    let first = run_indices(na, na.start(), word);
    let second = run_indices(nb, nb.start(), word);
    let all = fresh(word.len() == 0).union(lifted(first, 1)).union(lifted(second, by));
    if nc.accepting_set(all) {
        let q = choose|q: int| 0 <= q < nc.states.len() && all.contains(q) && nc.states[q].accepting;
        if lifted(first, 1).contains(q) {
            assert(na.states[q - 1].accepting);
        } else if lifted(second, by).contains(q) {
            assert(nb.states[q - by].accepting);
        }
    }
    if na.accepting_set(first) {
        let q = choose|q: int| 0 <= q < na.states.len() && first.contains(q) && na.states[q].accepting;
        assert(all.contains(q + 1));
        assert(nc.states[q + 1].accepting);
    }
    if nb.accepting_set(second) {
        let q = choose|q: int|
            0 <= q < nb.states.len() && second.contains(q) && nb.states[q].accepting;
        assert(all.contains(q + by));
        assert(nc.states[q + by].accepting);
    }
}

} // verus!
