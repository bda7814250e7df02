//! The states of a nondeterministic automaton that its initial state
//! reaches, and the automaton without the others.

use vstd::prelude::*;
use crate::alphabet::{symbol_position, lemma_symbol_position, clone_strings};
use crate::counting::{kept_states, lemma_kept_states, rank, marks, clear_row};
use crate::graph::{
    edge,
    graph_of,
    graph_wf,
    marked,
    reach,
    reached_from,
    reaches,
    is_path,
    lemma_reaches_self,
    lemma_reaches_more,
};
use crate::nfa::{Nfa, NfaModel, NfaState, NfaStateModel, nfa_model, targets_of};
use crate::nfa::run::lemma_run_of_none;

verus! {

/// The targets of the first `upto` lists, list after list.
pub open spec fn all_targets(lists: Seq<Seq<int>>, upto: int) -> Seq<int>
    decreases upto,
{
    if upto <= 0 {
        Seq::empty()
    } else {
        all_targets(lists, upto - 1) + lists[upto - 1]
    }
}

/// The graph of all the moves of the automaton: those of its symbols, and
/// those that read nothing.
pub open spec fn move_graph(m: NfaModel) -> Seq<Seq<int>> {
    m.states.map_values(
        |s: NfaStateModel|
            all_targets(s.transitions, s.transitions.len() as int) + s.epsilon_transitions,
    )
}

/// Whether a move leads from `p` to `q`.
pub open spec fn leads(m: NfaModel, p: int, q: int) -> bool {
    0 <= p < m.states.len() && (m.states[p].epsilon_transitions.contains(q) || exists|x: int|
        0 <= x < m.states[p].transitions.len() && (#[trigger] m.states[p].transitions[x]).contains(
            q,
        ))
}

/// The targets of lists are the targets of one of the lists.
pub proof fn lemma_all_targets(lists: Seq<Seq<int>>, upto: int, q: int)
    requires
        0 <= upto <= lists.len(),
    ensures
        all_targets(lists, upto).contains(q) <==> exists|x: int|
            0 <= x < upto && (#[trigger] lists[x]).contains(q),
    decreases upto,
{
    if upto > 0 {
        lemma_all_targets(lists, upto - 1, q);
        let before = all_targets(lists, upto - 1);
        let all = all_targets(lists, upto);
        if all.contains(q) {
            let i = choose|i: int| 0 <= i < all.len() && all[i] == q;
            if i < before.len() {
                assert(before[i] == q);
                assert(before.contains(q));
            } else {
                assert(lists[upto - 1][i - before.len()] == q);
                assert(lists[upto - 1].contains(q));
            }
        }
        if exists|x: int| 0 <= x < upto && (#[trigger] lists[x]).contains(q) {
            let x = choose|x: int| 0 <= x < upto && (#[trigger] lists[x]).contains(q);
            if x < upto - 1 {
                let i = choose|i: int| 0 <= i < before.len() && before[i] == q;
                assert(all[i] == q);
            } else {
                let k = choose|k: int| 0 <= k < lists[x].len() && lists[x][k] == q;
                assert(all[before.len() + k] == q);
            }
        }
    }
}

/// The edges of the graph of moves are the moves.
pub proof fn lemma_move_graph(m: NfaModel, p: int, q: int)
    ensures
        edge(move_graph(m), p, q) == leads(m, p, q),
{
    if 0 <= p < m.states.len() {
        let s = m.states[p];
        let first = all_targets(s.transitions, s.transitions.len() as int);
        let all = first + s.epsilon_transitions;
        assert(move_graph(m)[p] == all);
        lemma_all_targets(s.transitions, s.transitions.len() as int, q);
        if all.contains(q) {
            let i = choose|i: int| 0 <= i < all.len() && all[i] == q;
            if i < first.len() {
                assert(first[i] == q);
                assert(first.contains(q));
            } else {
                assert(s.epsilon_transitions[i - first.len()] == q);
                assert(s.epsilon_transitions.contains(q));
            }
        }
        if first.contains(q) {
            let i = choose|i: int| 0 <= i < first.len() && first[i] == q;
            assert(all[i] == q);
        }
        if s.epsilon_transitions.contains(q) {
            let k = choose|k: int|
                0 <= k < s.epsilon_transitions.len() && s.epsilon_transitions[k] == q;
            assert(all[first.len() + k] == q);
        }
    }
}

/// For each state, whether moves lead from the initial state to it.
pub open spec fn live_flags(m: NfaModel) -> Seq<bool> {
    Seq::new(
        m.states.len(),
        |q: int| reached_from(move_graph(m), set![m.initial]).contains(q),
    )
}

/// The automaton that is left of `m` when only the marked states are kept:
/// they keep their order, and each move leads to the new place of its
/// target.
pub open spec fn nfa_restricted(m: NfaModel, flags: Seq<bool>) -> NfaModel {
    NfaModel {
        alphabet: m.alphabet,
        states: kept_states(flags).map_values(
            |q: int|
                NfaStateModel {
                    epsilon_transitions: m.states[q].epsilon_transitions.map_values(
                        |t: int| rank(flags, t),
                    ),
                    transitions: m.states[q].transitions.map_values(
                        |list: Seq<int>| list.map_values(|t: int| rank(flags, t)),
                    ),
                    ..m.states[q]
                },
        ),
        initial: rank(flags, m.initial),
    }
}

/// The automaton without the states that no moves reach from the initial
/// state.
pub open spec fn nfa_pruned(m: NfaModel) -> NfaModel {
    nfa_restricted(m, live_flags(m))
}

/// Whether the marked states hold the initial state and, with each state,
/// the states to which its moves lead.
pub open spec fn closed_under_moves(m: NfaModel, flags: Seq<bool>) -> bool {
    &&& flags.len() == m.states.len()
    &&& flags[m.initial]
    &&& forall|p: int, q: int|
        0 <= p < m.states.len() && flags[p] && #[trigger] leads(m, p, q) ==> 0 <= q
            < m.states.len() && flags[q]
}

/// The new places of the states of `set`.
pub open spec fn places(flags: Seq<bool>, set: Set<int>) -> Set<int> {
    Set::new(
        |j: int| 0 <= j < kept_states(flags).len() && set.contains(kept_states(flags)[j]),
    )
}

/// Whether every state of the set is marked.
pub open spec fn among(flags: Seq<bool>, set: Set<int>) -> bool {
    forall|q: int| set.contains(q) ==> 0 <= q < flags.len() && flags[q]
}

/// The automaton of the kept states is well formed, and its moves are the
/// moves of the automaton between the kept states.
pub proof fn lemma_restricted_moves(m: NfaModel, flags: Seq<bool>)
    requires
        m.wf(),
        closed_under_moves(m, flags),
    ensures
        nfa_restricted(m, flags).wf(),
        forall|j: int, k: int|
            0 <= j < kept_states(flags).len() && 0 <= k < kept_states(flags).len() ==> (
            #[trigger] nfa_restricted(m, flags).states[j].epsilon_transitions.contains(k))
                == m.states[kept_states(flags)[j]].epsilon_transitions.contains(
                kept_states(flags)[k],
            ),
        forall|j: int, k: int, x: int|
            0 <= j < kept_states(flags).len() && 0 <= k < kept_states(flags).len() && 0 <= x
                < m.alphabet.len() ==> (#[trigger] nfa_restricted(
                m,
                flags,
            ).states[j].transitions[x].contains(k))
                == m.states[kept_states(flags)[j]].transitions[x].contains(kept_states(flags)[k]),
{
    let r = nfa_restricted(m, flags);
    let kept = kept_states(flags);
    lemma_kept_states(flags);
    assert forall|j: int, i: int|
        0 <= j < r.states.len() && 0 <= i < r.states[j].epsilon_transitions.len() implies 0
        <= #[trigger] r.states[j].epsilon_transitions[i] < r.states.len() by {
        let q = kept[j];
        let t = m.states[q].epsilon_transitions[i];
        assert(m.states[q].epsilon_transitions.contains(t));
        assert(leads(m, q, t));
        assert(flags[t]);
    }
    assert forall|j: int, x: int, i: int|
        0 <= j < r.states.len() && 0 <= x < r.alphabet.len() && 0 <= i
            < r.states[j].transitions[x].len() implies 0
        <= #[trigger] r.states[j].transitions[x][i] < r.states.len() by {
        let q = kept[j];
        let t = m.states[q].transitions[x][i];
        assert(m.states[q].transitions[x].contains(t));
        assert(leads(m, q, t));
        assert(flags[t]);
    }
    assert forall|j: int| 0 <= j < r.states.len() implies (#[trigger] r.states[j]).initial == (j
        == r.initial) by {
        assert(kept[rank(flags, m.initial)] == m.initial);
    }
    assert(r.wf());
    assert forall|j: int, k: int| 0 <= j < kept.len() && 0 <= k < kept.len() implies (
    #[trigger] r.states[j].epsilon_transitions.contains(k))
        == m.states[kept[j]].epsilon_transitions.contains(kept[k]) by {
        let q = kept[j];
        let old_list = m.states[q].epsilon_transitions;
        let new_list = r.states[j].epsilon_transitions;
        if new_list.contains(k) {
            let i = choose|i: int| 0 <= i < new_list.len() && new_list[i] == k;
            let t = old_list[i];
            assert(old_list.contains(t));
            assert(leads(m, q, t));
            assert(flags[t]);
            assert(kept[rank(flags, t)] == t);
        }
        if old_list.contains(kept[k]) {
            let i = choose|i: int| 0 <= i < old_list.len() && old_list[i] == kept[k];
            assert(new_list[i] == k);
        }
    }
    assert forall|j: int, k: int, x: int|
        0 <= j < kept.len() && 0 <= k < kept.len() && 0 <= x < m.alphabet.len() implies (
    #[trigger] r.states[j].transitions[x].contains(k)) == m.states[kept[j]].transitions[x].contains(
        kept[k],
    ) by {
        let q = kept[j];
        let old_list = m.states[q].transitions[x];
        let new_list = r.states[j].transitions[x];
        if new_list.contains(k) {
            let i = choose|i: int| 0 <= i < new_list.len() && new_list[i] == k;
            let t = old_list[i];
            assert(old_list.contains(t));
            assert(leads(m, q, t));
            assert(flags[t]);
            assert(kept[rank(flags, t)] == t);
        }
        if old_list.contains(kept[k]) {
            let i = choose|i: int| 0 <= i < old_list.len() && old_list[i] == kept[k];
            assert(new_list[i] == k);
        }
    }
}

/// A path of moves that read nothing between kept states is such a path
/// between their new places.
pub proof fn lemma_path_to_places(m: NfaModel, flags: Seq<bool>, path: Seq<int>)
    requires
        m.wf(),
        closed_under_moves(m, flags),
        is_path(m.epsilon_graph(), path),
        0 <= path[0] < flags.len(),
        flags[path[0]],
    ensures
        0 <= path.last() < flags.len(),
        flags[path.last()],
        reaches(
            nfa_restricted(m, flags).epsilon_graph(),
            rank(flags, path[0]),
            rank(flags, path.last()),
        ),
    decreases path.len(),
{
    let r = nfa_restricted(m, flags);
    lemma_kept_states(flags);
    lemma_restricted_moves(m, flags);
    if path.len() > 1 {
        lemma_path_to_places(m, flags, path.drop_last());
        let p = path[path.len() - 2];
        let q = path.last();
        assert(m.epsilon_graph()[p] == m.states[p].epsilon_transitions);
        assert(leads(m, p, q));
        let j = rank(flags, p);
        let k = rank(flags, q);
        assert(r.states[j].epsilon_transitions.contains(k));
        assert(r.epsilon_graph()[j] == r.states[j].epsilon_transitions);
        lemma_reaches_more(r.epsilon_graph(), rank(flags, path[0]), j, k);
    } else {
        lemma_reaches_self(r.epsilon_graph(), rank(flags, path[0]));
    }
}

/// A path of moves that read nothing between new places is such a path
/// between the kept states.
pub proof fn lemma_path_from_places(m: NfaModel, flags: Seq<bool>, path: Seq<int>)
    requires
        m.wf(),
        closed_under_moves(m, flags),
        is_path(nfa_restricted(m, flags).epsilon_graph(), path),
        0 <= path[0] < kept_states(flags).len(),
    ensures
        0 <= path.last() < kept_states(flags).len(),
        reaches(
            m.epsilon_graph(),
            kept_states(flags)[path[0]],
            kept_states(flags)[path.last()],
        ),
    decreases path.len(),
{
    let r = nfa_restricted(m, flags);
    let kept = kept_states(flags);
    lemma_kept_states(flags);
    lemma_restricted_moves(m, flags);
    if path.len() > 1 {
        lemma_path_from_places(m, flags, path.drop_last());
        let j = path[path.len() - 2];
        let k = path.last();
        assert(r.epsilon_graph()[j] == r.states[j].epsilon_transitions);
        let i = choose|i: int|
            0 <= i < r.states[j].epsilon_transitions.len() && r.states[j].epsilon_transitions[i]
                == k;
        assert(0 <= r.states[j].epsilon_transitions[i] < r.states.len());
        assert(r.states[j].epsilon_transitions.contains(k));
        assert(m.states[kept[j]].epsilon_transitions.contains(kept[k]));
        assert(m.epsilon_graph()[kept[j]] == m.states[kept[j]].epsilon_transitions);
        lemma_reaches_more(m.epsilon_graph(), kept[path[0]], kept[j], kept[k]);
    } else {
        lemma_reaches_self(m.epsilon_graph(), kept[path[0]]);
    }
}

/// The moves of the automaton of the kept states lead from the new places
/// of kept states to the new places of the states to which the moves of the
/// automaton lead.
pub proof fn lemma_restricted_step(m: NfaModel, flags: Seq<bool>, set: Set<int>)
    requires
        m.wf(),
        closed_under_moves(m, flags),
        among(flags, set),
    ensures
        among(flags, m.closure(set)),
        nfa_restricted(m, flags).closure(places(flags, set)) == places(flags, m.closure(set)),
        forall|x: int|
            0 <= x < m.alphabet.len() ==> among(flags, #[trigger] m.moved(set, x))
                && nfa_restricted(m, flags).moved(places(flags, set), x) == places(
                flags,
                m.moved(set, x),
            ),
        nfa_restricted(m, flags).accepting_set(places(flags, set)) == m.accepting_set(set),
{
    let r = nfa_restricted(m, flags);
    let kept = kept_states(flags);
    lemma_kept_states(flags);
    lemma_restricted_moves(m, flags);
    assert forall|q: int| m.closure(set).contains(q) implies 0 <= q < flags.len() && flags[q] by {
        let p = choose|p: int| set.contains(p) && reaches(m.epsilon_graph(), p, q);
        let path = choose|path: Seq<int>|
            is_path(m.epsilon_graph(), path) && path[0] == p && path.last() == q;
        lemma_path_to_places(m, flags, path);
    }
    assert(r.closure(places(flags, set)) =~= places(flags, m.closure(set))) by {
        assert forall|k: int| r.closure(places(flags, set)).contains(k) implies places(
            flags,
            m.closure(set),
        ).contains(k) by {
            let j = choose|j: int| places(flags, set).contains(j) && reaches(
                r.epsilon_graph(),
                j,
                k,
            );
            let path = choose|path: Seq<int>|
                is_path(r.epsilon_graph(), path) && path[0] == j && path.last() == k;
            lemma_path_from_places(m, flags, path);
            assert(set.contains(kept[j]));
            assert(m.closure(set).contains(kept[k]));
        }
        assert forall|k: int| places(flags, m.closure(set)).contains(k) implies r.closure(
            places(flags, set),
        ).contains(k) by {
            let q = kept[k];
            let p = choose|p: int| set.contains(p) && reaches(m.epsilon_graph(), p, q);
            let path = choose|path: Seq<int>|
                is_path(m.epsilon_graph(), path) && path[0] == p && path.last() == q;
            lemma_path_to_places(m, flags, path);
            assert(kept[rank(flags, p)] == p);
            assert(places(flags, set).contains(rank(flags, p)));
        }
    }
    assert forall|x: int| 0 <= x < m.alphabet.len() implies among(
        flags,
        #[trigger] m.moved(set, x),
    ) && r.moved(places(flags, set), x) == places(flags, m.moved(set, x)) by {
        assert forall|q: int| m.moved(set, x).contains(q) implies 0 <= q < flags.len()
            && flags[q] by {
            let p = choose|p: int|
                0 <= p < m.states.len() && set.contains(p) && m.states[p].transitions[x].contains(
                    q,
                );
            assert(leads(m, p, q));
        }
        assert forall|k: int| r.moved(places(flags, set), x).contains(k) implies places(
            flags,
            m.moved(set, x),
        ).contains(k) by {
            let j = choose|j: int|
                0 <= j < r.states.len() && places(flags, set).contains(j)
                    && r.states[j].transitions[x].contains(k);
            let i = choose|i: int|
                0 <= i < r.states[j].transitions[x].len() && r.states[j].transitions[x][i] == k;
            assert(0 <= r.states[j].transitions[x][i] < r.states.len());
            assert(m.states[kept[j]].transitions[x].contains(kept[k]));
        }
        assert forall|k: int| places(flags, m.moved(set, x)).contains(k) implies r.moved(
            places(flags, set),
            x,
        ).contains(k) by {
            let q = kept[k];
            let p = choose|p: int|
                0 <= p < m.states.len() && set.contains(p) && m.states[p].transitions[x].contains(
                    q,
                );
            let j = rank(flags, p);
            assert(kept[j] == p);
            assert(r.states[j].transitions[x].contains(k));
            assert(places(flags, set).contains(j));
        }
        assert(r.moved(places(flags, set), x) =~= places(flags, m.moved(set, x)));
    }
    if r.accepting_set(places(flags, set)) {
        let j = choose|j: int|
            0 <= j < r.states.len() && places(flags, set).contains(j) && r.states[j].accepting;
        assert(set.contains(kept[j]) && m.states[kept[j]].accepting);
    }
    if m.accepting_set(set) {
        let q = choose|q: int| 0 <= q < m.states.len() && set.contains(q) && m.states[q].accepting;
        let j = rank(flags, q);
        assert(kept[j] == q);
        assert(places(flags, set).contains(j));
    }
}

/// The runs of the automaton of the kept states end in the new places of
/// the states in which the runs of the automaton end.
pub proof fn lemma_restricted_run(
    m: NfaModel,
    flags: Seq<bool>,
    set: Set<int>,
    word: Seq<Seq<char>>,
)
    requires
        m.wf(),
        closed_under_moves(m, flags),
        among(flags, set),
    ensures
        among(flags, m.run(set, word)),
        nfa_restricted(m, flags).run(places(flags, set), word) == places(
            flags,
            m.run(set, word),
        ),
    decreases word.len(),
{
    let r = nfa_restricted(m, flags);
    if word.len() > 0 {
        match symbol_position(m.alphabet, word[0]) {
            Some(x) => {
                lemma_symbol_position(m.alphabet, word[0], x);
                lemma_restricted_step(m, flags, set);
                let after = m.moved(set, x);
                lemma_restricted_step(m, flags, after);
                lemma_restricted_run(m, flags, m.closure(after), word.drop_first());
            },
            None => {
                let empty = Set::<int>::empty();
                lemma_run_of_none(m, word.drop_first());
                lemma_run_of_none(r, word.drop_first());
                assert(places(flags, empty) =~= empty);
            },
        }
    }
}

/// Keeping the states of a set that holds the initial state and, with each
/// state, the states to which its moves lead, gives an automaton that
/// accepts the same words.
pub proof fn lemma_nfa_restricted(m: NfaModel, flags: Seq<bool>)
    requires
        m.wf(),
        closed_under_moves(m, flags),
    ensures
        nfa_restricted(m, flags).wf(),
        m.equivalent(nfa_restricted(m, flags)),
{
    let r = nfa_restricted(m, flags);
    let kept = kept_states(flags);
    lemma_kept_states(flags);
    lemma_restricted_moves(m, flags);
    let seed = set![m.initial];
    assert(places(flags, seed) =~= set![r.initial]) by {
        assert(kept[rank(flags, m.initial)] == m.initial);
        assert forall|j: int| places(flags, seed).contains(j) implies j == r.initial by {
            assert(rank(flags, kept[j]) == j);
        }
    }
    lemma_restricted_step(m, flags, seed);
    assert forall|word: Seq<Seq<char>>| m.accepts(word) == r.accepts(word) by {
        lemma_restricted_run(m, flags, m.start(), word);
        lemma_restricted_step(m, flags, m.run(m.start(), word));
    }
}

/// The automaton without the states that are never reached accepts the
/// same words.
pub proof fn law_nfa_pruned(m: NfaModel)
    requires
        m.wf(),
    ensures
        nfa_pruned(m).wf(),
        m.equivalent(nfa_pruned(m)),
{
    let flags = live_flags(m);
    let graph = move_graph(m);
    lemma_reaches_self(graph, m.initial);
    assert(set![m.initial].contains(m.initial));
    assert forall|p: int, q: int|
        0 <= p < m.states.len() && flags[p] && #[trigger] leads(m, p, q) implies 0 <= q
        < m.states.len() && flags[q] by {
        lemma_move_graph(m, p, q);
        let seed = choose|seed: int| set![m.initial].contains(seed) && reaches(graph, seed, p);
        lemma_reaches_more(graph, seed, p, q);
        if m.states[p].epsilon_transitions.contains(q) {
            let k = choose|k: int|
                0 <= k < m.states[p].epsilon_transitions.len()
                    && m.states[p].epsilon_transitions[k] == q;
            assert(0 <= m.states[p].epsilon_transitions[k] < m.states.len());
        } else {
            let x = choose|x: int|
                0 <= x < m.states[p].transitions.len() && (
                #[trigger] m.states[p].transitions[x]).contains(q);
            let k = choose|k: int|
                0 <= k < m.states[p].transitions[x].len() && m.states[p].transitions[x][k] == q;
            assert(0 <= m.states[p].transitions[x][k] < m.states.len());
        }
    }
    lemma_nfa_restricted(m, flags);
}

/// The new places of the targets of a list.
fn replaced(list: &Vec<usize>, ranks: &Vec<usize>, Ghost(flags): Ghost<Seq<bool>>) -> (out: Vec<
    usize,
>)
    requires
        forall|k: int| 0 <= k < list.len() ==> #[trigger] list[k] < ranks.len(),
        forall|p: int| 0 <= p < ranks.len() ==> #[trigger] ranks[p] == rank(flags, p),
    ensures
        targets_of(out@) == targets_of(list@).map_values(|t: int| rank(flags, t)),
{
    let mut out: Vec<usize> = Vec::new();
    let mut k: usize = 0;
    while k < list.len()
        invariant
            k <= list.len(),
            out.len() == k,
            forall|j: int| 0 <= j < list.len() ==> #[trigger] list[j] < ranks.len(),
            forall|p: int| 0 <= p < ranks.len() ==> #[trigger] ranks[p] == rank(flags, p),
            forall|j: int| 0 <= j < k ==> #[trigger] out[j] == rank(flags, list[j] as int),
        decreases list.len() - k,
    {
        out.push(ranks[list[k]]);
        k += 1;
    }
    assert(targets_of(out@) =~= targets_of(list@).map_values(|t: int| rank(flags, t)));
    out
}

impl Nfa {
    /// For each state, the targets of all its moves.
    pub fn move_lists(&self) -> (lists: Vec<Vec<usize>>)
        ensures
            self@.wf(),
            lists.len() == self@.states.len(),
            graph_of(lists@) == move_graph(self@),
            graph_wf(graph_of(lists@)),
    {
        let count = self.state_count();
        let symbols = self.symbol_count();
        let ghost m = self@;
        let mut lists: Vec<Vec<usize>> = Vec::new();
        let mut q: usize = 0;
        while q < count
            invariant
                m == self@,
                m.wf(),
                count == m.states.len(),
                symbols == m.alphabet.len(),
                q <= count,
                lists.len() == q,
                forall|p: int| 0 <= p < q ==> targets_of((#[trigger] lists[p])@) == move_graph(
                    m,
                )[p],
                forall|p: int, k: int|
                    0 <= p < q && 0 <= k < lists[p].len() ==> #[trigger] lists[p][k] < count,
            decreases count - q,
        {
            let mut all: Vec<usize> = Vec::new();
            let mut x: usize = 0;
            let ghost row = m.states[q as int].transitions;
            while x < symbols
                invariant
                    m == self@,
                    m.wf(),
                    q < count,
                    count == m.states.len(),
                    symbols == m.alphabet.len(),
                    row == m.states[q as int].transitions,
                    x <= symbols,
                    targets_of(all@) == all_targets(row, x as int),
                    forall|k: int| 0 <= k < all.len() ==> #[trigger] all[k] < count,
                decreases symbols - x,
            {
                let targets = self.targets(q, x);
                let ghost before = all@;
                let mut k: usize = 0;
                while k < targets.len()
                    invariant
                        k <= targets.len(),
                        forall|j: int| 0 <= j < targets.len() ==> #[trigger] targets[j] < count,
                        all@ == before + targets@.take(k as int),
                        forall|j: int| 0 <= j < before.len() ==> #[trigger] before[j] < count,
                    decreases targets.len() - k,
                {
                    all.push(targets[k]);
                    assert(before + targets@.take(k + 1) =~= (before + targets@.take(
                        k as int,
                    )).push(targets@[k as int]));
                    k += 1;
                }
                assert(targets@.take(k as int) =~= targets@);
                assert(targets_of(all@) =~= targets_of(before) + targets_of(targets@));
                x += 1;
            }
            let targets = self.epsilon_targets(q);
            let ghost before = all@;
            let mut k: usize = 0;
            while k < targets.len()
                invariant
                    k <= targets.len(),
                    forall|j: int| 0 <= j < targets.len() ==> #[trigger] targets[j] < count,
                    all@ == before + targets@.take(k as int),
                    forall|j: int| 0 <= j < before.len() ==> #[trigger] before[j] < count,
                decreases targets.len() - k,
            {
                all.push(targets[k]);
                assert(before + targets@.take(k + 1) =~= (before + targets@.take(k as int)).push(
                    targets@[k as int],
                ));
                k += 1;
            }
            assert(targets@.take(k as int) =~= targets@);
            assert(targets_of(all@) =~= targets_of(before) + targets_of(targets@));
            lists.push(all);
            q += 1;
        }
        proof {
            assert(graph_of(lists@) =~= move_graph(m));
            assert forall|p: int, k: int|
                0 <= p < graph_of(lists@).len() && 0 <= k < graph_of(lists@)[p].len() implies 0
                <= #[trigger] graph_of(lists@)[p][k] < graph_of(lists@).len() by {
                assert(graph_of(lists@)[p][k] == lists[p][k]);
            }
        }
        lists
    }

    /// Drops the states that no moves reach from the initial state. The
    /// states that are left keep their order, and the automaton accepts
    /// the same words.
    pub fn remove_unreachable_states(&mut self)
        ensures
            old(self)@.wf(),
            final(self)@ == nfa_pruned(old(self)@),
            final(self)@.wf(),
            old(self)@.equivalent(final(self)@),
    {
        let count = self.state_count();
        let symbols = self.symbol_count();
        let lists = self.move_lists();
        let initial = self.initial_state_index();
        let states = self.states();
        let ghost m = self@;
        let mut seed = clear_row(count);
        seed.set(initial, true);
        assert(marked(seed@) =~= set![initial as int]);
        let flags = reach(&lists, &seed);
        proof {
            assert(flags@ =~= live_flags(m)) by {
                assert forall|q: int| 0 <= q < count implies flags@[q] == live_flags(m)[q] by {
                    assert(marked(flags@).contains(q) == flags@[q]);
                }
            }
            law_nfa_pruned(m);
        }
        let mut ranks: Vec<usize> = Vec::new();
        let mut kept: usize = 0;
        let mut q: usize = 0;
        assert(flags@.take(0) =~= Seq::<bool>::empty());
        while q < count
            invariant
                q <= count,
                count == flags.len(),
                ranks.len() == q,
                kept == marks(flags@.take(q as int)),
                kept <= q,
                forall|p: int| 0 <= p < q ==> #[trigger] ranks[p] == rank(flags@, p),
            decreases count - q,
        {
            ranks.push(kept);
            assert(flags@.take(q + 1).drop_last() =~= flags@.take(q as int));
            if flags[q] {
                kept += 1;
            }
            q += 1;
        }
        let mut built: Vec<NfaState> = Vec::new();
        q = 0;
        while q < count
            invariant
                m == self@,
                m.wf(),
                q <= count,
                count == m.states.len(),
                symbols == m.alphabet.len(),
                count == flags.len(),
                ranks.len() == count,
                states@.map_values(|s: NfaState| s@) == m.states,
                forall|p: int| 0 <= p < count ==> #[trigger] ranks[p] == rank(flags@, p),
                built.len() == kept_states(flags@.take(q as int)).len(),
                forall|j: int|
                    0 <= j < built.len() ==> (#[trigger] built[j])@ == (NfaStateModel {
                        epsilon_transitions: m.states[kept_states(
                            flags@.take(q as int),
                        )[j]].epsilon_transitions.map_values(|t: int| rank(flags@, t)),
                        transitions: m.states[kept_states(
                            flags@.take(q as int),
                        )[j]].transitions.map_values(
                            |list: Seq<int>| list.map_values(|t: int| rank(flags@, t)),
                        ),
                        ..m.states[kept_states(flags@.take(q as int))[j]]
                    }),
            decreases count - q,
        {
            assert(flags@.take(q + 1).drop_last() =~= flags@.take(q as int));
            if flags[q] {
                let mut row: Vec<Vec<usize>> = Vec::new();
                let mut x: usize = 0;
                while x < symbols
                    invariant
                        m == self@,
                        m.wf(),
                        q < count,
                        count == m.states.len(),
                        symbols == m.alphabet.len(),
                        ranks.len() == count,
                        forall|p: int| 0 <= p < count ==> #[trigger] ranks[p] == rank(flags@, p),
                        x <= symbols,
                        row.len() == x,
                        forall|y: int|
                            0 <= y < x ==> targets_of((#[trigger] row[y])@)
                                == m.states[q as int].transitions[y].map_values(
                                |t: int| rank(flags@, t),
                            ),
                    decreases symbols - x,
                {
                    let targets = self.targets(q, x);
                    row.push(replaced(targets, &ranks, Ghost(flags@)));
                    x += 1;
                }
                let silent = replaced(self.epsilon_targets(q), &ranks, Ghost(flags@));
                assert(m.states[q as int] == states[q as int]@);
                let state = NfaState::from_parts(
                    states[q].name().to_owned(),
                    states[q].is_initial(),
                    states[q].is_accepting(),
                    silent,
                    row,
                );
                assert(state@.transitions =~= m.states[q as int].transitions.map_values(
                    |list: Seq<int>| list.map_values(|t: int| rank(flags@, t)),
                ));
                built.push(state);
            }
            q += 1;
        }
        let new_initial = ranks[initial];
        let letters = clone_strings(self.alphabet());
        proof {
            assert(flags@.take(count as int) =~= flags@);
            let after = nfa_model(letters@, built@, new_initial);
            assert(after.states =~= nfa_pruned(m).states);
            assert(after == nfa_pruned(m));
        }
        *self = Nfa::from_parts(letters, built, new_initial);
    }
}

} // verus!
