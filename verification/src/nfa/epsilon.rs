//! Taking the moves that read nothing out of a nondeterministic automaton.

use vstd::prelude::*;
use crate::alphabet::{symbol_position, lemma_symbol_position, clone_strings};
use crate::counting::{kept_states, lemma_kept_states, rank, clear_row};
use crate::graph::{graph_of, graph_wf, marked, reach, reaches, is_path};
use crate::nfa::{Nfa, NfaModel, NfaState, NfaStateModel, nfa_model, targets_of};
use crate::nfa::run::lemma_run_of_none;
use crate::nfa::convert::lemma_no_epsilon_closure;

verus! {

/// For each state, whether the symbol at position `x` leads to it from a
/// state that moves that read nothing reach from `q`.
pub open spec fn move_flags(m: NfaModel, q: int, x: int) -> Seq<bool> {
    Seq::new(m.states.len(), |t: int| m.moved(m.closure(set![q]), x).contains(t))
}

/// The automaton without its moves that read nothing: each symbol leads
/// from a state to the states to which it led from the states that such
/// moves reached, in rising order, and a state is accepting where such
/// moves reached an accepting state.
pub open spec fn without_epsilon(m: NfaModel) -> NfaModel {
    NfaModel {
        alphabet: m.alphabet,
        states: Seq::new(
            m.states.len(),
            |q: int|
                NfaStateModel {
                    name: m.states[q].name,
                    initial: m.states[q].initial,
                    accepting: m.accepting_set(m.closure(set![q])),
                    epsilon_transitions: Seq::empty(),
                    transitions: Seq::new(
                        m.alphabet.len(),
                        |x: int| kept_states(move_flags(m, q, x)),
                    ),
                },
        ),
        initial: m.initial,
    }
}

/// Whether every state of the set is a state of the automaton.
pub open spec fn within(m: NfaModel, set: Set<int>) -> bool {
    forall|q: int| set.contains(q) ==> 0 <= q < m.states.len()
}

/// A state that reaches a state of the automaton is a state of the
/// automaton, and so is every state that a state of the automaton reaches.
pub proof fn lemma_reach_within(m: NfaModel, p: int, q: int)
    requires
        m.wf(),
        reaches(m.epsilon_graph(), p, q),
    ensures
        (0 <= p < m.states.len()) == (0 <= q < m.states.len()),
{
    let path = choose|path: Seq<int>|
        is_path(m.epsilon_graph(), path) && path[0] == p && path.last() == q;
    lemma_path_within(m, path);
}

/// The states of a path of moves that read nothing are states of the
/// automaton, unless the path is a single number.
pub proof fn lemma_path_within(m: NfaModel, path: Seq<int>)
    requires
        m.wf(),
        is_path(m.epsilon_graph(), path),
    ensures
        (0 <= path[0] < m.states.len()) == (0 <= path.last() < m.states.len()),
    decreases path.len(),
{
    if path.len() > 1 {
        lemma_path_within(m, path.drop_last());
        let p = path[path.len() - 2];
        let graph = m.epsilon_graph();
        assert(graph[p] == m.states[p].epsilon_transitions);
        let k = choose|k: int| 0 <= k < graph[p].len() && graph[p][k] == path.last();
        assert(0 <= m.states[p].epsilon_transitions[k] < m.states.len());
    }
}

/// What the automaton without moves that read nothing is, state by state.
pub proof fn lemma_without_epsilon(m: NfaModel)
    requires
        m.wf(),
    ensures
        without_epsilon(m).wf(),
        !without_epsilon(m).has_epsilon_moves(),
        forall|set: Set<int>, x: int|
            0 <= x < m.alphabet.len() && within(m, set) ==> #[trigger] without_epsilon(m).moved(
                set,
                x,
            ) == m.moved(m.closure(set), x),
        forall|set: Set<int>|
            within(m, set) ==> #[trigger] without_epsilon(m).accepting_set(set)
                == m.accepting_set(m.closure(set)),
{
    let n = without_epsilon(m);
    assert forall|q: int, x: int, k: int|
        0 <= q < n.states.len() && 0 <= x < n.alphabet.len() && 0 <= k
            < n.states[q].transitions[x].len() implies 0
        <= #[trigger] n.states[q].transitions[x][k] < n.states.len() by {
        lemma_kept_states(move_flags(m, q, x));
    }
    assert(n.wf());
    assert forall|set: Set<int>, x: int|
        0 <= x < m.alphabet.len() && within(m, set) implies #[trigger] n.moved(set, x) == m.moved(
        m.closure(set),
        x,
    ) by {
        let left = n.moved(set, x);
        let right = m.moved(m.closure(set), x);
        assert forall|t: int| left.contains(t) implies right.contains(t) by {
            let p = choose|p: int|
                0 <= p < n.states.len() && set.contains(p) && n.states[p].transitions[x].contains(
                    t,
                );
            let flags = move_flags(m, p, x);
            lemma_kept_states(flags);
            let j = choose|j: int| 0 <= j < kept_states(flags).len() && kept_states(flags)[j] == t;
            assert(flags[kept_states(flags)[j]]);
            assert(m.moved(m.closure(set![p]), x).contains(t));
            let r = choose|r: int|
                0 <= r < m.states.len() && m.closure(set![p]).contains(r)
                    && m.states[r].transitions[x].contains(t);
            let seed = choose|seed: int| set![p].contains(seed) && reaches(
                m.epsilon_graph(),
                seed,
                r,
            );
            assert(seed == p);
            assert(m.closure(set).contains(r));
        }
        assert forall|t: int| right.contains(t) implies left.contains(t) by {
            let r = choose|r: int|
                0 <= r < m.states.len() && m.closure(set).contains(r)
                    && m.states[r].transitions[x].contains(t);
            let p = choose|p: int| set.contains(p) && reaches(m.epsilon_graph(), p, r);
            assert(set![p].contains(p));
            assert(m.closure(set![p]).contains(r));
            assert(m.moved(m.closure(set![p]), x).contains(t));
            let k = choose|k: int|
                0 <= k < m.states[r].transitions[x].len() && m.states[r].transitions[x][k] == t;
            assert(0 <= m.states[r].transitions[x][k] < m.states.len());
            let flags = move_flags(m, p, x);
            assert(flags[t]);
            lemma_kept_states(flags);
            assert(kept_states(flags)[rank(flags, t)] == t);
            assert(n.states[p].transitions[x].contains(t));
        }
        assert(left =~= right);
    }
    assert forall|set: Set<int>| within(m, set) implies #[trigger] n.accepting_set(set)
        == m.accepting_set(m.closure(set)) by {
        if n.accepting_set(set) {
            let p = choose|p: int|
                0 <= p < n.states.len() && set.contains(p) && n.states[p].accepting;
            let q = choose|q: int|
                0 <= q < m.states.len() && m.closure(set![p]).contains(q) && m.states[q].accepting;
            let seed = choose|seed: int| set![p].contains(seed) && reaches(
                m.epsilon_graph(),
                seed,
                q,
            );
            assert(seed == p);
            assert(m.closure(set).contains(q));
        }
        if m.accepting_set(m.closure(set)) {
            let q = choose|q: int|
                0 <= q < m.states.len() && m.closure(set).contains(q) && m.states[q].accepting;
            let p = choose|p: int| set.contains(p) && reaches(m.epsilon_graph(), p, q);
            assert(set![p].contains(p));
            assert(m.closure(set![p]).contains(q));
            assert(m.accepting_set(m.closure(set![p])));
            assert(n.states[p].accepting);
        }
    }
}

/// The states that a symbol leads to are states of the automaton.
pub proof fn lemma_moved_within(m: NfaModel, set: Set<int>, x: int)
    requires
        m.wf(),
        0 <= x < m.alphabet.len(),
    ensures
        within(m, m.moved(set, x)),
        within(m, m.closure(m.moved(set, x))),
{
    assert forall|q: int| m.moved(set, x).contains(q) implies 0 <= q < m.states.len() by {
        let p = choose|p: int|
            0 <= p < m.states.len() && set.contains(p) && m.states[p].transitions[x].contains(q);
        let k = choose|k: int|
            0 <= k < m.states[p].transitions[x].len() && m.states[p].transitions[x][k] == q;
        assert(0 <= m.states[p].transitions[x][k] < m.states.len());
    }
    assert forall|q: int| m.closure(m.moved(set, x)).contains(q) implies 0 <= q
        < m.states.len() by {
        let p = choose|p: int| m.moved(set, x).contains(p) && reaches(m.epsilon_graph(), p, q);
        lemma_reach_within(m, p, q);
    }
}

/// The runs of the automaton end in the states that its moves that read
/// nothing reach from the states in which the runs of the automaton
/// without such moves end.
pub proof fn lemma_without_epsilon_run(m: NfaModel, set: Set<int>, word: Seq<Seq<char>>)
    requires
        m.wf(),
        within(m, set),
    ensures
        m.run(m.closure(set), word) == m.closure(without_epsilon(m).run(set, word)),
        within(m, without_epsilon(m).run(set, word)),
    decreases word.len(),
{
    let n = without_epsilon(m);
    lemma_without_epsilon(m);
    if word.len() > 0 {
        match symbol_position(m.alphabet, word[0]) {
            Some(x) => {
                lemma_symbol_position(m.alphabet, word[0], x);
                let next = n.moved(set, x);
                assert(next == m.moved(m.closure(set), x));
                lemma_no_epsilon_closure(n, next);
                lemma_moved_within(m, m.closure(set), x);
                lemma_without_epsilon_run(m, next, word.drop_first());
            },
            None => {
                let empty = Set::<int>::empty();
                lemma_run_of_none(m, word.drop_first());
                lemma_run_of_none(n, word.drop_first());
                assert(m.closure(empty) =~= empty);
            },
        }
    }
}

/// The automaton without its moves that read nothing accepts the same
/// words, and has no move that reads nothing.
pub proof fn law_without_epsilon(m: NfaModel)
    requires
        m.wf(),
    ensures
        without_epsilon(m).wf(),
        !without_epsilon(m).has_epsilon_moves(),
        m.equivalent(without_epsilon(m)),
{
    let n = without_epsilon(m);
    lemma_without_epsilon(m);
    assert forall|word: Seq<Seq<char>>| m.accepts(word) == n.accepts(word) by {
        let seed = set![m.initial];
        lemma_without_epsilon_run(m, seed, word);
        lemma_no_epsilon_closure(n, seed);
        assert(n.accepting_set(n.run(seed, word)) == m.accepting_set(
            m.closure(n.run(seed, word)),
        ));
    }
}

/// The marked states, in rising order.
pub fn marked_states(flags: &Vec<bool>) -> (list: Vec<usize>)
    ensures
        targets_of(list@) == kept_states(flags@),
{
    let mut list: Vec<usize> = Vec::new();
    let mut q: usize = 0;
    assert(flags@.take(0) =~= Seq::<bool>::empty());
    while q < flags.len()
        invariant
            q <= flags.len(),
            targets_of(list@) == kept_states(flags@.take(q as int)),
        decreases flags.len() - q,
    {
        assert(flags@.take(q + 1).drop_last() =~= flags@.take(q as int));
        if flags[q] {
            let ghost before = targets_of(list@);
            list.push(q);
            assert(targets_of(list@) =~= before.push(q as int));
        }
        q += 1;
    }
    assert(flags@.take(q as int) =~= flags@);
    list
}

impl Nfa {
    /// Takes the moves that read nothing out of the automaton. It accepts
    /// the same words as before.
    pub fn remove_epsilon_moves(&mut self)
        ensures
            old(self)@.wf(),
            final(self)@ == without_epsilon(old(self)@),
            final(self)@.wf(),
            !final(self)@.has_epsilon_moves(),
            old(self)@.equivalent(final(self)@),
    {
        let count = self.state_count();
        let symbols = self.symbol_count();
        let epsilon = self.epsilon_lists();
        let states = self.states();
        let ghost m = self@;
        proof {
            law_without_epsilon(m);
        }
        let mut built: Vec<NfaState> = Vec::new();
        let mut q: usize = 0;
        while q < count
            invariant
                m == self@,
                m.wf(),
                count == m.states.len(),
                symbols == m.alphabet.len(),
                graph_of(epsilon@) == m.epsilon_graph(),
                graph_wf(graph_of(epsilon@)),
                epsilon.len() == count,
                states@.map_values(|s: NfaState| s@) == m.states,
                q <= count,
                built.len() == q,
                forall|p: int| 0 <= p < q ==> (#[trigger] built[p])@ == without_epsilon(
                    m,
                ).states[p],
            decreases count - q,
        {
            let mut seed = clear_row(count);
            seed.set(q, true);
            assert(marked(seed@) =~= set![q as int]);
            let closed = reach(&epsilon, &seed);
            let mut row: Vec<Vec<usize>> = Vec::new();
            let mut x: usize = 0;
            while x < symbols
                invariant
                    m == self@,
                    m.wf(),
                    q < count,
                    count == m.states.len(),
                    symbols == m.alphabet.len(),
                    closed.len() == count,
                    marked(closed@) == m.closure(set![q as int]),
                    x <= symbols,
                    row.len() == x,
                    forall|y: int|
                        0 <= y < x ==> targets_of((#[trigger] row[y])@) == kept_states(
                            move_flags(m, q as int, y),
                        ),
                decreases symbols - x,
            {
                let after = self.moved(&closed, x);
                proof {
                    let flags = move_flags(m, q as int, x as int);
                    assert(after@ =~= flags) by {
                        assert forall|t: int| 0 <= t < count implies after@[t] == flags[t] by {
                            assert(marked(after@).contains(t) == after@[t]);
                        }
                    }
                }
                row.push(marked_states(&after));
                x += 1;
            }
            assert(m.states[q as int] == states[q as int]@);
            let state = NfaState::from_parts(
                states[q].name().to_owned(),
                states[q].is_initial(),
                self.any_accepting(&closed),
                Vec::new(),
                row,
            );
            proof {
                let want = without_epsilon(m).states[q as int];
                assert(state@.epsilon_transitions =~= want.epsilon_transitions);
                assert(state@.transitions =~= want.transitions);
            }
            built.push(state);
            q += 1;
        }
        let letters = clone_strings(self.alphabet());
        let initial = self.initial_state_index();
        proof {
            let n = nfa_model(letters@, built@, initial);
            assert(n.states =~= without_epsilon(m).states);
            assert(n == without_epsilon(m));
        }
        *self = Nfa::from_parts(letters, built, initial);
    }
}

} // verus!
