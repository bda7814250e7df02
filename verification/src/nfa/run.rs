//! Running a nondeterministic automaton: the set of states in which it can
//! be, before and after each symbol.

use vstd::prelude::*;
use crate::alphabet::{tokens_of, word_of, symbol_position, lemma_symbol_position, find_symbol};
use crate::counting::clear_row;
use crate::graph::{graph_of, graph_wf, marked, reach};
use crate::nfa::{Nfa, NfaModel, targets_of};

verus! {

/// From no state, no state is reached.
pub proof fn lemma_run_of_none(m: NfaModel, word: Seq<Seq<char>>)
    ensures
        m.run(Set::empty(), word) == Set::<int>::empty(),
    decreases word.len(),
{
    if word.len() > 0 {
        let empty = Set::<int>::empty();
        if let Some(x) = symbol_position(m.alphabet, word[0]) {
            assert(m.moved(empty, x) =~= empty);
            assert(m.closure(empty) =~= empty);
        }
        assert(m.step(empty, word[0]) == empty);
        lemma_run_of_none(m, word.drop_first());
    }
}

/// A word with a token outside the alphabet leads to no state.
pub proof fn lemma_outside(m: NfaModel, set: Set<int>, word: Seq<Seq<char>>, i: int)
    requires
        0 <= i < word.len(),
        !m.alphabet.contains(word[i]),
    ensures
        m.run(set, word) == Set::<int>::empty(),
    decreases word.len(),
{
    if i == 0 {
        lemma_run_of_none(m, word.drop_first());
    } else {
        assert(word.drop_first()[i - 1] == word[i]);
        lemma_outside(m, m.step(set, word[0]), word.drop_first(), i - 1);
    }
}

impl Nfa {
    /// For each state, the targets of its moves that read nothing.
    pub fn epsilon_lists(&self) -> (lists: Vec<Vec<usize>>)
        ensures
            self@.wf(),
            lists.len() == self@.states.len(),
            graph_of(lists@) == self@.epsilon_graph(),
            graph_wf(graph_of(lists@)),
    {
        let count = self.state_count();
        let mut lists: Vec<Vec<usize>> = Vec::new();
        let mut q: usize = 0;
        while q < count
            invariant
                self@.wf(),
                count == self@.states.len(),
                q <= count,
                lists.len() == q,
                forall|p: int|
                    0 <= p < q ==> targets_of((#[trigger] lists[p])@)
                        == self@.states[p].epsilon_transitions,
            decreases count - q,
        {
            let targets = self.epsilon_targets(q);
            lists.push(crate::alphabet::clone_indices(targets.as_slice()));
            q += 1;
        }
        proof {
            assert(graph_of(lists@) =~= self@.epsilon_graph());
        }
        lists
    }

    /// The states to which the symbol at position `x` leads from a marked
    /// state.
    pub fn moved(&self, set: &Vec<bool>, x: usize) -> (flags: Vec<bool>)
        requires
            set.len() == self@.states.len(),
            x < self@.alphabet.len(),
        ensures
            flags.len() == self@.states.len(),
            marked(flags@) == self@.moved(marked(set@), x as int),
    {
        let count = self.state_count();
        let ghost m = self@;
        let mut flags = clear_row(count);
        let mut p: usize = 0;
        while p < count
            invariant
                m == self@,
                m.wf(),
                count == m.states.len(),
                set.len() == count,
                x < m.alphabet.len(),
                p <= count,
                flags.len() == count,
                forall|q: int|
                    0 <= q < count ==> #[trigger] flags[q] == exists|r: int|
                        0 <= r < p && set[r] && m.states[r].transitions[x as int].contains(q),
            decreases count - p,
        {
            if set[p] {
                let targets = self.targets(p, x);
                let ghost list = m.states[p as int].transitions[x as int];
                let ghost before = flags@;
                let mut k: usize = 0;
                while k < targets.len()
                    invariant
                        m == self@,
                        count == m.states.len(),
                        p < count,
                        set[p as int],
                        k <= targets.len(),
                        flags.len() == count,
                        before.len() == count,
                        list == m.states[p as int].transitions[x as int],
                        targets_of(targets@) == list,
                        forall|j: int| 0 <= j < targets.len() ==> #[trigger] targets[j] < count,
                        forall|q: int|
                            0 <= q < count ==> #[trigger] flags[q] == (before[q] || exists|j: int|
                                0 <= j < k && list[j] == q),
                    decreases targets.len() - k,
                {
                    let to = targets[k];
                    assert(list[k as int] == to);
                    flags.set(to, true);
                    k += 1;
                }
                proof {
                    assert forall|q: int| 0 <= q < count implies #[trigger] flags[q] == exists|
                        r: int,
                    |
                        0 <= r < p + 1 && set[r] && m.states[r].transitions[x as int].contains(
                            q,
                        ) by {
                        if flags[q] {
                            if before[q] {
                                let r = choose|r: int|
                                    0 <= r < p && set[r] && m.states[r].transitions[x as int].contains(
                                        q,
                                    );
                                assert(0 <= r < p + 1);
                            } else {
                                let j = choose|j: int| 0 <= j < targets.len() && list[j] == q;
                                assert(list.contains(q));
                            }
                        } else if exists|r: int|
                            0 <= r < p + 1 && set[r] && m.states[r].transitions[x as int].contains(
                                q,
                            ) {
                            let r = choose|r: int|
                                0 <= r < p + 1 && set[r] && m.states[r].transitions[x as int].contains(
                                    q,
                                );
                            if r == p {
                                let j = choose|j: int| 0 <= j < list.len() && list[j] == q;
                                assert(false);
                            } else {
                                assert(false);
                            }
                        }
                    }
                }
            }
            p += 1;
        }
        proof {
            let moved = m.moved(marked(set@), x as int);
            assert forall|q: int| marked(flags@).contains(q) == moved.contains(q) by {
                if marked(flags@).contains(q) {
                    let r = choose|r: int|
                        0 <= r < count && set[r] && m.states[r].transitions[x as int].contains(q);
                    assert(marked(set@).contains(r));
                }
                if moved.contains(q) {
                    let r = choose|r: int|
                        0 <= r < m.states.len() && marked(set@).contains(r)
                            && m.states[r].transitions[x as int].contains(q);
                    let k = choose|k: int|
                        0 <= k < m.states[r].transitions[x as int].len()
                            && m.states[r].transitions[x as int][k] == q;
                    assert(0 <= m.states[r].transitions[x as int][k] < count);
                }
            }
            assert(marked(flags@) =~= moved);
        }
        flags
    }

    /// The states in which the automaton can be before it reads anything.
    pub fn start(&self, epsilon: &Vec<Vec<usize>>) -> (flags: Vec<bool>)
        requires
            graph_of(epsilon@) == self@.epsilon_graph(),
            graph_wf(graph_of(epsilon@)),
            epsilon.len() == self@.states.len(),
        ensures
            flags.len() == self@.states.len(),
            marked(flags@) == self@.start(),
    {
        let count = self.state_count();
        let initial = self.initial_state_index();
        let mut seeds = clear_row(count);
        seeds.set(initial, true);
        assert(marked(seeds@) =~= set![initial as int]);
        reach(epsilon, &seeds)
    }

    /// Whether a marked state is accepting.
    pub fn any_accepting(&self, set: &Vec<bool>) -> (found: bool)
        requires
            set.len() == self@.states.len(),
        ensures
            found == self@.accepting_set(marked(set@)),
    {
        let count = self.state_count();
        let mut q: usize = 0;
        while q < count
            invariant
                count == self@.states.len(),
                set.len() == count,
                q <= count,
                forall|p: int| 0 <= p < q && set[p] ==> !self@.states[p].accepting,
            decreases count - q,
        {
            if set[q] && self.accepting(q) {
                assert(marked(set@).contains(q as int));
                return true;
            }
            q += 1;
        }
        false
    }

    /// Whether the automaton accepts the word made of the given tokens. A
    /// token outside the alphabet rejects the word.
    pub fn accepts(&self, input: &[&str]) -> (accepted: bool)
        ensures
            accepted == self@.accepts(word_of(input@)),
    {
        let epsilon = self.epsilon_lists();
        let alphabet = self.alphabet();
        let ghost m = self@;
        let ghost word = word_of(input@);
        let mut current = self.start(&epsilon);
        let mut i: usize = 0;
        assert(word.skip(0) =~= word);
        while i < input.len()
            invariant
                m == self@,
                m.wf(),
                tokens_of(alphabet@) == m.alphabet,
                graph_of(epsilon@) == m.epsilon_graph(),
                graph_wf(graph_of(epsilon@)),
                epsilon.len() == m.states.len(),
                word == word_of(input@),
                i <= input.len(),
                current.len() == m.states.len(),
                m.run(m.start(), word) == m.run(marked(current@), word.skip(i as int)),
            decreases input.len() - i,
        {
            let token: String = input[i].to_owned();
            proof {
                let rest = word.skip(i as int);
                assert(rest[0] == token@);
                assert(rest.drop_first() =~= word.skip(i + 1));
            }
            match find_symbol(alphabet, &token) {
                Some(x) => {
                    proof {
                        lemma_symbol_position(m.alphabet, token@, x as int);
                    }
                    let after = self.moved(&current, x);
                    current = reach(&epsilon, &after);
                },
                None => {
                    proof {
                        lemma_run_of_none(m, word.skip(i + 1));
                        assert(!m.accepting_set(Set::<int>::empty()));
                    }
                    return false;
                },
            }
            i += 1;
        }
        assert(word.skip(i as int).len() == 0);
        self.any_accepting(&current)
    }

    /// Whether a state has a move that reads nothing.
    pub fn has_epsilon_moves(&self) -> (found: bool)
        ensures
            found == self@.has_epsilon_moves(),
    {
        let count = self.state_count();
        let mut q: usize = 0;
        while q < count
            invariant
                count == self@.states.len(),
                q <= count,
                forall|p: int|
                    0 <= p < q ==> (#[trigger] self@.states[p]).epsilon_transitions.len() == 0,
            decreases count - q,
        {
            let targets = self.epsilon_targets(q);
            assert(targets_of(targets@).len() == targets.len());
            if targets.len() > 0 {
                return true;
            }
            q += 1;
        }
        false
    }
}

} // verus!
