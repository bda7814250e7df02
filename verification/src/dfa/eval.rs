//! Running a deterministic automaton step by step.

use vstd::prelude::*;
use crate::alphabet::{word_of, lemma_symbol_position, find_symbol};
use crate::dfa::{Dfa, DfaModel, DfaState};

verus! {

/// A run of a deterministic automaton that is under way: the automaton and
/// the state that the run has reached, or no state once a token was read
/// that is not in the alphabet.
pub struct DfaEvaluator<'a> {
    dfa: &'a Dfa,
    current: Option<usize>,
}

/// The state reached from `from` on reading `token`, where there is a
/// state to start from.
pub open spec fn step_from(m: DfaModel, from: Option<int>, token: Seq<char>) -> Option<int> {
    match from {
        Some(q) => m.step(q, token),
        None => None,
    }
}

/// The state reached from `from` on reading `word`, where there is a state
/// to start from.
pub open spec fn run_from(m: DfaModel, from: Option<int>, word: Seq<Seq<char>>) -> Option<int> {
    match from {
        Some(q) => m.run(q, word),
        None => None,
    }
}

impl<'a> DfaEvaluator<'a> {
    /// The automaton that is run.
    pub closed spec fn automaton(&self) -> DfaModel {
        self.dfa@
    }

    /// The state that the run has reached.
    pub closed spec fn state(&self) -> Option<int> {
        match self.current {
            Some(q) => Some(q as int),
            None => None,
        }
    }

    #[verifier::type_invariant]
    closed spec fn inv(&self) -> bool {
        self.current matches Some(q) ==> q < self.dfa@.states.len()
    }

    /// Reads one token: the run goes on to the state that the token leads
    /// to, which is returned, or to no state where the token is not in the
    /// alphabet or the run had no state left.
    pub fn step(&mut self, token: &str) -> (reached: Option<&'a DfaState>)
        ensures
            final(self).automaton() == old(self).automaton(),
            final(self).state() == step_from(old(self).automaton(), old(self).state(), token@),
            match reached {
                Some(s) => final(self).state() matches Some(q) && s@ == old(
                    self,
                ).automaton().states[q],
                None => final(self).state() is None,
            },
    {
        proof {
            use_type_invariant(&*self);
        }
        let dfa: &'a Dfa = self.dfa;
        let states = dfa.states();
        let alphabet = dfa.alphabet();
        let owned: String = token.to_owned();
        let next: Option<usize> = match self.current {
            Some(q) => match find_symbol(alphabet, &owned) {
                Some(x) => {
                    proof {
                        lemma_symbol_position(dfa@.alphabet, token@, x as int);
                    }
                    Some(dfa.target(q, x))
                },
                None => None,
            },
            None => None,
        };
        self.current = next;
        match next {
            Some(q) => {
                assert(dfa@.states[q as int] == states[q as int]@);
                Some(&states[q])
            },
            None => None,
        }
    }

    /// Reads the tokens one after the other.
    pub fn step_multiple(&mut self, tokens: &[&str])
        ensures
            final(self).automaton() == old(self).automaton(),
            final(self).state() == run_from(
                old(self).automaton(),
                old(self).state(),
                word_of(tokens@),
            ),
    {
        proof {
            use_type_invariant(&*self);
        }
        let ghost m = self.automaton();
        let ghost start = self.state();
        let ghost word = word_of(tokens@);
        let mut i: usize = 0;
        assert(word.skip(0) =~= word);
        let count = self.dfa.state_count();
        while i < tokens.len()
            invariant
                i <= tokens.len(),
                m.wf(),
                self.automaton() == m,
                word == word_of(tokens@),
                self.state() matches Some(q) ==> 0 <= q < m.states.len(),
                run_from(m, start, word) == run_from(m, self.state(), word.skip(i as int)),
            decreases tokens.len() - i,
        {
            proof {
                let rest = word.skip(i as int);
                assert(rest[0] == tokens[i as int]@);
                assert(rest.drop_first() =~= word.skip(i + 1));
                if let Some(q) = self.state() {
                    crate::dfa::lemma_step_in_range(m, q, rest[0]);
                }
            }
            self.step(tokens[i]);
            i += 1;
        }
        assert(word.skip(i as int).len() == 0);
    }

    /// Whether the run has reached an accepting state.
    pub fn is_accepting(&self) -> (accepting: bool)
        ensures
            accepting == (self.state() matches Some(q) && self.automaton().states[q].accepting),
    {
        proof {
            use_type_invariant(self);
        }
        match self.current {
            Some(q) => self.dfa.accepting(q),
            None => false,
        }
    }

    /// The state that the run has reached, if it has one left.
    pub fn current_state(&self) -> (state: Option<&'a DfaState>)
        ensures
            match state {
                Some(s) => self.state() matches Some(q) && s@ == self.automaton().states[q],
                None => self.state() is None,
            },
    {
        proof {
            use_type_invariant(self);
        }
        let dfa: &'a Dfa = self.dfa;
        let states = dfa.states();
        match self.current {
            Some(q) => {
                assert(dfa@.states[q as int] == states[q as int]@);
                Some(&states[q])
            },
            None => None,
        }
    }

    /// The index of the state that the run has reached, if it has one
    /// left.
    pub fn current_state_idx(&self) -> (index: Option<usize>)
        ensures
            match index {
                Some(q) => self.state() == Some(q as int),
                None => self.state() is None,
            },
    {
        self.current
    }
}

impl Dfa {
    /// A run of the automaton that has read nothing yet.
    pub fn evaluator(&self) -> (run: DfaEvaluator<'_>)
        ensures
            run.automaton() == self@,
            run.state() == Some(self@.initial),
    {
        let initial = self.initial_state_index();
        DfaEvaluator { dfa: self, current: Some(initial) }
    }

    /// The states that no word reaches from the initial state.
    pub fn unreachable_states(&self) -> (states: Vec<usize>)
        ensures
            self@.wf(),
            forall|q: int|
                0 <= q < self@.states.len() ==> (#[trigger] crate::nfa::targets_of(
                    states@,
                ).contains(q)) == !self@.reachable(q),
            forall|k: int, l: int| 0 <= k < l < states.len() ==> states[k] < states[l],
            forall|k: int| 0 <= k < states.len() ==> #[trigger] states[k] < self@.states.len(),
    {
        let flags = self.reachable_states();
        let count = self.state_count();
        let ghost m = self@;
        let mut states: Vec<usize> = Vec::new();
        let mut q: usize = 0;
        while q < count
            invariant
                m == self@,
                count == m.states.len(),
                crate::dfa::reach::marks_reachable(m, flags@),
                q <= count,
                forall|p: int|
                    0 <= p < q ==> (#[trigger] crate::nfa::targets_of(states@).contains(p))
                        == !m.reachable(p),
                forall|k: int, l: int| 0 <= k < l < states.len() ==> states[k] < states[l],
                forall|k: int| 0 <= k < states.len() ==> #[trigger] states[k] < q,
            decreases count - q,
        {
            let ghost before = crate::nfa::targets_of(states@);
            if !flags[q] {
                states.push(q);
            }
            proof {
                let after = crate::nfa::targets_of(states@);
                assert forall|p: int| 0 <= p < q + 1 implies (#[trigger] after.contains(p))
                    == !m.reachable(p) by {
                    if after.contains(p) {
                        let k = choose|k: int| 0 <= k < after.len() && after[k] == p;
                        if k < before.len() {
                            assert(before[k] == p);
                            assert(before.contains(p));
                        }
                    }
                    if p < q && before.contains(p) {
                        let k = choose|k: int| 0 <= k < before.len() && before[k] == p;
                        assert(after[k] == p);
                    }
                    if p == q && !flags[q as int] {
                        assert(after[after.len() - 1] == p);
                    }
                }
            }
            q += 1;
        }
        states
    }
}

} // verus!
