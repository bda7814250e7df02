//! Deterministic finite automata.

pub mod eval;
pub mod minimize;
pub mod parse;
pub mod product;
pub mod reach;
pub mod round_trip;
pub mod table;

use vstd::prelude::*;
use crate::alphabet::{
    tokens_of,
    word_of,
    symbol_position,
    lemma_symbol_position,
    find_symbol,
    clone_strings,
    clone_indices,
};

verus! {

/// What a state of a deterministic automaton holds.
pub struct DfaStateModel {
    pub name: Seq<char>,
    pub initial: bool,
    pub accepting: bool,
    /// The target state for each position of the alphabet.
    pub transitions: Seq<int>,
}

/// The mathematical content of a deterministic automaton.
pub struct DfaModel {
    pub alphabet: Seq<Seq<char>>,
    pub states: Seq<DfaStateModel>,
    pub initial: int,
}

impl DfaModel {
    /// The alphabet has no duplicates, there is a state, exactly the state at
    /// `initial` bears the initial flag, and every state has one valid target
    /// for each symbol.
    pub open spec fn wf(self) -> bool {
        &&& self.alphabet.no_duplicates()
        &&& 0 <= self.initial < self.states.len()
        &&& forall|q: int|
            0 <= q < self.states.len() ==> (#[trigger] self.states[q]).initial == (q
                == self.initial)
        &&& forall|q: int|
            0 <= q < self.states.len() ==> (#[trigger] self.states[q]).transitions.len()
                == self.alphabet.len()
        &&& forall|q: int, x: int|
            0 <= q < self.states.len() && 0 <= x < self.alphabet.len() ==> 0
                <= #[trigger] self.states[q].transitions[x] < self.states.len()
    }

    /// The state reached from `q` on reading `token`; none if the token is not
    /// in the alphabet.
    pub open spec fn step(self, q: int, token: Seq<char>) -> Option<int> {
        match symbol_position(self.alphabet, token) {
            Some(x) => Some(self.states[q].transitions[x]),
            None => None,
        }
    }

    /// The state reached from `q` on reading `word`; none as soon as a token
    /// is not in the alphabet.
    pub open spec fn run(self, q: int, word: Seq<Seq<char>>) -> Option<int>
        decreases word.len(),
    {
        if word.len() == 0 {
            Some(q)
        } else {
            match self.step(q, word[0]) {
                Some(p) => self.run(p, word.drop_first()),
                None => None,
            }
        }
    }

    /// Whether reading `word` from `q` ends in an accepting state.
    pub open spec fn accepts_from(self, q: int, word: Seq<Seq<char>>) -> bool {
        match self.run(q, word) {
            Some(p) => self.states[p].accepting,
            None => false,
        }
    }

    /// Whether the automaton accepts `word`.
    pub open spec fn accepts(self, word: Seq<Seq<char>>) -> bool {
        self.accepts_from(self.initial, word)
    }

    /// Whether the two automata accept the same words.
    pub open spec fn equivalent(self, other: DfaModel) -> bool {
        forall|word: Seq<Seq<char>>| self.accepts(word) == other.accepts(word)
    }

    /// Whether some word is accepted from one of the two states and not
    /// from the other.
    pub open spec fn distinguishable(self, p: int, q: int) -> bool {
        exists|word: Seq<Seq<char>>| self.accepts_from(p, word) != self.accepts_from(q, word)
    }

    /// Whether some word leads from the initial state to `q`.
    pub open spec fn reachable(self, q: int) -> bool {
        exists|word: Seq<Seq<char>>| self.run(self.initial, word) == Some(q)
    }
}

/// A step from a valid state stays among the states.
pub proof fn lemma_step_in_range(m: DfaModel, q: int, token: Seq<char>)
    requires
        m.wf(),
        0 <= q < m.states.len(),
    ensures
        m.step(q, token) matches Some(p) ==> 0 <= p < m.states.len(),
{
    if let Some(x) = symbol_position(m.alphabet, token) {
        lemma_symbol_position(m.alphabet, token, x);
    }
}

/// A run from a valid state stays among the states.
pub proof fn lemma_run_in_range(m: DfaModel, q: int, word: Seq<Seq<char>>)
    requires
        m.wf(),
        0 <= q < m.states.len(),
    ensures
        m.run(q, word) matches Some(p) ==> 0 <= p < m.states.len(),
    decreases word.len(),
{
    if word.len() > 0 {
        lemma_step_in_range(m, q, word[0]);
        if let Some(p) = m.step(q, word[0]) {
            lemma_run_in_range(m, p, word.drop_first());
        }
    }
}

/// Reading `u` and then `v` is reading `u + v`.
pub proof fn lemma_run_concat(m: DfaModel, q: int, u: Seq<Seq<char>>, v: Seq<Seq<char>>)
    ensures
        m.run(q, u + v) == match m.run(q, u) {
            Some(p) => m.run(p, v),
            None => None,
        },
    decreases u.len(),
{
    if u.len() == 0 {
        assert(u + v =~= v);
    } else {
        assert((u + v)[0] == u[0]);
        assert((u + v).drop_first() =~= u.drop_first() + v);
        if let Some(p) = m.step(q, u[0]) {
            lemma_run_concat(m, p, u.drop_first(), v);
        }
    }
}

/// A state of a deterministic automaton.
#[derive(Debug, PartialEq, Eq)]
pub struct DfaState {
    pub(crate) name: String,
    pub(crate) initial: bool,
    pub(crate) accepting: bool,
    pub(crate) transitions: Vec<usize>,
}

impl View for DfaState {
    type V = DfaStateModel;

    closed spec fn view(&self) -> DfaStateModel {
        DfaStateModel {
            name: self.name@,
            initial: self.initial,
            accepting: self.accepting,
            transitions: self.transitions@.map_values(|t: usize| t as int),
        }
    }
}

impl Clone for DfaState {
    fn clone(&self) -> (copy: Self)
        ensures
            copy@ == self@,
    {
        DfaState {
            name: self.name.clone(),
            initial: self.initial,
            accepting: self.accepting,
            transitions: clone_indices(self.transitions.as_slice()),
        }
    }
}

impl Clone for Dfa {
    fn clone(&self) -> (copy: Self)
        ensures
            copy@ == self@,
    {
        proof {
            use_type_invariant(self);
        }
        let mut states: Vec<DfaState> = Vec::new();
        let mut q: usize = 0;
        while q < self.states.len()
            invariant
                q <= self.states.len(),
                states.len() == q,
                forall|p: int| 0 <= p < q ==> (#[trigger] states[p])@ == self.states[p]@,
            decreases self.states.len() - q,
        {
            states.push(self.states[q].clone());
            q += 1;
        }
        let alphabet = clone_strings(self.alphabet.as_slice());
        proof {
            assert(dfa_model(alphabet@, states@, self.initial_state).states =~= self@.states);
        }
        Dfa { alphabet, states, initial_state: self.initial_state }
    }
}

impl DfaState {
    /// The state with the given parts.
    pub(crate) fn from_parts(name: String, initial: bool, accepting: bool, transitions: Vec<usize>)
        -> (state: DfaState)
        ensures
            state@ == (DfaStateModel {
                name: name@,
                initial,
                accepting,
                transitions: transitions@.map_values(|t: usize| t as int),
            }),
    {
        DfaState { name, initial, accepting, transitions }
    }

    /// The name of the state.
    pub fn name(&self) -> (name: &str)
        ensures
            name@ == self@.name,
    {
        self.name.as_str()
    }

    /// Whether the state is the initial state of its automaton.
    pub fn is_initial(&self) -> (flag: bool)
        ensures
            flag == self@.initial,
    {
        self.initial
    }

    /// Whether the state is accepting.
    pub fn is_accepting(&self) -> (flag: bool)
        ensures
            flag == self@.accepting,
    {
        self.accepting
    }

    /// The target state for each position of the alphabet.
    pub fn transitions(&self) -> (targets: &[usize])
        ensures
            targets@.map_values(|t: usize| t as int) == self@.transitions,
    {
        self.transitions.as_slice()
    }
}

/// A deterministic finite automaton: an alphabet, states with one transition
/// for each symbol, and an initial state.
#[derive(Debug, PartialEq, Eq)]
pub struct Dfa {
    pub(crate) alphabet: Vec<String>,
    pub(crate) states: Vec<DfaState>,
    pub(crate) initial_state: usize,
}

impl View for Dfa {
    type V = DfaModel;

    closed spec fn view(&self) -> DfaModel {
        dfa_model(self.alphabet@, self.states@, self.initial_state)
    }
}

/// The model of an automaton with the given parts.
pub open spec fn dfa_model(alphabet: Seq<String>, states: Seq<DfaState>, initial: usize)
    -> DfaModel {
    DfaModel {
        alphabet: tokens_of(alphabet),
        states: states.map_values(|s: DfaState| s@),
        initial: initial as int,
    }
}

impl Dfa {
    #[verifier::type_invariant]
    pub closed spec fn inv(&self) -> bool {
        self@.wf()
    }

    /// The automaton with the given parts.
    pub(crate) fn from_parts(alphabet: Vec<String>, states: Vec<DfaState>, initial_state: usize)
        -> (dfa: Dfa)
        requires
            dfa_model(alphabet@, states@, initial_state).wf(),
        ensures
            dfa@ == dfa_model(alphabet@, states@, initial_state),
    {
        Dfa { alphabet, states, initial_state }
    }

    /// The number of states.
    pub fn state_count(&self) -> (count: usize)
        ensures
            count == self@.states.len(),
            self@.wf(),
    {
        proof {
            use_type_invariant(self);
        }
        self.states.len()
    }

    /// The number of symbols of the alphabet.
    pub fn symbol_count(&self) -> (count: usize)
        ensures
            count == self@.alphabet.len(),
            self@.wf(),
    {
        proof {
            use_type_invariant(self);
        }
        self.alphabet.len()
    }

    /// The state that follows state `q` on the symbol at position `x`.
    pub fn target(&self, q: usize, x: usize) -> (target: usize)
        requires
            q < self@.states.len(),
            x < self@.alphabet.len(),
        ensures
            target == self@.states[q as int].transitions[x as int],
            target < self@.states.len(),
            self@.wf(),
    {
        proof {
            use_type_invariant(self);
            assert(self@.states[q as int].transitions[x as int]
                == self.states[q as int].transitions[x as int]);
        }
        self.states[q].transitions[x]
    }

    /// Whether state `q` is accepting.
    pub fn accepting(&self, q: usize) -> (flag: bool)
        requires
            q < self@.states.len(),
        ensures
            flag == self@.states[q as int].accepting,
    {
        self.states[q].accepting
    }

    /// The alphabet, in its declared order.
    pub fn alphabet(&self) -> (symbols: &[String])
        ensures
            tokens_of(symbols@) == self@.alphabet,
    {
        self.alphabet.as_slice()
    }

    /// The states, in their declared order.
    pub fn states(&self) -> (states: &[DfaState])
        ensures
            states@.map_values(|s: DfaState| s@) == self@.states,
            self@.wf(),
    {
        proof {
            use_type_invariant(self);
        }
        self.states.as_slice()
    }

    /// The initial state.
    pub fn initial_state(&self) -> (state: &DfaState)
        ensures
            state@ == self@.states[self@.initial],
            self@.wf(),
    {
        proof {
            use_type_invariant(self);
        }
        &self.states[self.initial_state]
    }

    /// The index of the initial state.
    pub fn initial_state_index(&self) -> (index: usize)
        ensures
            index == self@.initial,
            self@.wf(),
    {
        proof {
            use_type_invariant(self);
        }
        self.initial_state
    }

    /// Whether the automaton accepts the word made of the given tokens. A
    /// token outside the alphabet rejects the word.
    pub fn accepts(&self, input: &[&str]) -> (accepted: bool)
        ensures
            accepted == self@.accepts(word_of(input@)),
    {
        proof {
            use_type_invariant(self);
        }
        let ghost word = word_of(input@);
        let mut current: usize = self.initial_state;
        let mut i: usize = 0;
        assert(word.skip(0) =~= word);
        while i < input.len()
            invariant
                self@.wf(),
                word == word_of(input@),
                i <= input.len(),
                current < self.states.len(),
                self@.run(self@.initial, word) == self@.run(current as int, word.skip(i as int)),
            decreases input.len() - i,
        {
            let token: String = input[i].to_owned();
            proof {
                let rest = word.skip(i as int);
                assert(rest[0] == token@);
                assert(rest.drop_first() =~= word.skip(i + 1));
            }
            match find_symbol(self.alphabet.as_slice(), &token) {
                Some(x) => {
                    proof {
                        lemma_symbol_position(self@.alphabet, token@, x as int);
                        assert(self@.states[current as int].transitions[x as int]
                            == self.states[current as int].transitions[x as int]);
                    }
                    current = self.states[current].transitions[x];
                },
                None => {
                    return false;
                },
            }
            i += 1;
        }
        assert(word.skip(i as int).len() == 0);
        self.states[current].accepting
    }

    /// Turns every accepting state into a rejecting one and the reverse, so
    /// that the automaton accepts exactly the words over its alphabet that
    /// it rejected.
    pub fn invert(&mut self)
        ensures
            final(self)@ == old(self)@.inverted(),
    {
        proof {
            use_type_invariant(&*self);
        }
        let mut states: Vec<DfaState> = Vec::new();
        let mut q: usize = 0;
        while q < self.states.len()
            invariant
                q <= self.states.len(),
                states.len() == q,
                forall|p: int|
                    0 <= p < q ==> (#[trigger] states[p])@ == (DfaStateModel {
                        accepting: !self.states[p]@.accepting,
                        ..self.states[p]@
                    }),
            decreases self.states.len() - q,
        {
            let state = &self.states[q];
            states.push(
                DfaState {
                    name: state.name.clone(),
                    initial: state.initial,
                    accepting: !state.accepting,
                    transitions: state.transitions.clone(),
                },
            );
            q += 1;
        }
        let alphabet = clone_strings(self.alphabet.as_slice());
        proof {
            let after = dfa_model(alphabet@, states@, self.initial_state);
            assert(after.states =~= self@.inverted().states);
            assert(after == self@.inverted());
            assert(after.wf());
        }
        *self = Dfa { alphabet, states, initial_state: self.initial_state };
    }
}

impl DfaModel {
    /// The automaton with every accepting flag flipped.
    pub open spec fn inverted(self) -> DfaModel {
        DfaModel {
            states: self.states.map_values(
                |s: DfaStateModel| DfaStateModel { accepting: !s.accepting, ..s },
            ),
            ..self
        }
    }
}

} // verus!
