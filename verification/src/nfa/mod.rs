//! Nondeterministic finite automata, with or without moves on the empty word.

pub mod blocks;
pub mod convert;
pub mod epsilon;
pub mod fork;
pub mod pair_table;
pub mod pairs;
pub mod parse;
pub mod product;
pub mod reach;
pub mod round_trip;
pub mod run;
pub mod table;
pub mod words;

use vstd::prelude::*;
use crate::alphabet::{tokens_of, symbol_position, clone_strings, clone_indices};
use crate::graph::{reach, reached_from};

verus! {

/// What a state of a nondeterministic automaton holds.
pub struct NfaStateModel {
    pub name: Seq<char>,
    pub initial: bool,
    pub accepting: bool,
    /// The targets of the moves that read nothing.
    pub epsilon_transitions: Seq<int>,
    /// The targets for each position of the alphabet, in their listed order.
    pub transitions: Seq<Seq<int>>,
}

/// The mathematical content of a nondeterministic automaton.
pub struct NfaModel {
    pub alphabet: Seq<Seq<char>>,
    pub states: Seq<NfaStateModel>,
    pub initial: int,
}

impl NfaModel {
    /// The alphabet has no duplicates, there is a state, exactly the state at
    /// `initial` bears the initial flag, every state has one list of targets
    /// for each symbol, and every target is a state.
    pub open spec fn wf(self) -> bool {
        &&& self.alphabet.no_duplicates()
        &&& 0 <= self.initial < self.states.len()
        &&& forall|q: int|
            0 <= q < self.states.len() ==> (#[trigger] self.states[q]).initial == (q
                == self.initial)
        &&& forall|q: int|
            0 <= q < self.states.len() ==> (#[trigger] self.states[q]).transitions.len()
                == self.alphabet.len()
        &&& forall|q: int, x: int, k: int|
            0 <= q < self.states.len() && 0 <= x < self.alphabet.len() && 0 <= k
                < self.states[q].transitions[x].len() ==> 0
                <= #[trigger] self.states[q].transitions[x][k] < self.states.len()
        &&& forall|q: int, k: int|
            0 <= q < self.states.len() && 0 <= k < self.states[q].epsilon_transitions.len() ==> 0
                <= #[trigger] self.states[q].epsilon_transitions[k] < self.states.len()
    }

    /// The graph of the moves that read nothing.
    pub open spec fn epsilon_graph(self) -> Seq<Seq<int>> {
        self.states.map_values(|s: NfaStateModel| s.epsilon_transitions)
    }

    /// The states that moves that read nothing lead to from a state of
    /// `set`, the states of `set` included.
    pub open spec fn closure(self, set: Set<int>) -> Set<int> {
        reached_from(self.epsilon_graph(), set)
    }

    /// The states to which the symbol at position `x` leads from a state
    /// of `set`.
    pub open spec fn moved(self, set: Set<int>, x: int) -> Set<int> {
        Set::new(
            |q: int|
                exists|p: int|
                    0 <= p < self.states.len() && set.contains(p)
                        && self.states[p].transitions[x].contains(q),
        )
    }

    /// The states in which the automaton can be after it has read `token`
    /// in a state of `set`; none if the token is not in the alphabet.
    pub open spec fn step(self, set: Set<int>, token: Seq<char>) -> Set<int> {
        match symbol_position(self.alphabet, token) {
            Some(x) => self.closure(self.moved(set, x)),
            None => Set::empty(),
        }
    }

    /// The states in which the automaton can be after it has read `word`
    /// in a state of `set`.
    pub open spec fn run(self, set: Set<int>, word: Seq<Seq<char>>) -> Set<int>
        decreases word.len(),
    {
        if word.len() == 0 {
            set
        } else {
            self.run(self.step(set, word[0]), word.drop_first())
        }
    }

    /// The states in which the automaton can be before it reads anything.
    pub open spec fn start(self) -> Set<int> {
        self.closure(set![self.initial])
    }

    /// Whether `set` holds an accepting state.
    pub open spec fn accepting_set(self, set: Set<int>) -> bool {
        exists|q: int| 0 <= q < self.states.len() && set.contains(q) && self.states[q].accepting
    }

    /// Whether the automaton accepts `word`.
    pub open spec fn accepts(self, word: Seq<Seq<char>>) -> bool {
        self.accepting_set(self.run(self.start(), word))
    }

    /// Whether the two automata accept the same words.
    pub open spec fn equivalent(self, other: NfaModel) -> bool {
        forall|word: Seq<Seq<char>>| self.accepts(word) == other.accepts(word)
    }

    /// Whether a state has a move that reads nothing.
    pub open spec fn has_epsilon_moves(self) -> bool {
        exists|q: int|
            0 <= q < self.states.len() && (#[trigger] self.states[q]).epsilon_transitions.len() > 0
    }
}

/// The targets that a list of indices stands for.
pub open spec fn targets_of(indices: Seq<usize>) -> Seq<int> {
    indices.map_values(|t: usize| t as int)
}

/// The lists of targets that a table row stands for.
pub open spec fn target_lists_of(row: Seq<Vec<usize>>) -> Seq<Seq<int>> {
    row.map_values(|targets: Vec<usize>| targets_of(targets@))
}

/// A state of a nondeterministic automaton.
#[derive(Debug, PartialEq, Eq)]
pub struct NfaState {
    pub(crate) name: String,
    pub(crate) initial: bool,
    pub(crate) accepting: bool,
    pub(crate) epsilon_transitions: Vec<usize>,
    pub(crate) transitions: Vec<Vec<usize>>,
}

impl View for NfaState {
    type V = NfaStateModel;

    closed spec fn view(&self) -> NfaStateModel {
        NfaStateModel {
            name: self.name@,
            initial: self.initial,
            accepting: self.accepting,
            epsilon_transitions: targets_of(self.epsilon_transitions@),
            transitions: target_lists_of(self.transitions@),
        }
    }
}

/// A copy of a table row.
pub fn clone_row(row: &Vec<Vec<usize>>) -> (copy: Vec<Vec<usize>>)
    ensures
        target_lists_of(copy@) == target_lists_of(row@),
        copy@.len() == row@.len(),
        forall|x: int| 0 <= x < row@.len() ==> (#[trigger] copy@[x])@ == row@[x]@,
{
    let mut copy: Vec<Vec<usize>> = Vec::new();
    let mut x: usize = 0;
    while x < row.len()
        invariant
            x <= row.len(),
            copy.len() == x,
            forall|y: int| 0 <= y < x ==> (#[trigger] copy@[y])@ == row@[y]@,
        decreases row.len() - x,
    {
        copy.push(clone_indices(row[x].as_slice()));
        x += 1;
    }
    assert(target_lists_of(copy@) =~= target_lists_of(row@));
    copy
}

impl Clone for NfaState {
    fn clone(&self) -> (copy: Self)
        ensures
            copy@ == self@,
    {
        NfaState {
            name: self.name.clone(),
            initial: self.initial,
            accepting: self.accepting,
            epsilon_transitions: clone_indices(self.epsilon_transitions.as_slice()),
            transitions: clone_row(&self.transitions),
        }
    }
}

impl NfaState {
    /// The state with the given parts.
    pub(crate) fn from_parts(
        name: String,
        initial: bool,
        accepting: bool,
        epsilon_transitions: Vec<usize>,
        transitions: Vec<Vec<usize>>,
    ) -> (state: NfaState)
        ensures
            state@ == (NfaStateModel {
                name: name@,
                initial,
                accepting,
                epsilon_transitions: targets_of(epsilon_transitions@),
                transitions: target_lists_of(transitions@),
            }),
    {
        NfaState { name, initial, accepting, epsilon_transitions, transitions }
    }

    /// The name of the state.
    pub fn name(&self) -> (name: &str)
        ensures
            name@ == self@.name,
    {
        self.name.as_str()
    }

    /// Whether the state is the initial state of its automaton.
    pub fn is_initial(&self) -> (flag: bool)
        ensures
            flag == self@.initial,
    {
        self.initial
    }

    /// Whether the state is accepting.
    pub fn is_accepting(&self) -> (flag: bool)
        ensures
            flag == self@.accepting,
    {
        self.accepting
    }

    /// The targets of the moves that read nothing.
    pub fn epsilon_transitions(&self) -> (targets: &[usize])
        ensures
            targets_of(targets@) == self@.epsilon_transitions,
    {
        self.epsilon_transitions.as_slice()
    }

    /// The targets for each position of the alphabet.
    pub fn transitions(&self) -> (row: &[Vec<usize>])
        ensures
            target_lists_of(row@) == self@.transitions,
    {
        self.transitions.as_slice()
    }
}

/// The model of an automaton with the given parts.
pub open spec fn nfa_model(alphabet: Seq<String>, states: Seq<NfaState>, initial: usize)
    -> NfaModel {
    NfaModel {
        alphabet: tokens_of(alphabet),
        states: states.map_values(|s: NfaState| s@),
        initial: initial as int,
    }
}

/// A nondeterministic finite automaton: an alphabet, states with a list of
/// targets for each symbol and for the empty move, and an initial state.
#[derive(Debug, PartialEq, Eq)]
pub struct Nfa {
    pub(crate) alphabet: Vec<String>,
    pub(crate) states: Vec<NfaState>,
    pub(crate) initial_state: usize,
}

impl View for Nfa {
    type V = NfaModel;

    closed spec fn view(&self) -> NfaModel {
        nfa_model(self.alphabet@, self.states@, self.initial_state)
    }
}

impl Clone for Nfa {
    fn clone(&self) -> (copy: Self)
        ensures
            copy@ == self@,
    {
        proof {
            use_type_invariant(self);
        }
        let mut states: Vec<NfaState> = Vec::new();
        let mut q: usize = 0;
        while q < self.states.len()
            invariant
                q <= self.states.len(),
                states.len() == q,
                forall|p: int| 0 <= p < q ==> (#[trigger] states[p])@ == self.states[p]@,
            decreases self.states.len() - q,
        {
            states.push(self.states[q].clone());
            q += 1;
        }
        let alphabet = clone_strings(self.alphabet.as_slice());
        proof {
            assert(nfa_model(alphabet@, states@, self.initial_state).states =~= self@.states);
        }
        Nfa { alphabet, states, initial_state: self.initial_state }
    }
}

impl Nfa {
    #[verifier::type_invariant]
    pub closed spec fn inv(&self) -> bool {
        self@.wf()
    }

    /// The automaton with the given parts.
    pub(crate) fn from_parts(alphabet: Vec<String>, states: Vec<NfaState>, initial_state: usize)
        -> (nfa: Nfa)
        requires
            nfa_model(alphabet@, states@, initial_state).wf(),
        ensures
            nfa@ == nfa_model(alphabet@, states@, initial_state),
    {
        Nfa { alphabet, states, initial_state }
    }

    /// The number of states.
    pub fn state_count(&self) -> (count: usize)
        ensures
            count == self@.states.len(),
            self@.wf(),
    {
        proof {
            use_type_invariant(self);
        }
        self.states.len()
    }

    /// The number of symbols of the alphabet.
    pub fn symbol_count(&self) -> (count: usize)
        ensures
            count == self@.alphabet.len(),
            self@.wf(),
    {
        proof {
            use_type_invariant(self);
        }
        self.alphabet.len()
    }

    /// The states that follow state `q` on the symbol at position `x`.
    pub fn targets(&self, q: usize, x: usize) -> (targets: &Vec<usize>)
        requires
            q < self@.states.len(),
            x < self@.alphabet.len(),
        ensures
            targets_of(targets@) == self@.states[q as int].transitions[x as int],
            forall|k: int| 0 <= k < targets.len() ==> #[trigger] targets[k] < self@.states.len(),
            self@.wf(),
    {
        proof {
            use_type_invariant(self);
            assert(self@.states[q as int].transitions[x as int] == targets_of(
                self.states[q as int].transitions[x as int]@,
            ));
            assert forall|k: int| 0 <= k < self.states[q as int].transitions[x as int].len() implies
                #[trigger] self.states[q as int].transitions[x as int][k] < self@.states.len() by {
                assert(self@.states[q as int].transitions[x as int][k]
                    == self.states[q as int].transitions[x as int][k]);
            }
        }
        &self.states[q].transitions[x]
    }

    /// The states that follow state `q` on a move that reads nothing.
    pub fn epsilon_targets(&self, q: usize) -> (targets: &Vec<usize>)
        requires
            q < self@.states.len(),
        ensures
            targets_of(targets@) == self@.states[q as int].epsilon_transitions,
            forall|k: int| 0 <= k < targets.len() ==> #[trigger] targets[k] < self@.states.len(),
            self@.wf(),
    {
        proof {
            use_type_invariant(self);
            assert forall|k: int| 0 <= k < self.states[q as int].epsilon_transitions.len() implies
                #[trigger] self.states[q as int].epsilon_transitions[k] < self@.states.len() by {
                assert(self@.states[q as int].epsilon_transitions[k]
                    == self.states[q as int].epsilon_transitions[k]);
            }
        }
        &self.states[q].epsilon_transitions
    }

    /// Whether state `q` is accepting.
    pub fn accepting(&self, q: usize) -> (flag: bool)
        requires
            q < self@.states.len(),
        ensures
            flag == self@.states[q as int].accepting,
    {
        self.states[q].accepting
    }

    /// The alphabet, in its declared order, without the empty move.
    pub fn alphabet(&self) -> (symbols: &[String])
        ensures
            tokens_of(symbols@) == self@.alphabet,
    {
        self.alphabet.as_slice()
    }

    /// The states, in their declared order.
    pub fn states(&self) -> (states: &[NfaState])
        ensures
            states@.map_values(|s: NfaState| s@) == self@.states,
            self@.wf(),
    {
        proof {
            use_type_invariant(self);
        }
        self.states.as_slice()
    }

    /// The index of the initial state.
    pub fn initial_state_index(&self) -> (index: usize)
        ensures
            index == self@.initial,
            self@.wf(),
    {
        proof {
            use_type_invariant(self);
        }
        self.initial_state
    }
}

} // verus!
