//! From the table of a deterministic automaton to the automaton: the
//! second pass, which checks what the table describes.

use vstd::prelude::*;
use crate::alphabet::{tokens_of, word_of};
use crate::dfa::{Dfa, DfaModel, DfaState, DfaStateModel, dfa_model};
use crate::error::{Error, ErrorModel};
use crate::lists::{first_repeated, find_repeated, find_position, lemma_no_repeat};
use crate::parser::tables::{
    ParsedDfa,
    ParsedDfaModel,
    ParsedDfaStateModel,
    is_epsilon,
    parsed_dfa,
};
use crate::text::str_eq;

verus! {

/// The first word from `from` on that spells the move that reads nothing.
pub open spec fn first_epsilon(words: Seq<Seq<char>>, from: int) -> Option<int>
    decreases words.len() - from,
{
    if from < 0 || from >= words.len() {
        None
    } else if is_epsilon(words[from]) {
        Some(from)
    } else {
        first_epsilon(words, from + 1)
    }
}

/// The names of the states, in the order of the rows.
pub open spec fn state_names(p: ParsedDfaModel) -> Seq<Seq<char>> {
    p.states.map_values(|s: ParsedDfaStateModel| s.name)
}

/// The first row from `from` on that is marked as initial.
pub open spec fn first_initial(p: ParsedDfaModel, from: int) -> Option<int>
    decreases p.states.len() - from,
{
    if from < 0 || from >= p.states.len() {
        None
    } else if p.states[from].initial {
        Some(from)
    } else {
        first_initial(p, from + 1)
    }
}

/// The first of `cells` from `from` on that is not among `names`.
pub open spec fn first_missing(names: Seq<Seq<char>>, cells: Seq<Seq<char>>, from: int) -> Option<
    Seq<char>,
>
    decreases cells.len() - from,
{
    if from < 0 || from >= cells.len() {
        None
    } else if !names.contains(cells[from]) {
        Some(cells[from])
    } else {
        first_missing(names, cells, from + 1)
    }
}

/// The first target, row by row from row `from` on, that names no state.
pub open spec fn first_unknown(p: ParsedDfaModel, from: int) -> Option<Seq<char>>
    decreases p.states.len() - from,
{
    if from < 0 || from >= p.states.len() {
        None
    } else {
        match first_missing(state_names(p), p.states[from].transitions, 0) {
            Some(name) => Some(name),
            None => first_unknown(p, from + 1),
        }
    }
}

/// The first row from `from` on that has not one target for each symbol.
pub open spec fn first_bad_width(p: ParsedDfaModel, from: int) -> Option<int>
    decreases p.states.len() - from,
{
    if from < 0 || from >= p.states.len() {
        None
    } else if p.states[from].transitions.len() != p.head.len() {
        Some(from)
    } else {
        first_bad_width(p, from + 1)
    }
}

/// The first fault of a table, if it has one. The checks are made in this
/// order: the alphabet holds no move that reads nothing and no symbol
/// twice; no two states bear the same name; exactly one state is initial;
/// every target is a state; every row has one target for each symbol.
pub open spec fn dfa_fault(p: ParsedDfaModel) -> Option<ErrorModel> {
    if first_epsilon(p.head, 0) is Some {
        Some(ErrorModel::EpsilonInDfa)
    } else if let Some(symbol) = first_repeated(p.head, 0) {
        Some(ErrorModel::DuplicateAlphabetSymbol(symbol))
    } else if let Some(name) = first_repeated(state_names(p), 0) {
        Some(ErrorModel::DuplicateStateName(name))
    } else if first_initial(p, 0) is None {
        Some(ErrorModel::NoInitialState)
    } else if first_initial(p, first_initial(p, 0).unwrap() + 1) is Some {
        Some(ErrorModel::MultipleInitialStates)
    } else if let Some(name) = first_unknown(p, 0) {
        Some(ErrorModel::UnknownStateReference(name))
    } else if let Some(row) = first_bad_width(p, 0) {
        Some(
            ErrorModel::RowWidthMismatch(
                p.states[row].name,
                p.states[row].transitions.len() as int,
                p.head.len() as int,
            ),
        )
    } else {
        None
    }
}

/// The automaton that a table without fault describes: the states stand
/// in the order of the rows, and each target is the row that bears its
/// name.
pub open spec fn dfa_from(p: ParsedDfaModel) -> DfaModel {
    DfaModel {
        alphabet: p.head,
        states: p.states.map_values(
            |s: ParsedDfaStateModel|
                DfaStateModel {
                    name: s.name,
                    initial: s.initial,
                    accepting: s.accepting,
                    transitions: s.transitions.map_values(
                        |c: Seq<char>| state_names(p).index_of(c),
                    ),
                },
        ),
        initial: first_initial(p, 0).unwrap(),
    }
}

/// The automaton that a text describes, or the first error of the text.
pub open spec fn dfa_of_text(text: Seq<char>) -> Result<DfaModel, ErrorModel> {
    match parsed_dfa(text) {
        Err(e) => Err(e),
        Ok(p) => match dfa_fault(p) {
            Some(e) => Err(e),
            None => Ok(dfa_from(p)),
        },
    }
}

/// No row from the first initial row on, but that row, is initial.
pub proof fn lemma_one_initial(p: ParsedDfaModel, from: int)
    requires
        0 <= from <= p.states.len(),
        first_initial(p, from) is None,
    ensures
        forall|q: int| from <= q < p.states.len() ==> !(#[trigger] p.states[q]).initial,
    decreases p.states.len() - from,
{
    if from < p.states.len() {
        lemma_one_initial(p, from + 1);
    }
}

/// The first initial row is initial, and no row before it is.
pub proof fn lemma_first_initial(p: ParsedDfaModel, from: int)
    requires
        0 <= from <= p.states.len(),
        first_initial(p, from) is Some,
    ensures
        from <= first_initial(p, from).unwrap() < p.states.len(),
        p.states[first_initial(p, from).unwrap()].initial,
        forall|q: int|
            from <= q < first_initial(p, from).unwrap() ==> !(#[trigger] p.states[q]).initial,
    decreases p.states.len() - from,
{
    if from < p.states.len() && !p.states[from].initial {
        lemma_first_initial(p, from + 1);
    }
}

/// Where no target is missing, every target names a state.
pub proof fn lemma_none_missing(names: Seq<Seq<char>>, cells: Seq<Seq<char>>, from: int)
    requires
        0 <= from <= cells.len(),
        first_missing(names, cells, from) is None,
    ensures
        forall|k: int| from <= k < cells.len() ==> names.contains(#[trigger] cells[k]),
    decreases cells.len() - from,
{
    if from < cells.len() {
        lemma_none_missing(names, cells, from + 1);
    }
}

/// Where no target is unknown, every target of every row names a state.
pub proof fn lemma_none_unknown(p: ParsedDfaModel, from: int)
    requires
        0 <= from <= p.states.len(),
        first_unknown(p, from) is None,
    ensures
        forall|q: int, k: int|
            from <= q < p.states.len() && 0 <= k < p.states[q].transitions.len()
                ==> state_names(p).contains(#[trigger] p.states[q].transitions[k]),
    decreases p.states.len() - from,
{
    if from < p.states.len() {
        lemma_none_unknown(p, from + 1);
        lemma_none_missing(state_names(p), p.states[from].transitions, 0);
    }
}

/// Where no row has a bad width, every row has one target for each symbol.
pub proof fn lemma_widths(p: ParsedDfaModel, from: int)
    requires
        0 <= from <= p.states.len(),
        first_bad_width(p, from) is None,
    ensures
        forall|q: int|
            from <= q < p.states.len() ==> (#[trigger] p.states[q]).transitions.len()
                == p.head.len(),
    decreases p.states.len() - from,
{
    if from < p.states.len() {
        lemma_widths(p, from + 1);
    }
}

/// A table without fault describes a well-formed automaton.
pub proof fn lemma_dfa_from(p: ParsedDfaModel)
    requires
        dfa_fault(p) is None,
    ensures
        dfa_from(p).wf(),
{
    let d = dfa_from(p);
    let names = state_names(p);
    lemma_no_repeat(p.head, 0);
    lemma_first_initial(p, 0);
    let initial = first_initial(p, 0).unwrap();
    lemma_one_initial(p, initial + 1);
    lemma_none_unknown(p, 0);
    lemma_widths(p, 0);
    assert forall|q: int, x: int|
        0 <= q < d.states.len() && 0 <= x < d.alphabet.len() implies 0
        <= #[trigger] d.states[q].transitions[x] < d.states.len() by {
        let c = p.states[q].transitions[x];
        assert(names.contains(c));
    }
}

/// Whether the word spells the move that reads nothing.
pub fn epsilon_word(w: &str) -> (yes: bool)
    ensures
        yes == is_epsilon(w@),
{
    str_eq(w, "\u{3b5}") || str_eq(w, "eps")
}

/// Owned copies of the words.
pub fn owned_words(words: &Vec<&str>) -> (owned: Vec<String>)
    ensures
        tokens_of(owned@) == word_of(words@),
{
    let mut owned: Vec<String> = Vec::new();
    let mut i: usize = 0;
    while i < words.len()
        invariant
            i <= words.len(),
            owned.len() == i,
            forall|j: int| 0 <= j < i ==> (#[trigger] owned[j])@ == words[j]@,
        decreases words.len() - i,
    {
        owned.push(words[i].to_owned());
        i += 1;
    }
    assert(tokens_of(owned@) =~= word_of(words@));
    owned
}

impl Dfa {
    /// Checks the table that was read: the automaton that it describes, or
    /// the first fault of the table.
    #[verifier::loop_isolation(false)]
    #[verifier::rlimit(50)]
    pub fn try_from(parsed: ParsedDfa) -> (checked: Result<Dfa, Error>)
        ensures
            match checked {
                Ok(d) => dfa_fault(parsed@) is None && d@ == dfa_from(parsed@) && d@.wf(),
                Err(e) => dfa_fault(parsed@) == Some(e@),
            },
    {
        let ghost p = parsed@;
        let ghost names_model = state_names(p);
        let mut i: usize = 0;
        while i < parsed.head.len()
            invariant
                p == parsed@,
                i <= parsed.head.len(),
                first_epsilon(p.head, 0) == first_epsilon(p.head, i as int),
            decreases parsed.head.len() - i,
        {
            assert(p.head[i as int] == parsed.head[i as int]@);
            if epsilon_word(parsed.head[i]) {
                return Err(Error::EpsilonInDfa);
            }
            i += 1;
        }
        if let Some(symbol) = find_repeated(&parsed.head) {
            return Err(Error::DuplicateAlphabetSymbol(symbol.to_owned()));
        }
        let mut names: Vec<&str> = Vec::new();
        let mut q: usize = 0;
        while q < parsed.states.len()
            invariant
                p == parsed@,
                q <= parsed.states.len(),
                names.len() == q,
                forall|j: int| 0 <= j < q ==> (#[trigger] names[j])@ == p.states[j].name,
            decreases parsed.states.len() - q,
        {
            assert(p.states[q as int] == parsed.states[q as int]@);
            names.push(parsed.states[q].name);
            q += 1;
        }
        assert(word_of(names@) =~= names_model);
        if let Some(name) = find_repeated(&names) {
            return Err(Error::DuplicateStateName(name.to_owned()));
        }
        let mut initial: usize = 0;
        while initial < parsed.states.len() && !parsed.states[initial].initial
            invariant
                p == parsed@,
                initial <= parsed.states.len(),
                first_initial(p, 0) == first_initial(p, initial as int),
            decreases parsed.states.len() - initial,
        {
            assert(p.states[initial as int] == parsed.states[initial as int]@);
            initial += 1;
        }
        if initial >= parsed.states.len() {
            return Err(Error::NoInitialState);
        }
        assert(p.states[initial as int] == parsed.states[initial as int]@);
        let mut other: usize = initial + 1;
        while other < parsed.states.len() && !parsed.states[other].initial
            invariant
                p == parsed@,
                initial < other <= parsed.states.len(),
                first_initial(p, initial + 1) == first_initial(p, other as int),
            decreases parsed.states.len() - other,
        {
            assert(p.states[other as int] == parsed.states[other as int]@);
            other += 1;
        }
        if other < parsed.states.len() {
            assert(p.states[other as int] == parsed.states[other as int]@);
            return Err(Error::MultipleInitialStates);
        }
        let mut targets: Vec<Vec<usize>> = Vec::new();
        q = 0;
        while q < parsed.states.len()
            invariant
                p == parsed@,
                names_model == state_names(p),
                word_of(names@) == names_model,
                first_repeated(names_model, 0) is None,
                q <= parsed.states.len(),
                targets.len() == q,
                first_unknown(p, 0) == first_unknown(p, q as int),
                forall|j: int|
                    0 <= j < q ==> (#[trigger] targets[j])@.map_values(|t: usize| t as int)
                        == dfa_from(p).states[j].transitions,
            decreases parsed.states.len() - q,
        {
            let cells = &parsed.states[q].transitions;
            assert(p.states[q as int] == parsed.states[q as int]@);
            let mut row: Vec<usize> = Vec::new();
            let mut k: usize = 0;
            while k < cells.len()
                invariant
                    p == parsed@,
                    names_model == state_names(p),
                    word_of(names@) == names_model,
                    first_repeated(names_model, 0) is None,
                    q < parsed.states.len(),
                    word_of(cells@) == p.states[q as int].transitions,
                    k <= cells.len(),
                    row.len() == k,
                    first_missing(names_model, word_of(cells@), 0) == first_missing(
                        names_model,
                        word_of(cells@),
                        k as int,
                    ),
                    forall|j: int|
                        0 <= j < k ==> #[trigger] row[j] == names_model.index_of(
                            word_of(cells@)[j],
                        ),
                decreases cells.len() - k,
            {
                assert(word_of(cells@)[k as int] == cells[k as int]@);
                match find_position(&names, cells[k]) {
                    Some(at) => {
                        proof {
                            lemma_no_repeat(names_model, 0);
                            let chosen = names_model.index_of(cells[k as int]@);
                            assert(names_model.contains(cells[k as int]@));
                            if chosen < at {
                                assert(names_model[chosen] != names_model[at as int]);
                            } else if at < chosen {
                                assert(names_model[at as int] != names_model[chosen]);
                            }
                        }
                        row.push(at);
                    },
                    None => {
                        return Err(Error::UnknownStateReference(cells[k].to_owned()));
                    },
                }
                k += 1;
            }
            assert(row@.map_values(|t: usize| t as int) =~= dfa_from(
                p,
            ).states[q as int].transitions);
            targets.push(row);
            q += 1;
        }
        q = 0;
        while q < parsed.states.len()
            invariant
                p == parsed@,
                q <= parsed.states.len(),
                first_bad_width(p, 0) == first_bad_width(p, q as int),
            decreases parsed.states.len() - q,
        {
            assert(p.states[q as int] == parsed.states[q as int]@);
            if parsed.states[q].transitions.len() != parsed.head.len() {
                return Err(
                    Error::RowWidthMismatch(
                        parsed.states[q].name.to_owned(),
                        parsed.states[q].transitions.len(),
                        parsed.head.len(),
                    ),
                );
            }
            q += 1;
        }
        let mut states: Vec<DfaState> = Vec::new();
        q = 0;
        while q < parsed.states.len()
            invariant
                p == parsed@,
                q <= parsed.states.len(),
                targets.len() == parsed.states.len(),
                states.len() == q,
                forall|j: int|
                    0 <= j < targets.len() ==> (#[trigger] targets[j])@.map_values(
                        |t: usize| t as int,
                    ) == dfa_from(p).states[j].transitions,
                forall|j: int| 0 <= j < q ==> (#[trigger] states[j])@ == dfa_from(p).states[j],
            decreases parsed.states.len() - q,
        {
            assert(p.states[q as int] == parsed.states[q as int]@);
            let row = crate::alphabet::clone_indices(targets[q].as_slice());
            states.push(
                DfaState::from_parts(
                    parsed.states[q].name.to_owned(),
                    parsed.states[q].initial,
                    parsed.states[q].accepting,
                    row,
                ),
            );
            q += 1;
        }
        let alphabet = owned_words(&parsed.head);
        proof {
            assert(dfa_fault(p) is None);
            lemma_dfa_from(p);
            let d = dfa_model(alphabet@, states@, initial);
            assert(d.states =~= dfa_from(p).states);
            assert(d == dfa_from(p));
        }
        Ok(Dfa::from_parts(alphabet, states, initial))
    }

    /// Reads and checks the table of an automaton: the automaton that the
    /// text describes, or the first error of the text.
    pub fn parse(text: &str) -> (outcome: Result<Dfa, Error>)
        ensures
            match outcome {
                Ok(d) => dfa_of_text(text@) == Ok::<DfaModel, ErrorModel>(d@) && d@.wf(),
                Err(e) => dfa_of_text(text@) == Err::<DfaModel, ErrorModel>(e@),
            },
    {
        match crate::parser::dfa(text) {
            Err(e) => Err(e),
            Ok(parsed) => Dfa::try_from(parsed),
        }
    }
}

} // verus!
