//! The errors of reading, checking and combining automata.

use vstd::prelude::*;

verus! {

/// What can be wrong with the description of an automaton, or with the
/// automata handed to an operation.
pub enum ErrorModel {
    Lex(int),
    NoHeader,
    DuplicateAlphabetSymbol(Seq<char>),
    DuplicateStateName(Seq<char>),
    MultipleInitialStates,
    NoInitialState,
    UnknownStateReference(Seq<char>),
    RowWidthMismatch(Seq<char>, int, int),
    AlphabetMismatch,
    EpsilonInDfa,
}

/// What can be wrong with the description of an automaton, or with the
/// automata handed to an operation.
#[derive(Clone, Debug, PartialEq, Eq)]
pub enum Error {
    /// A line of the text holds a word that cannot stand where it stands,
    /// or lacks one; the number is that of the line among the lines that
    /// hold words, counted from 0.
    Lex(usize),
    /// The text holds nothing but blank lines and comments.
    NoHeader,
    /// The symbol stands twice in the alphabet.
    DuplicateAlphabetSymbol(String),
    /// Two states bear the name.
    DuplicateStateName(String),
    /// More than one state is marked as initial.
    MultipleInitialStates,
    /// No state is marked as initial.
    NoInitialState,
    /// A transition names a state that does not exist.
    UnknownStateReference(String),
    /// The row of the state holds the first number of transitions, where
    /// the alphabet asks for the second.
    RowWidthMismatch(String, usize, usize),
    /// The two automata are not over the same alphabet.
    AlphabetMismatch,
    /// The alphabet of a deterministic automaton holds the empty move.
    EpsilonInDfa,
}

impl View for Error {
    type V = ErrorModel;

    open spec fn view(&self) -> ErrorModel {
        match self {
            Error::Lex(at) => ErrorModel::Lex(*at as int),
            Error::NoHeader => ErrorModel::NoHeader,
            Error::DuplicateAlphabetSymbol(s) => ErrorModel::DuplicateAlphabetSymbol(s@),
            Error::DuplicateStateName(s) => ErrorModel::DuplicateStateName(s@),
            Error::MultipleInitialStates => ErrorModel::MultipleInitialStates,
            Error::NoInitialState => ErrorModel::NoInitialState,
            Error::UnknownStateReference(s) => ErrorModel::UnknownStateReference(s@),
            Error::RowWidthMismatch(s, got, expected) => ErrorModel::RowWidthMismatch(
                s@,
                *got as int,
                *expected as int,
            ),
            Error::AlphabetMismatch => ErrorModel::AlphabetMismatch,
            Error::EpsilonInDfa => ErrorModel::EpsilonInDfa,
        }
    }
}

} // verus!
