//! Finite automata over alphabets of string tokens: deterministic and
//! nondeterministic automata, regular expressions, their textual table
//! format, and context-free grammar descriptions.
//!
//! Every automaton has a mathematical model, which `@` gives, and the
//! contracts of the operations are stated over these models: which words
//! an automaton accepts, and how the automaton that an operation returns
//! is made.

pub mod alphabet;
pub mod counting;
pub mod dfa;
pub mod draw;
pub mod error;
pub mod grammar;
pub mod graph;
pub mod graphemes;
pub mod lists;
pub mod nfa;
pub mod parser;
pub mod regex;
pub mod scan;
pub mod table_words;
pub mod text;
