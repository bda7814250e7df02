//! Reading the textual formats: the first pass, which takes a text apart
//! without checking what it describes.

use vstd::prelude::*;
use crate::text::chars_of;

pub mod grammar_syntax;
pub mod table_syntax;
pub mod tables;

verus! {

/// What a production holds: the symbol it rewrites, and the alternatives,
/// each a list of symbols.
pub struct ProductionModel {
    pub name: Seq<char>,
    pub alternatives: Seq<Seq<Seq<char>>>,
}

/// What the description of a grammar holds.
pub struct GrammarModel {
    pub nonterminals: Seq<Seq<char>>,
    pub terminals: Seq<Seq<char>>,
    pub start: Seq<char>,
    pub productions: Seq<ProductionModel>,
}

/// The lists of symbols that a list of lists of string slices stands for.
pub open spec fn alternatives_of(alternatives: Seq<Vec<&str>>) -> Seq<Seq<Seq<char>>> {
    alternatives.map_values(|a: Vec<&str>| crate::alphabet::word_of(a@))
}

/// A production as it was read, not yet checked.
#[derive(Clone, Debug, PartialEq, Eq)]
pub struct ParsedProduction<'a> {
    pub name: &'a str,
    pub alternatives: Vec<Vec<&'a str>>,
}

impl<'a> View for ParsedProduction<'a> {
    type V = ProductionModel;

    open spec fn view(&self) -> ProductionModel {
        ProductionModel { name: self.name@, alternatives: alternatives_of(self.alternatives@) }
    }
}

/// The productions that a list of read productions stands for.
pub open spec fn productions_of(productions: Seq<ParsedProduction>) -> Seq<ProductionModel> {
    productions.map_values(|p: ParsedProduction| p@)
}

/// A grammar as it was read, not yet checked.
#[derive(Clone, Debug, PartialEq, Eq)]
pub struct ParsedGrammar<'a> {
    pub nonterminals: Vec<&'a str>,
    pub terminals: Vec<&'a str>,
    pub start: &'a str,
    pub productions: Vec<ParsedProduction<'a>>,
}

impl<'a> View for ParsedGrammar<'a> {
    type V = GrammarModel;

    open spec fn view(&self) -> GrammarModel {
        GrammarModel {
            nonterminals: crate::alphabet::word_of(self.nonterminals@),
            terminals: crate::alphabet::word_of(self.terminals@),
            start: self.start@,
            productions: productions_of(self.productions@),
        }
    }
}

/// The part of a grammar's description that was looked for where reading
/// stopped.
#[derive(Clone, Copy, Debug, PartialEq, Eq, Structural)]
pub enum Expected {
    /// The list of nonterminal symbols.
    Nonterminals,
    /// The list of terminal symbols.
    Terminals,
    /// The start symbol.
    Start,
    /// The end of the line, after blanks or a comment at most.
    LineEnd,
    /// A production.
    Production,
    /// The end of the text.
    End,
}

/// Why a text is no description of a grammar: what was looked for, and the
/// position, counted in characters, at which it was not found.
#[derive(Clone, Copy, Debug, PartialEq, Eq, Structural)]
pub struct GrammarSyntaxError {
    pub expected: Expected,
    pub position: usize,
}

/// Reads the description of a grammar: the nonterminal symbols, the
/// terminal symbols, the start symbol and the productions, in this order,
/// each on lines of its own, with blank lines and comments between them.
pub fn grammar<'a>(input: &'a str) -> (parsed: Result<ParsedGrammar<'a>, GrammarSyntaxError>)
    ensures
        match parsed {
            Ok(g) => grammar_syntax::grammar_of(input@) == Ok::<
                GrammarModel,
                (Expected, int),
            >(g@),
            Err(e) => grammar_syntax::grammar_of(input@) == Err::<GrammarModel, (Expected, int)>(
                (e.expected, e.position as int),
            ),
        },
{
    let chars = chars_of(input);
    grammar_syntax::full_grammar(input, &chars)
}

/// Reads the table of a deterministic automaton. What the table describes
/// is not checked.
pub fn dfa<'a>(input: &'a str) -> (parsed: Result<tables::ParsedDfa<'a>, crate::error::Error>)
    ensures
        match parsed {
            Ok(p) => tables::parsed_dfa(input@) == Ok::<
                tables::ParsedDfaModel,
                crate::error::ErrorModel,
            >(p@),
            Err(e) => tables::parsed_dfa(input@) == Err::<
                tables::ParsedDfaModel,
                crate::error::ErrorModel,
            >(e@),
        },
{
    let chars = chars_of(input);
    let rows = table_syntax::table_rows(input, &chars, false);
    tables::dfa_from_rows(&rows)
}

/// Reads the table of a nondeterministic automaton. What the table
/// describes is not checked.
pub fn nfa<'a>(input: &'a str) -> (parsed: Result<tables::ParsedNfa<'a>, crate::error::Error>)
    ensures
        match parsed {
            Ok(p) => tables::parsed_nfa(input@) == Ok::<
                tables::ParsedNfaModel,
                crate::error::ErrorModel,
            >(p@),
            Err(e) => tables::parsed_nfa(input@) == Err::<
                tables::ParsedNfaModel,
                crate::error::ErrorModel,
            >(e@),
        },
{
    let chars = chars_of(input);
    let rows = table_syntax::table_rows(input, &chars, true);
    tables::nfa_from_rows(&rows)
}

} // verus!
