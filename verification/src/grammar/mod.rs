//! Context-free grammars.

use vstd::prelude::*;
use crate::alphabet::word_of;
use crate::parser::{GrammarModel, ProductionModel, GrammarSyntaxError, alternatives_of};
use crate::parser::grammar_syntax::grammar_of;

pub mod parse;

verus! {

/// A production of a grammar: a nonterminal symbol and the alternatives
/// that it can be rewritten to.
#[derive(Clone, Debug, PartialEq, Eq)]
pub struct Production<'a> {
    pub(crate) name: &'a str,
    pub(crate) alternatives: Vec<Vec<&'a str>>,
}

impl<'a> View for Production<'a> {
    type V = ProductionModel;

    closed spec fn view(&self) -> ProductionModel {
        ProductionModel { name: self.name@, alternatives: alternatives_of(self.alternatives@) }
    }
}

impl<'a> Production<'a> {
    /// The symbol that the production rewrites.
    pub fn name(&self) -> (name: &'a str)
        ensures
            name@ == self@.name,
    {
        self.name
    }

    /// The alternatives, each a list of symbols.
    pub fn alternatives(&self) -> (alternatives: &Vec<Vec<&'a str>>)
        ensures
            alternatives_of(alternatives@) == self@.alternatives,
    {
        &self.alternatives
    }
}

/// The productions that a list of productions stands for.
pub open spec fn production_models(productions: Seq<Production>) -> Seq<ProductionModel> {
    productions.map_values(|p: Production| p@)
}

/// A context-free grammar whose description has been checked: no symbol is
/// declared twice, the start symbol and the left sides of the productions
/// are nonterminal symbols, no nonterminal has two productions, and the
/// productions hold declared symbols only.
#[derive(Debug, PartialEq, Eq)]
pub struct Grammar<'a> {
    pub(crate) nonterminals: Vec<&'a str>,
    pub(crate) terminals: Vec<&'a str>,
    pub(crate) start: &'a str,
    pub(crate) productions: Vec<Production<'a>>,
}

impl<'a> View for Grammar<'a> {
    type V = GrammarModel;

    closed spec fn view(&self) -> GrammarModel {
        GrammarModel {
            nonterminals: word_of(self.nonterminals@),
            terminals: word_of(self.terminals@),
            start: self.start@,
            productions: production_models(self.productions@),
        }
    }
}

impl<'a> Clone for Grammar<'a> {
    fn clone(&self) -> (copy: Self)
        ensures
            copy@ == self@,
    {
        proof {
            use_type_invariant(self);
        }
        let nonterminals = self.nonterminals.clone();
        let terminals = self.terminals.clone();
        let mut productions: Vec<Production<'a>> = Vec::new();
        let mut k: usize = 0;
        while k < self.productions.len()
            invariant
                k <= self.productions.len(),
                productions.len() == k,
                forall|j: int| 0 <= j < k ==> (#[trigger] productions[j])@ == self.productions[j]@,
            decreases self.productions.len() - k,
        {
            let p = &self.productions[k];
            let copy = Production { name: p.name, alternatives: p.alternatives.clone() };
            assert(copy@.alternatives =~= p@.alternatives);
            productions.push(copy);
            k += 1;
        }
        proof {
            assert(word_of(nonterminals@) =~= word_of(self.nonterminals@));
            assert(word_of(terminals@) =~= word_of(self.terminals@));
            assert(production_models(productions@) =~= production_models(self.productions@));
        }
        Grammar { nonterminals, terminals, start: self.start, productions }
    }
}

impl<'a> Grammar<'a> {
    /// The nonterminal symbols, in their declared order.
    pub fn nonterminals(&self) -> (symbols: &Vec<&'a str>)
        ensures
            word_of(symbols@) == self@.nonterminals,
    {
        &self.nonterminals
    }

    /// The terminal symbols, in their declared order.
    pub fn terminals(&self) -> (symbols: &Vec<&'a str>)
        ensures
            word_of(symbols@) == self@.terminals,
    {
        &self.terminals
    }

    /// The start symbol.
    pub fn start(&self) -> (symbol: &'a str)
        ensures
            symbol@ == self@.start,
    {
        self.start
    }

    /// The productions, in their declared order.
    pub fn productions(&self) -> (productions: &Vec<Production<'a>>)
        ensures
            production_models(productions@) == self@.productions,
    {
        &self.productions
    }
}

/// Why a text gives no grammar.
#[derive(Debug, PartialEq, Eq)]
pub enum Error<'a> {
    /// The text is no description of a grammar.
    GrammarParse(GrammarSyntaxError),
    /// The text describes something that is no grammar.
    Grammar(parse::GrammarParseError<'a>),
}

/// Reads and checks the description of a grammar. The text is first taken
/// apart; where that fails, the error says what was looked for and where.
/// What was read is then checked; where that fails, the error is the first
/// fault of the description.
pub fn do_parse_grammar<'a>(file: &'a str) -> (outcome: Result<Grammar<'a>, Error<'a>>)
    ensures
        match grammar_of(file@) {
            Err((expected, position)) => outcome matches Err(Error::GrammarParse(e))
                && e.expected == expected && e.position == position,
            Ok(described) => match parse::grammar_fault(described) {
                Some(fault) => outcome matches Err(Error::Grammar(e)) && e@ == fault,
                None => outcome matches Ok(g) && g@ == described,
            },
        },
{
    match crate::parser::grammar(file) {
        Err(e) => Err(Error::GrammarParse(e)),
        Ok(parsed) => match Grammar::try_from(parsed) {
            Err(e) => Err(Error::Grammar(e)),
            Ok(g) => Ok(g),
        },
    }
}

} // verus!
