//! Checking the description of a grammar.

use vstd::prelude::*;
use crate::alphabet::word_of;
use crate::grammar::{Grammar, Production, production_models};
use crate::parser::{GrammarModel, ProductionModel, ParsedGrammar, alternatives_of, productions_of};
use crate::text::str_eq;
use crate::lists::{first_repeated, first_shared, holds, find_repeated, find_shared};

verus! {

/// What can be wrong with the description of a grammar.
pub enum GrammarFault {
    /// The symbol occurs twice among the nonterminal symbols.
    DuplicateNonterminal(Seq<char>),
    /// The symbol occurs twice among the terminal symbols.
    DuplicateTerminal(Seq<char>),
    /// The symbol is declared both as a nonterminal and as a terminal.
    TerminalNonterminal(Seq<char>),
    /// The start symbol is no nonterminal symbol.
    StartNotNonterminal,
    /// The symbol has productions but is no nonterminal symbol.
    ProductionsNotNonterminal(Seq<char>),
    /// The symbol occurs in a production but is not declared.
    ProductionsNotSymbol(Seq<char>),
    /// The symbol stands on the left of two productions.
    DuplicateProduction(Seq<char>),
}

/// What can be wrong with the description of a grammar.
#[derive(Debug, PartialEq, Eq)]
pub enum GrammarParseError<'a> {
    /// The symbol occurs twice among the nonterminal symbols.
    DuplicateNonterminal(&'a str),
    /// The symbol occurs twice among the terminal symbols.
    DuplicateTerminal(&'a str),
    /// The symbol is declared both as a nonterminal and as a terminal.
    TerminalNonterminal(&'a str),
    /// The start symbol is no nonterminal symbol.
    StartNotNonterminal,
    /// The symbol has productions but is no nonterminal symbol.
    ProductionsNotNonterminal(&'a str),
    /// The symbol occurs in a production but is not declared.
    ProductionsNotSymbol(&'a str),
    /// The symbol stands on the left of two productions.
    DuplicateProduction(&'a str),
}

impl<'a> View for GrammarParseError<'a> {
    type V = GrammarFault;

    open spec fn view(&self) -> GrammarFault {
        match self {
            GrammarParseError::DuplicateNonterminal(s) => GrammarFault::DuplicateNonterminal(s@),
            GrammarParseError::DuplicateTerminal(s) => GrammarFault::DuplicateTerminal(s@),
            GrammarParseError::TerminalNonterminal(s) => GrammarFault::TerminalNonterminal(s@),
            GrammarParseError::StartNotNonterminal => GrammarFault::StartNotNonterminal,
            GrammarParseError::ProductionsNotNonterminal(s) => {
                GrammarFault::ProductionsNotNonterminal(s@)
            },
            GrammarParseError::ProductionsNotSymbol(s) => GrammarFault::ProductionsNotSymbol(s@),
            GrammarParseError::DuplicateProduction(s) => GrammarFault::DuplicateProduction(s@),
        }
    }
}

/// The fault in words.
pub open spec fn fault_message(fault: GrammarFault) -> Seq<char> {
    match fault {
        GrammarFault::DuplicateNonterminal(s) => "'"@ + s
            + "' appears twice in the nonterminal symbols"@,
        GrammarFault::DuplicateTerminal(s) => "'"@ + s + "' appears twice in the terminal symbols"@,
        GrammarFault::TerminalNonterminal(s) => "'"@ + s
            + "' is declared as both a nonterminal and a terminal symbol"@,
        GrammarFault::StartNotNonterminal => "The start symbol is not a nonterminal"@,
        GrammarFault::ProductionsNotNonterminal(s) => "'"@ + s
            + "' has productions but is not a nonterminal symbol"@,
        GrammarFault::ProductionsNotSymbol(s) => "'"@ + s
            + "' appears in productions but is not a symbol"@,
        GrammarFault::DuplicateProduction(s) => "'"@ + s
            + "' appears twice in the list of productions; use | to separate alternatives"@,
    }
}

impl<'a> GrammarParseError<'a> {
    /// The fault in words.
    pub fn to_string(&self) -> (text: String)
        ensures
            text@ == fault_message(self@),
    {
        let mut text: String = String::new();
        match self {
            GrammarParseError::DuplicateNonterminal(s) => {
                text.append("'");
                text.append(s);
                text.append("' appears twice in the nonterminal symbols");
            },
            GrammarParseError::DuplicateTerminal(s) => {
                text.append("'");
                text.append(s);
                text.append("' appears twice in the terminal symbols");
            },
            GrammarParseError::TerminalNonterminal(s) => {
                text.append("'");
                text.append(s);
                text.append("' is declared as both a nonterminal and a terminal symbol");
            },
            GrammarParseError::StartNotNonterminal => {
                text.append("The start symbol is not a nonterminal");
            },
            GrammarParseError::ProductionsNotNonterminal(s) => {
                text.append("'");
                text.append(s);
                text.append("' has productions but is not a nonterminal symbol");
            },
            GrammarParseError::ProductionsNotSymbol(s) => {
                text.append("'");
                text.append(s);
                text.append("' appears in productions but is not a symbol");
            },
            GrammarParseError::DuplicateProduction(s) => {
                text.append("'");
                text.append(s);
                text.append(
                    "' appears twice in the list of productions; use | to separate alternatives",
                );
            },
        }
        assert(text@ =~= fault_message(self@));
        text
    }
}

/// Whether the grammar declares `symbol`.
pub open spec fn declares(g: GrammarModel, symbol: Seq<char>) -> bool {
    g.nonterminals.contains(symbol) || g.terminals.contains(symbol)
}

/// The first of `symbols` from `from` on that the grammar does not declare.
pub open spec fn first_undeclared(g: GrammarModel, symbols: Seq<Seq<char>>, from: int) -> Option<
    Seq<char>,
>
    decreases symbols.len() - from,
{
    if from < 0 || from >= symbols.len() {
        None
    } else if !declares(g, symbols[from]) {
        Some(symbols[from])
    } else {
        first_undeclared(g, symbols, from + 1)
    }
}

/// The first symbol of the alternatives from `from` on that the grammar
/// does not declare.
pub open spec fn first_undeclared_in(
    g: GrammarModel,
    alternatives: Seq<Seq<Seq<char>>>,
    from: int,
) -> Option<Seq<char>>
    decreases alternatives.len() - from,
{
    if from < 0 || from >= alternatives.len() {
        None
    } else {
        match first_undeclared(g, alternatives[from], 0) {
            Some(symbol) => Some(symbol),
            None => first_undeclared_in(g, alternatives, from + 1),
        }
    }
}

/// The left sides of the productions.
pub open spec fn production_names(productions: Seq<ProductionModel>) -> Seq<Seq<char>> {
    productions.map_values(|p: ProductionModel| p.name)
}

/// What is wrong with the production at `k`: its left side has a
/// production before it, or is no nonterminal symbol, or it holds a symbol
/// that is not declared.
pub open spec fn production_fault(g: GrammarModel, k: int) -> Option<GrammarFault> {
    let p = g.productions[k];
    if production_names(g.productions).take(k).contains(p.name) {
        Some(GrammarFault::DuplicateProduction(p.name))
    } else if !g.nonterminals.contains(p.name) {
        Some(GrammarFault::ProductionsNotNonterminal(p.name))
    } else {
        match first_undeclared_in(g, p.alternatives, 0) {
            Some(symbol) => Some(GrammarFault::ProductionsNotSymbol(symbol)),
            None => None,
        }
    }
}

/// The fault of the first production from `from` on that has one.
pub open spec fn first_production_fault(g: GrammarModel, from: int) -> Option<GrammarFault>
    decreases g.productions.len() - from,
{
    if from < 0 || from >= g.productions.len() {
        None
    } else {
        match production_fault(g, from) {
            Some(fault) => Some(fault),
            None => first_production_fault(g, from + 1),
        }
    }
}

/// The first fault of a description, if it has one. The symbols are
/// checked before the start symbol, and that before the productions.
pub open spec fn grammar_fault(g: GrammarModel) -> Option<GrammarFault> {
    if let Some(symbol) = first_repeated(g.nonterminals, 0) {
        Some(GrammarFault::DuplicateNonterminal(symbol))
    } else if let Some(symbol) = first_repeated(g.terminals, 0) {
        Some(GrammarFault::DuplicateTerminal(symbol))
    } else if let Some(symbol) = first_shared(g.nonterminals, g.terminals, 0) {
        Some(GrammarFault::TerminalNonterminal(symbol))
    } else if !g.nonterminals.contains(g.start) {
        Some(GrammarFault::StartNotNonterminal)
    } else {
        first_production_fault(g, 0)
    }
}

/// The first symbol of the alternatives that is in neither list.
fn find_undeclared<'a>(
    nonterminals: &Vec<&str>,
    terminals: &Vec<&str>,
    alternatives: &Vec<Vec<&'a str>>,
    Ghost(g): Ghost<GrammarModel>,
) -> (found: Option<&'a str>)
    requires
        g.nonterminals == word_of(nonterminals@),
        g.terminals == word_of(terminals@),
    ensures
        found matches Some(symbol) ==> first_undeclared_in(g, alternatives_of(alternatives@), 0)
            == Some(symbol@),
        found is None ==> first_undeclared_in(g, alternatives_of(alternatives@), 0) is None,
{
    let ghost all = alternatives_of(alternatives@);
    let mut a: usize = 0;
    while a < alternatives.len()
        invariant
            a <= alternatives.len(),
            g.nonterminals == word_of(nonterminals@),
            g.terminals == word_of(terminals@),
            all == alternatives_of(alternatives@),
            first_undeclared_in(g, all, 0) == first_undeclared_in(g, all, a as int),
        decreases alternatives.len() - a,
    {
        let symbols = &alternatives[a];
        assert(all[a as int] == word_of(symbols@));
        let mut k: usize = 0;
        while k < symbols.len()
            invariant
                k <= symbols.len(),
                a < alternatives.len(),
                g.nonterminals == word_of(nonterminals@),
                g.terminals == word_of(terminals@),
                all == alternatives_of(alternatives@),
                all[a as int] == word_of(symbols@),
                first_undeclared_in(g, all, 0) == first_undeclared_in(g, all, a as int),
                first_undeclared(g, word_of(symbols@), 0) == first_undeclared(
                    g,
                    word_of(symbols@),
                    k as int,
                ),
            decreases symbols.len() - k,
        {
            assert(word_of(nonterminals@).take(nonterminals.len() as int) =~= word_of(
                nonterminals@,
            ));
            assert(word_of(terminals@).take(terminals.len() as int) =~= word_of(terminals@));
            if !(holds(nonterminals, nonterminals.len(), symbols[k]) || holds(
                terminals,
                terminals.len(),
                symbols[k],
            )) {
                return Some(symbols[k]);
            }
            k += 1;
        }
        a += 1;
    }
    None
}

impl<'a> Grammar<'a> {
    /// The description has no fault.
    #[verifier::type_invariant]
    pub open spec fn inv(&self) -> bool {
        grammar_fault(self@) is None
    }

    /// Checks what was read: the grammar that it describes, or the first
    /// fault of the description.
    pub fn try_from(value: ParsedGrammar<'a>) -> (checked: Result<Self, GrammarParseError<'a>>)
        ensures
            match checked {
                Ok(g) => grammar_fault(value@) is None && g@ == value@,
                Err(e) => grammar_fault(value@) == Some(e@),
            },
    {
        let ghost g = value@;
        let ParsedGrammar { nonterminals, terminals, start, productions } = value;
        if let Some(symbol) = find_repeated(&nonterminals) {
            return Err(GrammarParseError::DuplicateNonterminal(symbol));
        }
        if let Some(symbol) = find_repeated(&terminals) {
            return Err(GrammarParseError::DuplicateTerminal(symbol));
        }
        if let Some(symbol) = find_shared(&nonterminals, &terminals) {
            return Err(GrammarParseError::TerminalNonterminal(symbol));
        }
        assert(word_of(nonterminals@).take(nonterminals.len() as int) =~= word_of(nonterminals@));
        if !holds(&nonterminals, nonterminals.len(), start) {
            return Err(GrammarParseError::StartNotNonterminal);
        }
        let mut checked: Vec<Production<'a>> = Vec::new();
        let mut k: usize = 0;
        assert(grammar_fault(g) == first_production_fault(g, 0));
        while k < productions.len()
            invariant
                k <= productions.len(),
                g == value@,
                g.start == start@,
                grammar_fault(g) == first_production_fault(g, 0),
                g.nonterminals == word_of(nonterminals@),
                g.terminals == word_of(terminals@),
                g.productions == productions_of(productions@),
                word_of(nonterminals@).take(nonterminals.len() as int) == word_of(nonterminals@),
                first_production_fault(g, 0) == first_production_fault(g, k as int),
                checked.len() == k,
                forall|j: int| 0 <= j < k ==> (#[trigger] checked[j])@ == g.productions[j],
            decreases productions.len() - k,
        {
            let p = &productions[k];
            assert(g.productions[k as int] == p@);
            let mut seen: bool = false;
            let mut j: usize = 0;
            while j < k
                invariant
                    j <= k < productions.len(),
                    g.productions == productions_of(productions@),
                    p@ == g.productions[k as int],
                    seen == production_names(g.productions).take(j as int).contains(p@.name),
                decreases k - j,
            {
                let ghost names = production_names(g.productions);
                assert(names[j as int] == productions[j as int]@.name);
                let same = str_eq(productions[j].name, p.name);
                proof {
                    let before = names.take(j as int);
                    let after = names.take(j + 1);
                    assert(after =~= before.push(names[j as int]));
                    if seen {
                        let at = choose|x: int| 0 <= x < before.len() && before[x] == p@.name;
                        assert(after[at] == p@.name);
                    } else if same {
                        assert(after[j as int] == p@.name);
                    } else if after.contains(p@.name) {
                        let at = choose|x: int| 0 <= x < after.len() && after[x] == p@.name;
                        assert(before[at] == p@.name);
                    }
                }
                seen = seen || same;
                j += 1;
            }
            if seen {
                return Err(GrammarParseError::DuplicateProduction(p.name));
            }
            if !holds(&nonterminals, nonterminals.len(), p.name) {
                return Err(GrammarParseError::ProductionsNotNonterminal(p.name));
            }
            if let Some(symbol) = find_undeclared(
                &nonterminals,
                &terminals,
                &p.alternatives,
                Ghost(g),
            ) {
                return Err(GrammarParseError::ProductionsNotSymbol(symbol));
            }
            let copy = Production { name: p.name, alternatives: p.alternatives.clone() };
            assert(copy@.alternatives =~= p@.alternatives);
            checked.push(copy);
            k += 1;
        }
        assert(production_models(checked@) =~= g.productions);
        Ok(Grammar { nonterminals, terminals, start, productions: checked })
    }
}

} // verus!
