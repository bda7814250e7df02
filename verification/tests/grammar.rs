use dandy::grammar::parse::GrammarParseError;
use dandy::grammar::{do_parse_grammar, Error, Grammar};
use dandy::parser::{self, Expected, GrammarSyntaxError, ParsedGrammar, ParsedProduction};

const GRAMMAR: &str = "# A grammar of sums of numbers in unary notation
Nonterminals: E N O
Terminals: 1 + -
Start: E

N -> 1 N | 1
O -> + | | -   # the operator may be left out
E → N | E O E
";

fn sample() -> ParsedGrammar<'static> {
    ParsedGrammar {
        terminals: vec!["1", "+", "-"],
        nonterminals: vec!["E", "N", "O"],
        productions: vec![
            ParsedProduction {
                name: "N",
                alternatives: vec![vec!["1", "N"], vec!["1"]],
            },
            ParsedProduction {
                name: "O",
                alternatives: vec![vec!["+"], vec![], vec!["-"]],
            },
            ParsedProduction {
                name: "E",
                alternatives: vec![vec!["N"], vec!["E", "O", "E"]],
            },
        ],
        start: "E",
    }
}

#[test]
fn test_parse_grammar() {
    let grammar_source = GRAMMAR;
    let parsed_grammar = parser::grammar(grammar_source).unwrap();
    let grammar: ParsedGrammar = parsed_grammar;

    let expected_grammar = ParsedGrammar {
        terminals: vec!["1", "+", "-"],
        nonterminals: vec!["E", "N", "O"],
        productions: vec![
            ParsedProduction {
                name: "N",
                alternatives: vec![vec!["1", "N"], vec!["1"]],
            },
            ParsedProduction {
                name: "O",
                alternatives: vec![vec!["+"], vec![], vec!["-"]],
            },
            ParsedProduction {
                name: "E",
                alternatives: vec![vec!["N"], vec!["E", "O", "E"]],
            },
        ],
        start: "E",
    };

    assert!(grammar == expected_grammar);
}

#[test]
fn grammar_is_checked_after_reading() {
    let grammar: Grammar = do_parse_grammar(GRAMMAR).unwrap();
    assert_eq!(grammar.nonterminals(), &vec!["E", "N", "O"]);
    assert_eq!(grammar.terminals(), &vec!["1", "+", "-"]);
    assert_eq!(grammar.start(), "E");
    assert_eq!(grammar.productions().len(), 3);
    assert_eq!(grammar.productions()[1].name(), "O");
    assert_eq!(
        grammar.productions()[1].alternatives(),
        &vec![vec!["+"], vec![], vec!["-"]]
    );
    assert_eq!(grammar.clone(), grammar);
}

#[test]
fn grammar_keywords_in_any_case_and_crlf() {
    let text = "\r\n  nonterminals: S\r\nTERMINALS:\ta\tb\r\nstart: S\r\nS -> a S b |\r\n";
    let parsed = parser::grammar(text).unwrap();
    assert_eq!(parsed.nonterminals, vec!["S"]);
    assert_eq!(parsed.terminals, vec!["a", "b"]);
    assert_eq!(parsed.start, "S");
    assert_eq!(parsed.productions.len(), 1);
    assert_eq!(
        parsed.productions[0].alternatives,
        vec![vec!["a", "S", "b"], vec![]]
    );
}

#[test]
fn grammar_without_final_line_end() {
    let text = "Nonterminals: S\nTerminals: a\nStart: S\nS -> a";
    let parsed = parser::grammar(text).unwrap();
    assert_eq!(parsed.productions.len(), 1);
    assert_eq!(parsed.productions[0].alternatives, vec![vec!["a"]]);
}

#[test]
fn grammar_symbols_may_hold_reserved_characters() {
    let text = "Nonterminals: S |x\nTerminals: ->a a|b\nStart: S\nS -> ->a a|b | |x\n";
    let parsed = parser::grammar(text).unwrap();
    assert_eq!(parsed.nonterminals, vec!["S", "|x"]);
    assert_eq!(parsed.terminals, vec!["->a", "a|b"]);
    assert_eq!(
        parsed.productions[0].alternatives,
        vec![vec!["->a", "a|b"], vec!["|x"]]
    );
}

#[test]
fn grammar_syntax_errors_name_what_is_missing() {
    assert_eq!(
        parser::grammar(""),
        Err(GrammarSyntaxError {
            expected: Expected::Nonterminals,
            position: 0
        })
    );
    assert_eq!(
        parser::grammar("# only a comment\nTerminals: a\n"),
        Err(GrammarSyntaxError {
            expected: Expected::Nonterminals,
            position: 17
        })
    );
    assert_eq!(
        parser::grammar("Nonterminals: S\nStart: S\n"),
        Err(GrammarSyntaxError {
            expected: Expected::Terminals,
            position: 16
        })
    );
    assert_eq!(
        parser::grammar("Nonterminals: S\nTerminals: a\nStart:\n"),
        Err(GrammarSyntaxError {
            expected: Expected::Start,
            position: 29
        })
    );
    assert_eq!(
        parser::grammar("Nonterminals: S\nTerminals: a\nStart: S\n"),
        Err(GrammarSyntaxError {
            expected: Expected::Production,
            position: 38
        })
    );
    assert_eq!(
        parser::grammar("Nonterminals: S\nTerminals: a\nStart: S T\nS -> a\n"),
        Err(GrammarSyntaxError {
            expected: Expected::LineEnd,
            position: 37
        })
    );
    assert_eq!(
        parser::grammar("Nonterminals: S\nTerminals: a\nStart: S\nS -> a\nS a\n"),
        Err(GrammarSyntaxError {
            expected: Expected::End,
            position: 45
        })
    );
    // An arrow needs a blank on both sides, and a reserved word is no symbol.
    assert_eq!(
        parser::grammar("Nonterminals: S\nTerminals: a\nStart: S\nS ->a\n"),
        Err(GrammarSyntaxError {
            expected: Expected::Production,
            position: 38
        })
    );
    assert_eq!(
        parser::grammar("Nonterminals: S\nTerminals: a\nStart: ->\nS -> a\n"),
        Err(GrammarSyntaxError {
            expected: Expected::Start,
            position: 29
        })
    );
}

#[test]
fn grammar_positions_count_characters() {
    // The arrow `→` and `ε` are one character each.
    assert_eq!(
        parser::grammar("Nonterminals: ε\nTerminals: a\nStart: ε\nε → a\n→\n"),
        Err(GrammarSyntaxError {
            expected: Expected::End,
            position: 44
        })
    );
}

#[test]
fn grammar_faults_in_order() {
    let mut g = sample();
    g.nonterminals = vec!["E", "N", "E", "N"];
    g.terminals = vec!["1", "1"];
    assert_eq!(
        Grammar::try_from(g),
        Err(GrammarParseError::DuplicateNonterminal("E"))
    );

    let mut g = sample();
    g.terminals = vec!["1", "+", "-", "+", "1"];
    assert_eq!(
        Grammar::try_from(g),
        Err(GrammarParseError::DuplicateTerminal("+"))
    );

    let mut g = sample();
    g.terminals = vec!["1", "O", "N"];
    assert_eq!(
        Grammar::try_from(g),
        Err(GrammarParseError::TerminalNonterminal("N"))
    );

    let mut g = sample();
    g.start = "1";
    assert_eq!(
        Grammar::try_from(g),
        Err(GrammarParseError::StartNotNonterminal)
    );

    let mut g = sample();
    g.productions[2].name = "N";
    g.productions[1].name = "+";
    assert_eq!(
        Grammar::try_from(g),
        Err(GrammarParseError::ProductionsNotNonterminal("+"))
    );

    let mut g = sample();
    g.productions[2].name = "N";
    g.productions[2].alternatives = vec![vec!["x"]];
    assert_eq!(
        Grammar::try_from(g),
        Err(GrammarParseError::DuplicateProduction("N"))
    );

    let mut g = sample();
    g.productions[1].alternatives = vec![vec!["+"], vec![], vec!["-", "x", "y"]];
    g.productions[2].alternatives = vec![vec!["z"]];
    assert_eq!(
        Grammar::try_from(g),
        Err(GrammarParseError::ProductionsNotSymbol("x"))
    );
}

#[test]
fn grammar_fault_messages() {
    assert_eq!(
        GrammarParseError::DuplicateNonterminal("E").to_string(),
        "'E' appears twice in the nonterminal symbols"
    );
    assert_eq!(
        GrammarParseError::DuplicateTerminal("+").to_string(),
        "'+' appears twice in the terminal symbols"
    );
    assert_eq!(
        GrammarParseError::TerminalNonterminal("N").to_string(),
        "'N' is declared as both a nonterminal and a terminal symbol"
    );
    assert_eq!(
        GrammarParseError::StartNotNonterminal.to_string(),
        "The start symbol is not a nonterminal"
    );
    assert_eq!(
        GrammarParseError::ProductionsNotNonterminal("+").to_string(),
        "'+' has productions but is not a nonterminal symbol"
    );
    assert_eq!(
        GrammarParseError::ProductionsNotSymbol("x").to_string(),
        "'x' appears in productions but is not a symbol"
    );
    assert_eq!(
        GrammarParseError::DuplicateProduction("N").to_string(),
        "'N' appears twice in the list of productions; use | to separate alternatives"
    );
}

#[test]
fn do_parse_grammar_reports_both_kinds_of_error() {
    assert_eq!(
        do_parse_grammar("Nonterminals: S\n"),
        Err(Error::GrammarParse(GrammarSyntaxError {
            expected: Expected::Terminals,
            position: 16
        }))
    );
    assert_eq!(
        do_parse_grammar("Nonterminals: S\nTerminals: a\nStart: a\nS -> a\n"),
        Err(Error::Grammar(GrammarParseError::StartNotNonterminal))
    );
}
