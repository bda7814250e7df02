//! The tables of automata: the first line that holds words is the
//! alphabet, and each further one is a state, with its marks, its name and
//! an entry for each symbol.

use vstd::prelude::*;
use crate::alphabet::word_of;
use crate::error::{Error, ErrorModel};
use crate::parser::table_syntax::{text_rows, rows_of};
use crate::text::str_eq;

verus! {

/// The mark of the initial state, in either of its two forms.
pub open spec fn initial_mark(w: Seq<char>) -> bool {
    w == "\u{2192}"@ || w == "->"@
}

/// The mark of an accepting state.
pub open spec fn accepting_mark(w: Seq<char>) -> bool {
    w == "*"@
}

/// The words that are no names: the marks, the braces and the bar.
pub open spec fn is_reserved(w: Seq<char>) -> bool {
    initial_mark(w) || accepting_mark(w) || w == "{"@ || w == "}"@ || w == "|"@
}

/// The two spellings of the move that reads nothing.
pub open spec fn is_epsilon(w: Seq<char>) -> bool {
    w == "\u{3b5}"@ || w == "eps"@
}

/// The number of marks at the beginning of a row: the two marks may stand
/// in either order, and each at most once.
pub open spec fn marks_count(words: Seq<Seq<char>>) -> int {
    if words.len() >= 2 && ((initial_mark(words[0]) && accepting_mark(words[1])) || (
    accepting_mark(words[0]) && initial_mark(words[1]))) {
        2
    } else if words.len() >= 1 && (initial_mark(words[0]) || accepting_mark(words[0])) {
        1
    } else {
        0
    }
}

/// Whether a row is marked as the initial state.
pub open spec fn marked_initial(words: Seq<Seq<char>>) -> bool {
    marks_count(words) >= 1 && (initial_mark(words[0]) || (marks_count(words) == 2
        && initial_mark(words[1])))
}

/// Whether a row is marked as an accepting state.
pub open spec fn marked_accepting(words: Seq<Seq<char>>) -> bool {
    marks_count(words) >= 1 && (accepting_mark(words[0]) || (marks_count(words) == 2
        && accepting_mark(words[1])))
}

/// Whether the words from `from` on are names.
pub open spec fn all_names(words: Seq<Seq<char>>, from: int) -> bool {
    forall|i: int| from <= i < words.len() ==> !is_reserved(#[trigger] words[i])
}

/// What a row of the table of a deterministic automaton holds.
pub struct ParsedDfaStateModel {
    pub name: Seq<char>,
    pub initial: bool,
    pub accepting: bool,
    pub transitions: Seq<Seq<char>>,
}

/// What the table of a deterministic automaton holds.
pub struct ParsedDfaModel {
    pub head: Seq<Seq<char>>,
    pub states: Seq<ParsedDfaStateModel>,
}

/// The state that a row describes: after the marks stand the name and at
/// least one target, none of them a reserved word.
pub open spec fn dfa_row(words: Seq<Seq<char>>) -> Option<ParsedDfaStateModel> {
    let k = marks_count(words);
    if words.len() >= k + 2 && all_names(words, k) {
        Some(
            ParsedDfaStateModel {
                name: words[k],
                initial: marked_initial(words),
                accepting: marked_accepting(words),
                transitions: words.skip(k + 1),
            },
        )
    } else {
        None
    }
}

/// The first row from `from` on that describes no state.
pub open spec fn first_bad_dfa_row(rows: Seq<Seq<Seq<char>>>, from: int) -> Option<int>
    decreases rows.len() - from,
{
    if from < 0 || from >= rows.len() {
        None
    } else if dfa_row(rows[from]) is None {
        Some(from)
    } else {
        first_bad_dfa_row(rows, from + 1)
    }
}

/// What the rows hold as the table of a deterministic automaton. The
/// number of a lexical error is that of the row, counted from the
/// alphabet, which is row 0.
pub open spec fn dfa_of_rows(rows: Seq<Seq<Seq<char>>>) -> Result<ParsedDfaModel, ErrorModel> {
    if rows.len() == 0 {
        Err(ErrorModel::NoHeader)
    } else if !all_names(rows[0], 0) {
        Err(ErrorModel::Lex(0))
    } else {
        match first_bad_dfa_row(rows, 1) {
            Some(k) => Err(ErrorModel::Lex(k)),
            None => Ok(
                ParsedDfaModel {
                    head: rows[0],
                    states: Seq::new(
                        (rows.len() - 1) as nat,
                        |i: int| dfa_row(rows[i + 1]).unwrap(),
                    ),
                },
            ),
        }
    }
}

/// What the text holds as the table of a deterministic automaton.
pub open spec fn parsed_dfa(text: Seq<char>) -> Result<ParsedDfaModel, ErrorModel> {
    dfa_of_rows(text_rows(text, false))
}

/// A row of the table of a deterministic automaton as it was read.
#[derive(Clone, Debug, PartialEq, Eq)]
pub struct ParsedDfaState<'a> {
    pub name: &'a str,
    pub initial: bool,
    pub accepting: bool,
    pub transitions: Vec<&'a str>,
}

impl<'a> View for ParsedDfaState<'a> {
    type V = ParsedDfaStateModel;

    open spec fn view(&self) -> ParsedDfaStateModel {
        ParsedDfaStateModel {
            name: self.name@,
            initial: self.initial,
            accepting: self.accepting,
            transitions: word_of(self.transitions@),
        }
    }
}

/// The table of a deterministic automaton as it was read, not yet checked.
#[derive(Clone, Debug, PartialEq, Eq)]
pub struct ParsedDfa<'a> {
    pub head: Vec<&'a str>,
    pub states: Vec<ParsedDfaState<'a>>,
}

impl<'a> View for ParsedDfa<'a> {
    type V = ParsedDfaModel;

    open spec fn view(&self) -> ParsedDfaModel {
        ParsedDfaModel {
            head: word_of(self.head@),
            states: self.states@.map_values(|s: ParsedDfaState| s@),
        }
    }
}

/// Whether the word is the mark of the initial state.
fn is_initial_mark(w: &str) -> (yes: bool)
    ensures
        yes == initial_mark(w@),
{
    str_eq(w, "\u{2192}") || str_eq(w, "->")
}

/// Whether the word is the mark of an accepting state.
fn is_accepting_mark(w: &str) -> (yes: bool)
    ensures
        yes == accepting_mark(w@),
{
    str_eq(w, "*")
}

/// Whether the word is no name.
fn reserved(w: &str) -> (yes: bool)
    ensures
        yes == is_reserved(w@),
{
    is_initial_mark(w) || is_accepting_mark(w) || str_eq(w, "{") || str_eq(w, "}") || str_eq(
        w,
        "|",
    )
}

/// Whether the words from `from` on are names.
fn names_from(words: &Vec<&str>, from: usize) -> (yes: bool)
    ensures
        yes == all_names(word_of(words@), from as int),
{
    let mut i: usize = from;
    while i < words.len()
        invariant
            from <= i || i == from,
            forall|j: int| from <= j < i && j < words.len() ==> !is_reserved(
                #[trigger] word_of(words@)[j],
            ),
        decreases words.len() - i,
    {
        assert(word_of(words@)[i as int] == words[i as int]@);
        if reserved(words[i]) {
            return false;
        }
        i += 1;
    }
    true
}

/// The marks at the beginning of a row: their number, and whether they
/// mark the state as initial and as accepting.
fn read_marks(words: &Vec<&str>) -> (marks: (usize, bool, bool))
    ensures
        marks.0 == marks_count(word_of(words@)),
        marks.1 == marked_initial(word_of(words@)),
        marks.2 == marked_accepting(word_of(words@)),
{
    let ghost w = word_of(words@);
    if words.len() == 0 {
        return (0, false, false);
    }
    assert(w[0] == words[0]@);
    let first_initial = is_initial_mark(words[0]);
    let first_accepting = is_accepting_mark(words[0]);
    if !first_initial && !first_accepting {
        return (0, false, false);
    }
    if words.len() >= 2 {
        assert(w[1] == words[1]@);
        if first_initial && is_accepting_mark(words[1]) {
            return (2, true, true);
        }
        if first_accepting && is_initial_mark(words[1]) {
            return (2, true, true);
        }
    }
    (1, first_initial, first_accepting)
}

/// The words from `from` on.
fn words_from<'a>(words: &Vec<&'a str>, from: usize) -> (rest: Vec<&'a str>)
    requires
        from <= words.len(),
    ensures
        word_of(rest@) == word_of(words@).skip(from as int),
{
    let mut rest: Vec<&'a str> = Vec::new();
    let mut i: usize = from;
    while i < words.len()
        invariant
            from <= i <= words.len(),
            rest.len() == i - from,
            forall|j: int| 0 <= j < rest.len() ==> (#[trigger] rest[j])@ == words[from + j]@,
        decreases words.len() - i,
    {
        rest.push(words[i]);
        i += 1;
    }
    assert(word_of(rest@) =~= word_of(words@).skip(from as int));
    rest
}

/// The state that a row describes.
fn read_dfa_row<'a>(words: &Vec<&'a str>) -> (state: Option<ParsedDfaState<'a>>)
    ensures
        match state {
            Some(s) => dfa_row(word_of(words@)) == Some(s@),
            None => dfa_row(word_of(words@)) is None,
        },
{
    let (k, initial, accepting) = read_marks(words);
    if words.len() < 2 || words.len() - 2 < k || !names_from(words, k) {
        return None;
    }
    assert(word_of(words@)[k as int] == words[k as int]@);
    Some(
        ParsedDfaState {
            name: words[k],
            initial,
            accepting,
            transitions: words_from(words, k + 1),
        },
    )
}

/// What the rows hold as the table of a deterministic automaton.
pub fn dfa_from_rows<'a>(rows: &Vec<Vec<&'a str>>) -> (parsed: Result<ParsedDfa<'a>, Error>)
    ensures
        match parsed {
            Ok(p) => dfa_of_rows(rows_of(rows@)) == Ok::<ParsedDfaModel, ErrorModel>(p@),
            Err(e) => dfa_of_rows(rows_of(rows@)) == Err::<ParsedDfaModel, ErrorModel>(e@),
        },
{
    let ghost all = rows_of(rows@);
    if rows.len() == 0 {
        return Err(Error::NoHeader);
    }
    assert(all[0] == word_of(rows[0]@));
    if !names_from(&rows[0], 0) {
        return Err(Error::Lex(0));
    }
    let mut states: Vec<ParsedDfaState<'a>> = Vec::new();
    let mut k: usize = 1;
    while k < rows.len()
        invariant
            all == rows_of(rows@),
            all_names(all[0], 0),
            1 <= k <= rows.len(),
            states.len() == k - 1,
            first_bad_dfa_row(all, 1) == first_bad_dfa_row(all, k as int),
            forall|i: int|
                0 <= i < states.len() ==> dfa_row(all[i + 1]) == Some((#[trigger] states[i])@),
        decreases rows.len() - k,
    {
        assert(all[k as int] == word_of(rows[k as int]@));
        match read_dfa_row(&rows[k]) {
            Some(state) => {
                states.push(state);
            },
            None => {
                return Err(Error::Lex(k));
            },
        }
        k += 1;
    }
    let parsed = ParsedDfa { head: words_from(&rows[0], 0), states };
    proof {
        assert(word_of(rows[0]@).skip(0) =~= word_of(rows[0]@));
        assert(parsed@.states =~= Seq::new(
            (all.len() - 1) as nat,
            |i: int| dfa_row(all[i + 1]).unwrap(),
        ));
    }
    Ok(parsed)
}

/// An entry of the alphabet of a nondeterministic automaton: a symbol, or
/// the move that reads nothing.
pub enum NfaSymbolModel {
    Element(Seq<char>),
    Eps,
}

/// What a row of the table of a nondeterministic automaton holds.
pub struct ParsedNfaStateModel {
    pub name: Seq<char>,
    pub initial: bool,
    pub accepting: bool,
    pub transitions: Seq<Seq<Seq<char>>>,
}

/// What the table of a nondeterministic automaton holds.
pub struct ParsedNfaModel {
    pub head: Seq<NfaSymbolModel>,
    pub states: Seq<ParsedNfaStateModel>,
}

/// The number of names that follow one another from `from` on.
pub open spec fn names_run(words: Seq<Seq<char>>, from: int) -> int
    decreases words.len() - from,
{
    if 0 <= from < words.len() && !is_reserved(words[from]) {
        1 + names_run(words, from + 1)
    } else {
        0
    }
}

/// The sets of targets that the words from `from` on spell: each set is an
/// opening brace, names, and a closing brace.
pub open spec fn cells_from(words: Seq<Seq<char>>, from: int) -> Option<Seq<Seq<Seq<char>>>>
    decreases words.len() - from,
{
    if from < 0 || from >= words.len() {
        Some(Seq::empty())
    } else if words[from] != "{"@ {
        None
    } else {
        let close = from + 1 + names_run(words, from + 1);
        if from < close < words.len() && words[close] == "}"@ {
            match cells_from(words, close + 1) {
                Some(rest) => Some(seq![words.subrange(from + 1, close)] + rest),
                None => None,
            }
        } else {
            None
        }
    }
}

/// The state that a row describes: after the marks stand the name and at
/// least one set of targets.
pub open spec fn nfa_row(words: Seq<Seq<char>>) -> Option<ParsedNfaStateModel> {
    let k = marks_count(words);
    if words.len() >= k + 1 && !is_reserved(words[k]) {
        match cells_from(words, k + 1) {
            Some(cells) => if cells.len() >= 1 {
                Some(
                    ParsedNfaStateModel {
                        name: words[k],
                        initial: marked_initial(words),
                        accepting: marked_accepting(words),
                        transitions: cells,
                    },
                )
            } else {
                None
            },
            None => None,
        }
    } else {
        None
    }
}

/// The first row from `from` on that describes no state.
pub open spec fn first_bad_nfa_row(rows: Seq<Seq<Seq<char>>>, from: int) -> Option<int>
    decreases rows.len() - from,
{
    if from < 0 || from >= rows.len() {
        None
    } else if nfa_row(rows[from]) is None {
        Some(from)
    } else {
        first_bad_nfa_row(rows, from + 1)
    }
}

/// The entry of the alphabet that a word spells.
pub open spec fn nfa_symbol(w: Seq<char>) -> NfaSymbolModel {
    if is_epsilon(w) {
        NfaSymbolModel::Eps
    } else {
        NfaSymbolModel::Element(w)
    }
}

/// What the rows hold as the table of a nondeterministic automaton.
pub open spec fn nfa_of_rows(rows: Seq<Seq<Seq<char>>>) -> Result<ParsedNfaModel, ErrorModel> {
    if rows.len() == 0 {
        Err(ErrorModel::NoHeader)
    } else if !all_names(rows[0], 0) {
        Err(ErrorModel::Lex(0))
    } else {
        match first_bad_nfa_row(rows, 1) {
            Some(k) => Err(ErrorModel::Lex(k)),
            None => Ok(
                ParsedNfaModel {
                    head: rows[0].map_values(|w: Seq<char>| nfa_symbol(w)),
                    states: Seq::new(
                        (rows.len() - 1) as nat,
                        |i: int| nfa_row(rows[i + 1]).unwrap(),
                    ),
                },
            ),
        }
    }
}

/// What the text holds as the table of a nondeterministic automaton. The
/// braces are words of their own.
pub open spec fn parsed_nfa(text: Seq<char>) -> Result<ParsedNfaModel, ErrorModel> {
    nfa_of_rows(text_rows(text, true))
}

/// An entry of the alphabet of a nondeterministic automaton.
#[derive(Clone, Copy, Debug, PartialEq, Eq)]
pub enum NfaAlphabetEntry<'a> {
    /// A symbol.
    Element(&'a str),
    /// The move that reads nothing.
    Eps,
}

impl<'a> View for NfaAlphabetEntry<'a> {
    type V = NfaSymbolModel;

    open spec fn view(&self) -> NfaSymbolModel {
        match self {
            NfaAlphabetEntry::Element(w) => NfaSymbolModel::Element(w@),
            NfaAlphabetEntry::Eps => NfaSymbolModel::Eps,
        }
    }
}

/// A row of the table of a nondeterministic automaton as it was read.
#[derive(Clone, Debug, PartialEq, Eq)]
pub struct ParsedNfaState<'a> {
    pub name: &'a str,
    pub initial: bool,
    pub accepting: bool,
    pub transitions: Vec<Vec<&'a str>>,
}

impl<'a> View for ParsedNfaState<'a> {
    type V = ParsedNfaStateModel;

    open spec fn view(&self) -> ParsedNfaStateModel {
        ParsedNfaStateModel {
            name: self.name@,
            initial: self.initial,
            accepting: self.accepting,
            transitions: self.transitions@.map_values(|c: Vec<&str>| word_of(c@)),
        }
    }
}

/// The table of a nondeterministic automaton as it was read, not yet
/// checked.
#[derive(Clone, Debug, PartialEq, Eq)]
pub struct ParsedNfa<'a> {
    pub head: Vec<NfaAlphabetEntry<'a>>,
    pub states: Vec<ParsedNfaState<'a>>,
}

impl<'a> View for ParsedNfa<'a> {
    type V = ParsedNfaModel;

    open spec fn view(&self) -> ParsedNfaModel {
        ParsedNfaModel {
            head: self.head@.map_values(|e: NfaAlphabetEntry| e@),
            states: self.states@.map_values(|s: ParsedNfaState| s@),
        }
    }
}

/// The sets of targets that the words from `from` on spell.
#[verifier::loop_isolation(false)]
#[verifier::rlimit(50)]
fn read_cells<'a>(words: &Vec<&'a str>, from: usize) -> (cells: Option<Vec<Vec<&'a str>>>)
    requires
        from <= words.len(),
    ensures
        match cells {
            Some(c) => cells_from(word_of(words@), from as int) == Some(
                c@.map_values(|c: Vec<&str>| word_of(c@)),
            ),
            None => cells_from(word_of(words@), from as int) is None,
        },
{
    let ghost w = word_of(words@);
    let ghost view = |c: Vec<&str>| word_of(c@);
    let mut cells: Vec<Vec<&'a str>> = Vec::new();
    let mut at: usize = from;
    let ghost mut done: Seq<Seq<Seq<char>>> = Seq::empty();
    while at < words.len()
        invariant
            from <= at <= words.len(),
            done == cells@.map_values(view),
            match cells_from(w, at as int) {
                Some(rest) => cells_from(w, from as int) == Some(done + rest),
                None => cells_from(w, from as int) is None,
            },
        decreases words.len() - at,
    {
        assert(w[at as int] == words[at as int]@);
        if !str_eq(words[at], "{") {
            return None;
        }
        let mut cell: Vec<&'a str> = Vec::new();
        let mut close: usize = at + 1;
        while close < words.len() && !reserved(words[close])
            invariant
                at < close <= words.len(),
                cell.len() == close - at - 1,
                forall|j: int| 0 <= j < cell.len() ==> (#[trigger] cell[j])@ == w[at + 1 + j],
                names_run(w, at + 1) == (close - at - 1) + names_run(w, close as int),
            decreases words.len() - close,
        {
            assert(w[close as int] == words[close as int]@);
            cell.push(words[close]);
            close += 1;
        }
        if close >= words.len() {
            return None;
        }
        assert(w[close as int] == words[close as int]@);
        if !str_eq(words[close], "}") {
            return None;
        }
        proof {
            assert(word_of(cell@) =~= w.subrange(at + 1, close as int));
            let rest = cells_from(w, close + 1);
            if let Some(r) = rest {
                assert(done + (seq![word_of(cell@)] + r) =~= done.push(word_of(cell@)) + r);
            }
        }
        cells.push(cell);
        proof {
            assert(cells@.map_values(view) =~= done.push(word_of(cell@)));
            done = done.push(word_of(cell@));
        }
        at = close + 1;
    }
    assert(done + Seq::<Seq<Seq<char>>>::empty() =~= done);
    Some(cells)
}

/// The state that a row describes.
fn read_nfa_row<'a>(words: &Vec<&'a str>) -> (state: Option<ParsedNfaState<'a>>)
    ensures
        match state {
            Some(s) => nfa_row(word_of(words@)) == Some(s@),
            None => nfa_row(word_of(words@)) is None,
        },
{
    let (k, initial, accepting) = read_marks(words);
    if words.len() < 1 || words.len() - 1 < k {
        return None;
    }
    assert(word_of(words@)[k as int] == words[k as int]@);
    if reserved(words[k]) {
        return None;
    }
    match read_cells(words, k + 1) {
        Some(cells) => {
            if cells.len() >= 1 {
                Some(ParsedNfaState { name: words[k], initial, accepting, transitions: cells })
            } else {
                None
            }
        },
        None => None,
    }
}

/// What the rows hold as the table of a nondeterministic automaton.
#[verifier::loop_isolation(false)]
#[verifier::rlimit(50)]
pub fn nfa_from_rows<'a>(rows: &Vec<Vec<&'a str>>) -> (parsed: Result<ParsedNfa<'a>, Error>)
    ensures
        match parsed {
            Ok(p) => nfa_of_rows(rows_of(rows@)) == Ok::<ParsedNfaModel, ErrorModel>(p@),
            Err(e) => nfa_of_rows(rows_of(rows@)) == Err::<ParsedNfaModel, ErrorModel>(e@),
        },
{
    let ghost all = rows_of(rows@);
    if rows.len() == 0 {
        return Err(Error::NoHeader);
    }
    assert(all[0] == word_of(rows[0]@));
    if !names_from(&rows[0], 0) {
        return Err(Error::Lex(0));
    }
    let mut head: Vec<NfaAlphabetEntry<'a>> = Vec::new();
    let mut x: usize = 0;
    while x < rows[0].len()
        invariant
            x <= rows[0].len(),
            head.len() == x,
            forall|y: int| 0 <= y < x ==> (#[trigger] head[y])@ == nfa_symbol(all[0][y]),
        decreases rows[0].len() - x,
    {
        assert(all[0][x as int] == rows[0][x as int]@);
        let word = rows[0][x];
        if str_eq(word, "\u{3b5}") || str_eq(word, "eps") {
            head.push(NfaAlphabetEntry::Eps);
        } else {
            head.push(NfaAlphabetEntry::Element(word));
        }
        x += 1;
    }
    let mut states: Vec<ParsedNfaState<'a>> = Vec::new();
    let mut k: usize = 1;
    while k < rows.len()
        invariant
            1 <= k <= rows.len(),
            states.len() == k - 1,
            first_bad_nfa_row(all, 1) == first_bad_nfa_row(all, k as int),
            forall|i: int|
                0 <= i < states.len() ==> nfa_row(all[i + 1]) == Some((#[trigger] states[i])@),
        decreases rows.len() - k,
    {
        assert(all[k as int] == word_of(rows[k as int]@));
        match read_nfa_row(&rows[k]) {
            Some(state) => {
                states.push(state);
            },
            None => {
                return Err(Error::Lex(k));
            },
        }
        k += 1;
    }
    let parsed = ParsedNfa { head, states };
    proof {
        assert(parsed@.head =~= all[0].map_values(|w: Seq<char>| nfa_symbol(w)));
        assert(parsed@.states =~= Seq::new(
            (all.len() - 1) as nat,
            |i: int| nfa_row(all[i + 1]).unwrap(),
        ));
    }
    Ok(parsed)
}

} // verus!
