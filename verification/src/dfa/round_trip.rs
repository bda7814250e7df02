//! The table of a deterministic automaton is read back as the automaton.

use vstd::prelude::*;
use crate::dfa::DfaModel;
use crate::dfa::parse::{
    dfa_fault,
    dfa_from,
    dfa_of_text,
    first_epsilon,
    first_initial,
    first_missing,
    first_unknown,
    first_bad_width,
    state_names,
};
use crate::dfa::table::{
    blanks,
    padded_word,
    marks_text,
    name_width,
    column_width,
    header_cells,
    row_cells,
    header_line,
    state_line,
    state_lines,
    dfa_table,
};
use crate::error::ErrorModel;
use crate::lists::first_repeated;
use crate::parser::table_syntax::{is_gap, gap_len, line_words, text_rows, lemma_lengths};
use crate::parser::tables::{
    ParsedDfaModel,
    ParsedDfaStateModel,
    all_names,
    accepting_mark,
    initial_mark,
    is_epsilon,
    is_reserved,
    marks_count,
    marked_initial,
    marked_accepting,
    dfa_row,
    first_bad_dfa_row,
    parsed_dfa,
};
use crate::scan::is_whitespace;
use crate::table_words::{
    is_word,
    is_name,
    all_gaps,
    one_line,
    padded_from,
    lemma_first_word,
    lemma_no_word,
    lemma_first_row,
    lemma_blanks,
    lemma_padded_words,
    lemma_padded_one_line,
    lemma_word_one_line,
};

verus! {

/// Whether a table can hold the automaton: it has a symbol, its symbols
/// and the names of its states are words that are not reserved, no symbol
/// spells the move that reads nothing, and no two states bear the same
/// name.
pub open spec fn printable(m: DfaModel) -> bool {
    &&& m.wf()
    &&& m.alphabet.len() >= 1
    &&& forall|x: int|
        0 <= x < m.alphabet.len() ==> is_name(#[trigger] m.alphabet[x], false) && !is_epsilon(
            m.alphabet[x],
        )
    &&& forall|q: int| 0 <= q < m.states.len() ==> is_name((#[trigger] m.states[q]).name, false)
    &&& forall|p: int, q: int|
        0 <= p < q < m.states.len() ==> (#[trigger] m.states[p]).name != (
        #[trigger] m.states[q]).name
}

/// The names of the targets of state `q`.
pub open spec fn target_names(m: DfaModel, q: int) -> Seq<Seq<char>> {
    m.states[q].transitions.map_values(|t: int| m.states[t].name)
}

/// The widths of the columns of the symbols.
pub open spec fn column_widths(m: DfaModel) -> Seq<int> {
    Seq::new(m.alphabet.len(), |x: int| column_width(m, x, m.states.len() as int))
}

/// The marks of a row as words.
pub open spec fn mark_words(initial: bool, accepting: bool) -> Seq<Seq<char>> {
    (if initial {
        seq![seq!['\u{2192}']]
    } else {
        Seq::empty()
    }) + (if accepting {
        seq![seq!['*']]
    } else {
        Seq::empty()
    })
}

/// The words of the line of state `q`.
pub open spec fn row_words(m: DfaModel, q: int) -> Seq<Seq<char>> {
    mark_words(m.states[q].initial, m.states[q].accepting) + seq![m.states[q].name]
        + target_names(m, q)
}

/// What the table of the automaton holds when it is read.
pub open spec fn read_back(m: DfaModel) -> ParsedDfaModel {
    ParsedDfaModel {
        head: m.alphabet,
        states: Seq::new(
            m.states.len(),
            |q: int|
                ParsedDfaStateModel {
                    name: m.states[q].name,
                    initial: m.states[q].initial,
                    accepting: m.states[q].accepting,
                    transitions: target_names(m, q),
                },
        ),
    }
}

/// White space at the beginning of a line holds no word.
pub proof fn lemma_leading_gaps(pad: Seq<char>, t: Seq<char>, braces: bool)
    requires
        all_gaps(pad),
    ensures
        line_words(pad + t, braces) == line_words(t, braces),
    decreases pad.len(),
{
    if pad.len() > 0 {
        let first = pad.take(1);
        let more = pad.skip(1);
        assert(pad + t =~= first + (more + t));
        assert forall|i: int| 0 <= i < more.len() implies is_gap(#[trigger] more[i]) by {
            assert(more[i] == pad[i + 1]);
        }
        lemma_leading_gaps(more, t, braces);
        let s = first + (more + t);
        let u = more + t;
        assert(s[0] == pad[0]);
        assert(s.drop_first() =~= u);
        lemma_lengths(u, braces);
        assert(gap_len(s) == 1 + gap_len(u));
        assert(s.skip(gap_len(s)) =~= u.skip(gap_len(u)));
        assert(s.len() == u.len() + 1);
    } else {
        assert(pad + t =~= t);
    }
}

/// The words that are written symbol by symbol are the words that are
/// written from the first symbol on.
pub proof fn lemma_header_cells(m: DfaModel, upto: int)
    requires
        0 <= upto <= m.alphabet.len(),
    ensures
        header_cells(m, upto) + padded_from(m.alphabet, column_widths(m), upto) == padded_from(
            m.alphabet,
            column_widths(m),
            0,
        ),
    decreases upto,
{
    if upto > 0 {
        lemma_header_cells(m, upto - 1);
        assert(header_cells(m, upto) + padded_from(m.alphabet, column_widths(m), upto)
            =~= header_cells(m, upto - 1) + padded_from(m.alphabet, column_widths(m), upto - 1));
    } else {
        assert(header_cells(m, 0) + padded_from(m.alphabet, column_widths(m), 0) =~= padded_from(
            m.alphabet,
            column_widths(m),
            0,
        ));
    }
}

/// The targets that are written one by one are the words that are written
/// from the first target on.
pub proof fn lemma_row_cells(m: DfaModel, q: int, upto: int)
    requires
        m.wf(),
        0 <= q < m.states.len(),
        0 <= upto <= m.alphabet.len(),
    ensures
        row_cells(m, q, upto) + padded_from(target_names(m, q), column_widths(m), upto)
            == padded_from(target_names(m, q), column_widths(m), 0),
    decreases upto,
{
    if upto > 0 {
        lemma_row_cells(m, q, upto - 1);
        assert(row_cells(m, q, upto) + padded_from(target_names(m, q), column_widths(m), upto)
            =~= row_cells(m, q, upto - 1) + padded_from(
            target_names(m, q),
            column_widths(m),
            upto - 1,
        ));
    } else {
        assert(row_cells(m, q, 0) + padded_from(target_names(m, q), column_widths(m), 0)
            =~= padded_from(target_names(m, q), column_widths(m), 0));
    }
}

/// The marks are words, and no names.
pub proof fn lemma_marks()
    ensures
        "\u{2192}"@ == seq!['\u{2192}'],
        "*"@ == seq!['*'],
        is_word(seq!['\u{2192}'], false),
        is_word(seq!['*'], false),
        initial_mark(seq!['\u{2192}']),
        accepting_mark(seq!['*']),
        !accepting_mark(seq!['\u{2192}']),
        !initial_mark(seq!['*']),
{
    reveal_strlit("\u{2192}");
    reveal_strlit("*");
    reveal_strlit("->");
    assert("\u{2192}"@ =~= seq!['\u{2192}']);
    assert("*"@ =~= seq!['*']);
    assert(seq!['\u{2192}'][0] == '\u{2192}');
    assert(seq!['*'][0] == '*');
    assert("->"@.len() == 2);
}

/// The line of the alphabet holds the symbols.
pub proof fn lemma_header_words(m: DfaModel, rest: Seq<char>)
    requires
        printable(m),
    ensures
        line_words(header_line(m) + seq!['\n'] + rest, false) == m.alphabet,
        one_line(header_line(m)),
{
    let widths = column_widths(m);
    let pad = blanks(4 + name_width(m, m.states.len() as int));
    let cells = padded_from(m.alphabet, widths, 0);
    let tail = seq!['\n'] + rest;
    lemma_header_cells(m, m.alphabet.len() as int);
    assert(header_cells(m, m.alphabet.len() as int) =~= cells) by {
        assert(padded_from(m.alphabet, widths, m.alphabet.len() as int) =~= Seq::<char>::empty());
    }
    lemma_blanks(4 + name_width(m, m.states.len() as int));
    assert(tail[0] == '\n');
    assert(is_whitespace('\n'));
    lemma_padded_words(m.alphabet, widths, 0, tail, false);
    lemma_padded_one_line(m.alphabet, widths, 0, false);
    lemma_leading_gaps(pad, cells + tail, false);
    lemma_no_word(Seq::empty(), rest, false);
    assert(Seq::<char>::empty() + seq!['\n'] + rest =~= tail);
    assert(header_line(m) + seq!['\n'] + rest =~= pad + (cells + tail));
    assert(m.alphabet.skip(0) =~= m.alphabet);
    assert(m.alphabet + Seq::<Seq<char>>::empty() =~= m.alphabet);
}

/// The names of the targets are names.
pub proof fn lemma_target_names(m: DfaModel, q: int)
    requires
        printable(m),
        0 <= q < m.states.len(),
    ensures
        target_names(m, q).len() == m.alphabet.len(),
        forall|i: int|
            0 <= i < target_names(m, q).len() ==> is_name(#[trigger] target_names(m, q)[i], false),
{
    assert forall|i: int| 0 <= i < target_names(m, q).len() implies is_name(
        #[trigger] target_names(m, q)[i],
        false,
    ) by {
        let t = m.states[q].transitions[i];
        assert(0 <= t < m.states.len());
        assert(is_name(m.states[t].name, false));
    }
}

/// The line of a state holds its marks, its name and the names of its
/// targets.
pub proof fn lemma_state_words(m: DfaModel, q: int, rest: Seq<char>)
    requires
        printable(m),
        0 <= q < m.states.len(),
    ensures
        line_words(state_line(m, q) + seq!['\n'] + rest, false) == row_words(m, q),
        one_line(state_line(m, q)),
{
    let widths = column_widths(m);
    let names = name_width(m, m.states.len() as int);
    let words = seq![m.states[q].name] + target_names(m, q);
    let all_widths = seq![names] + widths;
    let tail = seq!['\n'] + rest;
    lemma_target_names(m, q);
    lemma_row_cells(m, q, m.alphabet.len() as int);
    assert(padded_from(target_names(m, q), widths, m.alphabet.len() as int) =~= Seq::<
        char,
    >::empty());
    let cells = padded_from(target_names(m, q), widths, 0);
    assert(row_cells(m, q, m.alphabet.len() as int) =~= cells);
    let named = padded_word(m.states[q].name, names) + cells;
    assert(is_name(m.states[q].name, false));
    assert(tail[0] == '\n');
    assert(is_whitespace('\n'));
    assert(is_whitespace(' '));
    lemma_padded_words(target_names(m, q), widths, 0, tail, false);
    lemma_padded_one_line(target_names(m, q), widths, 0, false);
    lemma_word_one_line(m.states[q].name, false);
    lemma_blanks(names - m.states[q].name.len());
    let pad = seq![' '] + blanks(names - m.states[q].name.len());
    lemma_first_word(pad, m.states[q].name, cells + tail, false);
    assert(named + tail =~= pad + m.states[q].name + (cells + tail));
    assert(target_names(m, q).skip(0) =~= target_names(m, q));
    lemma_no_word(Seq::empty(), rest, false);
    assert(Seq::<char>::empty() + seq!['\n'] + rest =~= tail);
    assert(line_words(named + tail, false) =~= words);
    assert((named + tail)[0] == ' ');
    lemma_marks();
    let arrow = seq!['\u{2192}'];
    let star = seq!['*'];
    let initial = m.states[q].initial;
    let accepting = m.states[q].accepting;
    let line = state_line(m, q) + seq!['\n'] + rest;
    assert(state_line(m, q) =~= marks_text(initial, accepting) + named);
    if initial && accepting {
        assert(line =~= Seq::<char>::empty() + arrow + (seq![' '] + star + (named + tail)));
        lemma_first_word(Seq::empty(), arrow, seq![' '] + star + (named + tail), false);
        assert((seq![' '] + star + (named + tail))[0] == ' ');
        lemma_first_word(seq![' '], star, named + tail, false);
        assert(seq![arrow] + (seq![star] + words) =~= row_words(m, q));
    } else if initial {
        assert(line =~= Seq::<char>::empty() + arrow + (seq![' ', ' '] + (named + tail)));
        assert((seq![' ', ' '] + (named + tail))[0] == ' ');
        lemma_first_word(Seq::empty(), arrow, seq![' ', ' '] + (named + tail), false);
        lemma_leading_gaps(seq![' ', ' '], named + tail, false);
        assert(seq![arrow] + words =~= row_words(m, q));
    } else if accepting {
        assert(line =~= seq![' ', ' '] + star + (named + tail));
        lemma_first_word(seq![' ', ' '], star, named + tail, false);
        assert(seq![star] + words =~= row_words(m, q));
    } else {
        assert(line =~= seq![' ', ' ', ' '] + (named + tail));
        lemma_leading_gaps(seq![' ', ' ', ' '], named + tail, false);
        assert(words =~= row_words(m, q));
    }
}

/// The lines of the states hold, row by row, the words of the states.
pub proof fn lemma_state_rows(m: DfaModel, from: int)
    requires
        printable(m),
        0 <= from <= m.states.len(),
    ensures
        text_rows(state_lines(m, from), false) == Seq::new(
            (m.states.len() - from) as nat,
            |i: int| row_words(m, from + i),
        ),
    decreases m.states.len() - from,
{
    if from < m.states.len() {
        let rest = state_lines(m, from + 1);
        lemma_state_rows(m, from + 1);
        lemma_state_words(m, from, rest);
        lemma_first_row(state_line(m, from), rest, false);
        assert(text_rows(state_lines(m, from), false) =~= Seq::new(
            (m.states.len() - from) as nat,
            |i: int| row_words(m, from + i),
        ));
    } else {
        assert(text_rows(state_lines(m, from), false) =~= Seq::new(
            (m.states.len() - from) as nat,
            |i: int| row_words(m, from + i),
        ));
    }
}

/// The rows of the table.
pub open spec fn table_rows_of(m: DfaModel) -> Seq<Seq<Seq<char>>> {
    seq![m.alphabet] + Seq::new(m.states.len(), |q: int| row_words(m, q))
}

/// The table holds the line of the alphabet and the lines of the states.
pub proof fn lemma_table_rows(m: DfaModel)
    requires
        printable(m),
    ensures
        text_rows(dfa_table(m), false) == table_rows_of(m),
{
    let rest = state_lines(m, 0);
    lemma_header_words(m, rest);
    lemma_state_rows(m, 0);
    lemma_first_row(header_line(m), rest, false);
    assert(Seq::new((m.states.len() - 0) as nat, |i: int| row_words(m, 0 + i)) =~= Seq::new(
        m.states.len(),
        |q: int| row_words(m, q),
    ));
}

/// The words of the line of a state describe the state.
pub proof fn lemma_row_read(m: DfaModel, q: int)
    requires
        printable(m),
        0 <= q < m.states.len(),
    ensures
        dfa_row(row_words(m, q)) == Some(read_back(m).states[q]),
{
    let words = row_words(m, q);
    let initial = m.states[q].initial;
    let accepting = m.states[q].accepting;
    let name = m.states[q].name;
    lemma_marks();
    lemma_target_names(m, q);
    let marks = mark_words(initial, accepting);
    let k = marks.len() as int;
    assert(is_name(name, false));
    assert(words[k] == name);
    assert(forall|i: int| 0 <= i < k ==> words[i] == marks[i]);
    assert(marks_count(words) == k);
    assert(marked_initial(words) == initial);
    assert(marked_accepting(words) == accepting);
    assert(words.skip(k + 1) =~= target_names(m, q));
    assert forall|i: int| k <= i < words.len() implies !is_reserved(#[trigger] words[i]) by {
        if i > k {
            assert(words[i] == target_names(m, q)[i - k - 1]);
            assert(is_name(target_names(m, q)[i - k - 1], false));
        }
    }
}

/// No row of the table describes no state.
pub proof fn lemma_rows_read(m: DfaModel, from: int)
    requires
        printable(m),
        1 <= from <= m.states.len() + 1,
    ensures
        first_bad_dfa_row(table_rows_of(m), from) is None,
    decreases m.states.len() + 1 - from,
{
    if from < m.states.len() + 1 {
        lemma_rows_read(m, from + 1);
        lemma_row_read(m, from - 1);
        assert(table_rows_of(m)[from] == row_words(m, from - 1));
    }
}

/// The table is read as what was written.
pub proof fn lemma_table_read(m: DfaModel)
    requires
        printable(m),
    ensures
        parsed_dfa(dfa_table(m)) == Ok::<ParsedDfaModel, ErrorModel>(read_back(m)),
{
    let rows = table_rows_of(m);
    lemma_table_rows(m);
    lemma_rows_read(m, 1);
    assert(rows[0] == m.alphabet);
    assert(all_names(rows[0], 0));
    let states = Seq::new((rows.len() - 1) as nat, |i: int| dfa_row(rows[i + 1]).unwrap());
    assert(states =~= read_back(m).states) by {
        assert forall|i: int| 0 <= i < states.len() implies states[i] == read_back(
            m,
        ).states[i] by {
            lemma_row_read(m, i);
            assert(rows[i + 1] == row_words(m, i));
        }
    }
}

/// A list without an item twice has no first item that is repeated.
pub proof fn lemma_none_repeated(items: Seq<Seq<char>>, from: int)
    requires
        0 <= from <= items.len(),
        forall|i: int, j: int| 0 <= i < j < items.len() ==> items[i] != items[j],
    ensures
        first_repeated(items, from) is None,
    decreases items.len() - from,
{
    if from < items.len() {
        lemma_none_repeated(items, from + 1);
        if items.take(from).contains(items[from]) {
            let i = choose|i: int| 0 <= i < from && items.take(from)[i] == items[from];
            assert(items[i] == items[from]);
        }
    }
}

/// What is read back has no fault.
pub proof fn lemma_read_back(m: DfaModel, from: int)
    requires
        printable(m),
        0 <= from <= m.states.len(),
    ensures
        first_initial(read_back(m), from) == (if from <= m.initial {
            Some(m.initial)
        } else {
            None
        }),
        first_unknown(read_back(m), from) is None,
        first_bad_width(read_back(m), from) is None,
    decreases m.states.len() - from,
{
    let p = read_back(m);
    if from < m.states.len() {
        lemma_read_back(m, from + 1);
        lemma_target_names(m, from);
        lemma_all_known(m, from, 0);
    }
}

/// Every target of a row names a state.
pub proof fn lemma_all_known(m: DfaModel, q: int, from: int)
    requires
        printable(m),
        0 <= q < m.states.len(),
        0 <= from <= m.alphabet.len(),
    ensures
        first_missing(state_names(read_back(m)), target_names(m, q), from) is None,
    decreases m.alphabet.len() - from,
{
    if from < m.alphabet.len() {
        lemma_all_known(m, q, from + 1);
        let t = m.states[q].transitions[from];
        assert(0 <= t < m.states.len());
        assert(state_names(read_back(m))[t] == target_names(m, q)[from]);
    }
}

/// No symbol spells the move that reads nothing.
pub proof fn lemma_no_epsilon(m: DfaModel, from: int)
    requires
        printable(m),
        0 <= from <= m.alphabet.len(),
    ensures
        first_epsilon(m.alphabet, from) is None,
    decreases m.alphabet.len() - from,
{
    if from < m.alphabet.len() {
        lemma_no_epsilon(m, from + 1);
    }
}

/// The table of an automaton that a table can hold is read back as the
/// automaton.
pub proof fn law_dfa_table_round_trip(m: DfaModel)
    requires
        printable(m),
    ensures
        dfa_of_text(dfa_table(m)) == Ok::<DfaModel, ErrorModel>(m),
{
    let p = read_back(m);
    let names = state_names(p);
    lemma_table_read(m);
    lemma_no_epsilon(m, 0);
    lemma_none_repeated(m.alphabet, 0);
    assert forall|i: int, j: int| 0 <= i < j < names.len() implies names[i] != names[j] by {
        assert(names[i] == m.states[i].name && names[j] == m.states[j].name);
    }
    lemma_none_repeated(names, 0);
    lemma_read_back(m, 0);
    lemma_read_back(m, m.initial + 1);
    assert(dfa_fault(p) is None);
    let d = dfa_from(p);
    assert(d.states =~= m.states) by {
        assert forall|q: int| 0 <= q < m.states.len() implies d.states[q] == m.states[q] by {
            assert(d.states[q].transitions =~= m.states[q].transitions) by {
                assert forall|x: int| 0 <= x < m.alphabet.len() implies d.states[q].transitions[x]
                    == m.states[q].transitions[x] by {
                    let t = m.states[q].transitions[x];
                    assert(0 <= t < m.states.len());
                    let c = target_names(m, q)[x];
                    assert(names[t] == c);
                    let chosen = names.index_of(c);
                    assert(names.contains(c));
                    if chosen < t {
                        assert(names[chosen] != names[t]);
                    } else if t < chosen {
                        assert(names[t] != names[chosen]);
                    }
                }
            }
        }
    }
    assert(d == m);
}

} // verus!
