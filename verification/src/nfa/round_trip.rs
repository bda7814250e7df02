//! The table of a nondeterministic automaton is read back as the
//! automaton.

use vstd::prelude::*;
use crate::dfa::round_trip::{mark_words, lemma_leading_gaps, lemma_marks, lemma_none_repeated};
use crate::dfa::parse::first_missing;
use crate::dfa::table::{blanks, padded_word, marks_text};
use crate::error::ErrorModel;
use crate::nfa::NfaModel;
use crate::nfa::parse::{
    nfa_fault,
    nfa_from,
    nfa_of_text,
    head_words,
    eps_column,
    nfa_state_names,
    first_initial_row,
    first_missing_in,
    first_unknown_target,
    first_bad_row_width,
    without,
    named_targets,
};
use crate::nfa::table::{
    set_text,
    cell_text,
    nfa_name_width,
    nfa_column_width,
    epsilon_width,
    nfa_header_cells,
    nfa_row_cells,
    epsilon_head,
    epsilon_cell,
    nfa_header_line,
    nfa_state_line,
    nfa_state_lines,
    nfa_table,
};
use crate::parser::table_syntax::{line_words, text_rows};
use crate::parser::tables::{
    ParsedNfaModel,
    ParsedNfaStateModel,
    all_names,
    is_epsilon,
    is_reserved,
    marks_count,
    marked_initial,
    marked_accepting,
    names_run,
    cells_from,
    nfa_row,
    nfa_symbol,
    first_bad_nfa_row,
    parsed_nfa,
};
use crate::scan::is_whitespace;
use crate::table_words::{
    is_word,
    is_name,
    ends_word,
    one_line,
    padded_from,
    lemma_first_word,
    lemma_first_brace,
    lemma_no_word,
    lemma_first_row,
    lemma_blanks,
    lemma_padded_words,
    lemma_padded_one_line,
    lemma_word_one_line,
};

verus! {

/// Whether a table can hold the automaton: it has a symbol or a move that
/// reads nothing, its symbols and the names of its states are words
/// without braces that are not reserved, no symbol spells the move that
/// reads nothing, and no two states bear the same name.
pub open spec fn nfa_printable(m: NfaModel) -> bool {
    &&& m.wf()
    &&& (m.alphabet.len() >= 1 || m.has_epsilon_moves())
    &&& forall|x: int|
        0 <= x < m.alphabet.len() ==> is_name(#[trigger] m.alphabet[x], true) && !is_epsilon(
            m.alphabet[x],
        )
    &&& forall|q: int| 0 <= q < m.states.len() ==> is_name((#[trigger] m.states[q]).name, true)
    &&& forall|p: int, q: int|
        0 <= p < q < m.states.len() ==> (#[trigger] m.states[p]).name != (
        #[trigger] m.states[q]).name
}

/// The names of the states of a list.
pub open spec fn names_of(m: NfaModel, targets: Seq<int>) -> Seq<Seq<char>> {
    targets.map_values(|t: int| m.states[t].name)
}

/// The names from the name at `from` on, with a space before each but the
/// first of the list.
pub open spec fn joined_from(names: Seq<Seq<char>>, from: int) -> Seq<char>
    decreases names.len() - from,
{
    if from < 0 || from >= names.len() {
        Seq::empty()
    } else if from == 0 {
        names[from] + joined_from(names, from + 1)
    } else {
        seq![' '] + names[from] + joined_from(names, from + 1)
    }
}

/// The names that are written one by one are the names that are written
/// from the first on.
pub proof fn lemma_set_text(m: NfaModel, targets: Seq<int>, upto: int)
    requires
        0 <= upto <= targets.len(),
    ensures
        set_text(m, targets, upto) + joined_from(names_of(m, targets), upto) == joined_from(
            names_of(m, targets),
            0,
        ),
    decreases upto,
{
    let names = names_of(m, targets);
    if upto > 1 {
        lemma_set_text(m, targets, upto - 1);
        assert(set_text(m, targets, upto) + joined_from(names, upto) =~= set_text(
            m,
            targets,
            upto - 1,
        ) + joined_from(names, upto - 1));
    } else if upto == 1 {
        assert(set_text(m, targets, 1) + joined_from(names, 1) =~= joined_from(names, 0));
    } else {
        assert(set_text(m, targets, 0) + joined_from(names, 0) =~= joined_from(names, 0));
    }
}

/// The names of a set are read back, up to the brace that closes the set.
pub proof fn lemma_joined_words(names: Seq<Seq<char>>, from: int, rest: Seq<char>)
    requires
        0 <= from <= names.len(),
        forall|i: int| 0 <= i < names.len() ==> is_word(#[trigger] names[i], true),
    ensures
        line_words(joined_from(names, from) + seq!['}'] + rest, true) == names.skip(from) + seq![
            seq!['}'],
        ] + line_words(rest, true),
        one_line(joined_from(names, from)),
        ends_word(joined_from(names, from) + seq!['}'] + rest, true) || from == 0,
    decreases names.len() - from,
{
    let tail = seq!['}'] + rest;
    if from < names.len() {
        lemma_joined_words(names, from + 1, rest);
        let more = joined_from(names, from + 1) + seq!['}'] + rest;
        lemma_word_one_line(names[from], true);
        assert(is_whitespace(' '));
        assert(more.len() > 0);
        if from + 1 < names.len() {
            assert(more[0] == ' ');
        } else {
            assert(joined_from(names, from + 1) =~= Seq::<char>::empty());
            assert(more[0] == '}');
        }
        assert(ends_word(more, true));
        if from == 0 {
            lemma_first_word(Seq::empty(), names[from], more, true);
            assert(joined_from(names, from) + seq!['}'] + rest =~= Seq::<char>::empty()
                + names[from] + more);
        } else {
            lemma_first_word(seq![' '], names[from], more, true);
            assert(joined_from(names, from) + seq!['}'] + rest =~= seq![' '] + names[from]
                + more);
            assert((seq![' '] + names[from] + more)[0] == ' ');
        }
        assert(names.skip(from) =~= seq![names[from]] + names.skip(from + 1));
        assert(seq![names[from]] + (names.skip(from + 1) + seq![seq!['}']] + line_words(
            rest,
            true,
        )) =~= names.skip(from) + seq![seq!['}']] + line_words(rest, true));
    } else {
        assert(joined_from(names, from) + seq!['}'] + rest =~= Seq::<char>::empty() + seq!['}']
            + rest);
        lemma_first_brace(Seq::empty(), '}', rest);
        assert(names.skip(from) =~= Seq::<Seq<char>>::empty());
        assert((Seq::<char>::empty() + seq!['}'] + rest)[0] == '}');
    }
}

/// The words of a set of targets: the braces, and the names between them.
pub open spec fn cell_words(m: NfaModel, targets: Seq<int>) -> Seq<Seq<char>> {
    seq![seq!['{']] + names_of(m, targets) + seq![seq!['}']]
}

/// The words of the sets from the set at `from` on.
pub open spec fn cells_words(m: NfaModel, cells: Seq<Seq<int>>, from: int) -> Seq<Seq<char>>
    decreases cells.len() - from,
{
    if from < 0 || from >= cells.len() {
        Seq::empty()
    } else {
        cell_words(m, cells[from]) + cells_words(m, cells, from + 1)
    }
}

/// The sets from the set at `from` on, each in its column.
pub open spec fn padded_cells(
    m: NfaModel,
    cells: Seq<Seq<int>>,
    widths: Seq<int>,
    from: int,
) -> Seq<char>
    decreases cells.len() - from,
{
    if from < 0 || from >= cells.len() {
        Seq::empty()
    } else {
        padded_word(cell_text(m, cells[from]), widths[from]) + padded_cells(
            m,
            cells,
            widths,
            from + 1,
        )
    }
}

/// Whether the targets are states of the automaton.
pub open spec fn are_states(m: NfaModel, targets: Seq<int>) -> bool {
    forall|k: int| 0 <= k < targets.len() ==> 0 <= #[trigger] targets[k] < m.states.len()
}

/// The names of states are names.
pub proof fn lemma_names_of(m: NfaModel, targets: Seq<int>)
    requires
        nfa_printable(m),
        are_states(m, targets),
    ensures
        forall|i: int|
            0 <= i < targets.len() ==> is_name(#[trigger] names_of(m, targets)[i], true),
{
    assert forall|i: int| 0 <= i < targets.len() implies is_name(
        #[trigger] names_of(m, targets)[i],
        true,
    ) by {
        assert(0 <= targets[i] < m.states.len());
        assert(is_name(m.states[targets[i]].name, true));
    }
}

/// A set of targets in its column is read back as the braces and the names
/// between them.
pub proof fn lemma_cell_words(m: NfaModel, targets: Seq<int>, width: int, rest: Seq<char>)
    requires
        nfa_printable(m),
        are_states(m, targets),
    ensures
        line_words(padded_word(cell_text(m, targets), width) + rest, true) == cell_words(
            m,
            targets,
        ) + line_words(rest, true),
        one_line(padded_word(cell_text(m, targets), width)),
        (padded_word(cell_text(m, targets), width) + rest)[0] == ' ',
{
    let names = names_of(m, targets);
    let text = cell_text(m, targets);
    let pad = seq![' '] + blanks(width - text.len());
    lemma_names_of(m, targets);
    lemma_set_text(m, targets, targets.len() as int);
    assert(joined_from(names, targets.len() as int) =~= Seq::<char>::empty());
    let inner = joined_from(names, 0);
    assert(set_text(m, targets, targets.len() as int) =~= inner);
    lemma_joined_words(names, 0, rest);
    lemma_blanks(width - text.len());
    lemma_first_brace(pad, '{', inner + seq!['}'] + rest);
    assert(padded_word(text, width) + rest =~= pad + seq!['{'] + (inner + seq!['}'] + rest));
    assert(names.skip(0) =~= names);
    assert(seq![seq!['{']] + (names + seq![seq!['}']] + line_words(rest, true)) =~= cell_words(
        m,
        targets,
    ) + line_words(rest, true));
    assert((pad + seq!['{'] + (inner + seq!['}'] + rest))[0] == ' ');
    assert(one_line(padded_word(text, width))) by {
        let p = padded_word(text, width);
        assert(p =~= pad + (seq!['{'] + inner + seq!['}']));
        assert forall|i: int| 0 <= i < p.len() implies #[trigger] p[i] != '\n' by {
            if i < pad.len() {
                assert(p[i] == pad[i]);
            } else {
                let j = i - pad.len();
                if j == 0 {
                } else if j <= inner.len() {
                    assert(p[i] == inner[j - 1]);
                } else {
                }
            }
        }
    }
}

/// Sets of targets in their columns are read back.
pub proof fn lemma_cells_words(
    m: NfaModel,
    cells: Seq<Seq<int>>,
    widths: Seq<int>,
    from: int,
    rest: Seq<char>,
)
    requires
        nfa_printable(m),
        0 <= from <= cells.len(),
        forall|x: int| 0 <= x < cells.len() ==> are_states(m, #[trigger] cells[x]),
    ensures
        line_words(padded_cells(m, cells, widths, from) + rest, true) == cells_words(
            m,
            cells,
            from,
        ) + line_words(rest, true),
        one_line(padded_cells(m, cells, widths, from)),
        from < cells.len() ==> (padded_cells(m, cells, widths, from) + rest)[0] == ' ',
    decreases cells.len() - from,
{
    if from < cells.len() {
        let more = padded_cells(m, cells, widths, from + 1) + rest;
        lemma_cells_words(m, cells, widths, from + 1, rest);
        lemma_cell_words(m, cells[from], widths[from], more);
        lemma_cell_words(m, cells[from], widths[from], Seq::empty());
        assert(padded_cells(m, cells, widths, from) + rest =~= padded_word(
            cell_text(m, cells[from]),
            widths[from],
        ) + more);
        assert(cell_words(m, cells[from]) + (cells_words(m, cells, from + 1) + line_words(
            rest,
            true,
        )) =~= cells_words(m, cells, from) + line_words(rest, true));
    } else {
        assert(padded_cells(m, cells, widths, from) + rest =~= rest);
        assert(cells_words(m, cells, from) + line_words(rest, true) =~= line_words(rest, true));
    }
}

/// The word for the move that reads nothing.
pub open spec fn epsilon_word() -> Seq<char> {
    seq!['\u{3b5}']
}

/// The words of the line of the alphabet: the word for the move that reads
/// nothing where the automaton has such moves, then the symbols.
pub open spec fn full_head(m: NfaModel) -> Seq<Seq<char>> {
    (if m.has_epsilon_moves() {
        seq![epsilon_word()]
    } else {
        Seq::empty()
    }) + m.alphabet
}

/// The sets of targets of the line of state `q`: that of the moves that
/// read nothing where the automaton has such moves, then those of the
/// symbols.
pub open spec fn full_cells(m: NfaModel, q: int) -> Seq<Seq<int>> {
    (if m.has_epsilon_moves() {
        seq![m.states[q].epsilon_transitions]
    } else {
        Seq::empty()
    }) + m.states[q].transitions
}

/// The widths of the columns of the symbols.
pub open spec fn symbol_widths(m: NfaModel) -> Seq<int> {
    Seq::new(m.alphabet.len(), |x: int| nfa_column_width(m, x, m.states.len() as int))
}

/// The widths of all the columns of sets.
pub open spec fn full_widths(m: NfaModel) -> Seq<int> {
    (if m.has_epsilon_moves() {
        seq![epsilon_width(m, m.states.len() as int)]
    } else {
        Seq::empty()
    }) + symbol_widths(m)
}

/// The words of the line of state `q`.
pub open spec fn nfa_row_words(m: NfaModel, q: int) -> Seq<Seq<char>> {
    mark_words(m.states[q].initial, m.states[q].accepting) + seq![m.states[q].name] + cells_words(
        m,
        full_cells(m, q),
        0,
    )
}

/// The rows of the table.
pub open spec fn nfa_rows_of(m: NfaModel) -> Seq<Seq<Seq<char>>> {
    seq![full_head(m)] + Seq::new(m.states.len(), |q: int| nfa_row_words(m, q))
}

/// What the table of the automaton holds when it is read.
pub open spec fn nfa_read_back(m: NfaModel) -> ParsedNfaModel {
    ParsedNfaModel {
        head: full_head(m).map_values(|w: Seq<char>| nfa_symbol(w)),
        states: Seq::new(
            m.states.len(),
            |q: int|
                ParsedNfaStateModel {
                    name: m.states[q].name,
                    initial: m.states[q].initial,
                    accepting: m.states[q].accepting,
                    transitions: full_cells(m, q).map_values(|c: Seq<int>| names_of(m, c)),
                },
        ),
    }
}

/// Words written after a first word are the words written from the second
/// word of the longer list on.
pub proof fn lemma_padded_shift(
    first: Seq<char>,
    width: int,
    words: Seq<Seq<char>>,
    widths: Seq<int>,
    from: int,
)
    requires
        0 <= from <= words.len(),
        widths.len() == words.len(),
    ensures
        padded_from(seq![first] + words, seq![width] + widths, from + 1) == padded_from(
            words,
            widths,
            from,
        ),
    decreases words.len() - from,
{
    let longer = seq![first] + words;
    let wider = seq![width] + widths;
    if from < words.len() {
        lemma_padded_shift(first, width, words, widths, from + 1);
        assert(longer[from + 1] == words[from]);
        assert(wider[from + 1] == widths[from]);
    }
}

/// Sets written after a first set are the sets written from the second set
/// of the longer list on.
pub proof fn lemma_cells_shift(
    m: NfaModel,
    first: Seq<int>,
    width: int,
    cells: Seq<Seq<int>>,
    widths: Seq<int>,
    from: int,
)
    requires
        0 <= from <= cells.len(),
        widths.len() == cells.len(),
    ensures
        padded_cells(m, seq![first] + cells, seq![width] + widths, from + 1) == padded_cells(
            m,
            cells,
            widths,
            from,
        ),
    decreases cells.len() - from,
{
    let longer = seq![first] + cells;
    let wider = seq![width] + widths;
    if from < cells.len() {
        lemma_cells_shift(m, first, width, cells, widths, from + 1);
        assert(longer[from + 1] == cells[from]);
        assert(wider[from + 1] == widths[from]);
    }
}

/// The symbols that are written one by one are the words that are written
/// from the first symbol on.
pub proof fn lemma_nfa_header_cells(m: NfaModel, upto: int)
    requires
        0 <= upto <= m.alphabet.len(),
    ensures
        nfa_header_cells(m, upto) + padded_from(m.alphabet, symbol_widths(m), upto)
            == padded_from(m.alphabet, symbol_widths(m), 0),
    decreases upto,
{
    if upto > 0 {
        lemma_nfa_header_cells(m, upto - 1);
        assert(nfa_header_cells(m, upto) + padded_from(m.alphabet, symbol_widths(m), upto)
            =~= nfa_header_cells(m, upto - 1) + padded_from(
            m.alphabet,
            symbol_widths(m),
            upto - 1,
        ));
    } else {
        assert(nfa_header_cells(m, 0) + padded_from(m.alphabet, symbol_widths(m), 0)
            =~= padded_from(m.alphabet, symbol_widths(m), 0));
    }
}

/// The sets that are written one by one are the sets that are written from
/// the first set on.
pub proof fn lemma_nfa_row_cells(m: NfaModel, q: int, upto: int)
    requires
        m.wf(),
        0 <= q < m.states.len(),
        0 <= upto <= m.alphabet.len(),
    ensures
        nfa_row_cells(m, q, upto) + padded_cells(
            m,
            m.states[q].transitions,
            symbol_widths(m),
            upto,
        ) == padded_cells(m, m.states[q].transitions, symbol_widths(m), 0),
    decreases upto,
{
    let cells = m.states[q].transitions;
    if upto > 0 {
        lemma_nfa_row_cells(m, q, upto - 1);
        assert(nfa_row_cells(m, q, upto) + padded_cells(m, cells, symbol_widths(m), upto)
            =~= nfa_row_cells(m, q, upto - 1) + padded_cells(
            m,
            cells,
            symbol_widths(m),
            upto - 1,
        ));
    } else {
        assert(nfa_row_cells(m, q, 0) + padded_cells(m, cells, symbol_widths(m), 0)
            =~= padded_cells(m, cells, symbol_widths(m), 0));
    }
}

/// The line of the alphabet is white space and the words of the alphabet,
/// each in its column.
pub proof fn lemma_nfa_header_line(m: NfaModel)
    requires
        m.wf(),
    ensures
        nfa_header_line(m) == blanks(4 + nfa_name_width(m, m.states.len() as int)) + padded_from(
            full_head(m),
            full_widths(m),
            0,
        ),
{
    let widths = symbol_widths(m);
    lemma_nfa_header_cells(m, m.alphabet.len() as int);
    assert(padded_from(m.alphabet, widths, m.alphabet.len() as int) =~= Seq::<char>::empty());
    assert(nfa_header_cells(m, m.alphabet.len() as int) =~= padded_from(m.alphabet, widths, 0));
    if m.has_epsilon_moves() {
        lemma_padded_shift(
            epsilon_word(),
            epsilon_width(m, m.states.len() as int),
            m.alphabet,
            widths,
            0,
        );
        assert(full_head(m) =~= seq![epsilon_word()] + m.alphabet);
        assert(full_widths(m) =~= seq![epsilon_width(m, m.states.len() as int)] + widths);
        assert(padded_from(full_head(m), full_widths(m), 0) =~= epsilon_head(m) + padded_from(
            m.alphabet,
            widths,
            0,
        ));
    } else {
        assert(full_head(m) =~= m.alphabet);
        assert(full_widths(m) =~= widths);
        assert(epsilon_head(m) + padded_from(m.alphabet, widths, 0) =~= padded_from(
            m.alphabet,
            widths,
            0,
        ));
    }
    assert(nfa_header_line(m) =~= blanks(4 + nfa_name_width(m, m.states.len() as int))
        + padded_from(full_head(m), full_widths(m), 0));
}

/// The line of a state is its marks, its name and its sets, each in its
/// column.
pub proof fn lemma_nfa_state_line(m: NfaModel, q: int)
    requires
        m.wf(),
        0 <= q < m.states.len(),
    ensures
        nfa_state_line(m, q) == marks_text(m.states[q].initial, m.states[q].accepting)
            + padded_word(m.states[q].name, nfa_name_width(m, m.states.len() as int))
            + padded_cells(m, full_cells(m, q), full_widths(m), 0),
{
    let widths = symbol_widths(m);
    let cells = m.states[q].transitions;
    lemma_nfa_row_cells(m, q, m.alphabet.len() as int);
    assert(padded_cells(m, cells, widths, m.alphabet.len() as int) =~= Seq::<char>::empty());
    assert(nfa_row_cells(m, q, m.alphabet.len() as int) =~= padded_cells(m, cells, widths, 0));
    if m.has_epsilon_moves() {
        lemma_cells_shift(
            m,
            m.states[q].epsilon_transitions,
            epsilon_width(m, m.states.len() as int),
            cells,
            widths,
            0,
        );
        assert(full_cells(m, q) =~= seq![m.states[q].epsilon_transitions] + cells);
        assert(full_widths(m) =~= seq![epsilon_width(m, m.states.len() as int)] + widths);
        assert(padded_cells(m, full_cells(m, q), full_widths(m), 0) =~= epsilon_cell(m, q)
            + padded_cells(m, cells, widths, 0));
    } else {
        assert(full_cells(m, q) =~= cells);
        assert(full_widths(m) =~= widths);
        assert(epsilon_cell(m, q) + padded_cells(m, cells, widths, 0) =~= padded_cells(
            m,
            cells,
            widths,
            0,
        ));
    }
    assert(nfa_state_line(m, q) =~= marks_text(m.states[q].initial, m.states[q].accepting)
        + padded_word(m.states[q].name, nfa_name_width(m, m.states.len() as int))
        + padded_cells(m, full_cells(m, q), full_widths(m), 0));
}

/// The words of the alphabet are words, and no names are reserved.
pub proof fn lemma_full_head(m: NfaModel)
    requires
        nfa_printable(m),
    ensures
        full_head(m).len() >= 1,
        forall|i: int| 0 <= i < full_head(m).len() ==> is_name(#[trigger] full_head(m)[i], true),
        "\u{3b5}"@ == epsilon_word(),
        is_epsilon(epsilon_word()),
        "{"@ == seq!['{'],
        "}"@ == seq!['}'],
        is_reserved(seq!['{']),
        is_reserved(seq!['}']),
{
    reveal_strlit("\u{3b5}");
    reveal_strlit("\u{2192}");
    reveal_strlit("->");
    reveal_strlit("*");
    reveal_strlit("{");
    reveal_strlit("}");
    reveal_strlit("|");
    assert("\u{3b5}"@ =~= epsilon_word());
    assert("{"@ =~= seq!['{']);
    assert("}"@ =~= seq!['}']);
    let e = epsilon_word();
    assert(e[0] == '\u{3b5}');
    assert(is_word(e, true));
    assert(!is_reserved(e)) by {
        assert("\u{2192}"@[0] != e[0]);
        assert("->"@.len() == 2);
        assert("*"@[0] != e[0]);
        assert("{"@[0] != e[0]);
        assert("}"@[0] != e[0]);
        assert("|"@[0] != e[0]);
    }
    assert forall|i: int| 0 <= i < full_head(m).len() implies is_name(
        #[trigger] full_head(m)[i],
        true,
    ) by {
        if m.has_epsilon_moves() {
            if i > 0 {
                assert(full_head(m)[i] == m.alphabet[i - 1]);
            }
        } else {
            assert(full_head(m)[i] == m.alphabet[i]);
        }
    }
}

/// The sets of a state hold states.
pub proof fn lemma_full_cells(m: NfaModel, q: int)
    requires
        m.wf(),
        0 <= q < m.states.len(),
    ensures
        full_cells(m, q).len() == full_head(m).len(),
        forall|x: int| 0 <= x < full_cells(m, q).len() ==> are_states(
            m,
            #[trigger] full_cells(m, q)[x],
        ),
{
    assert forall|x: int| 0 <= x < full_cells(m, q).len() implies are_states(
        m,
        #[trigger] full_cells(m, q)[x],
    ) by {
        let cell = full_cells(m, q)[x];
        assert forall|k: int| 0 <= k < cell.len() implies 0 <= #[trigger] cell[k]
            < m.states.len() by {
            if m.has_epsilon_moves() {
                if x == 0 {
                    assert(cell[k] == m.states[q].epsilon_transitions[k]);
                } else {
                    assert(cell[k] == m.states[q].transitions[x - 1][k]);
                }
            } else {
                assert(cell[k] == m.states[q].transitions[x][k]);
            }
        }
    }
}

/// The line of the alphabet holds the words of the alphabet.
pub proof fn lemma_nfa_header_words(m: NfaModel, rest: Seq<char>)
    requires
        nfa_printable(m),
    ensures
        line_words(nfa_header_line(m) + seq!['\n'] + rest, true) == full_head(m),
        one_line(nfa_header_line(m)),
{
    let pad = blanks(4 + nfa_name_width(m, m.states.len() as int));
    let cells = padded_from(full_head(m), full_widths(m), 0);
    let tail = seq!['\n'] + rest;
    lemma_nfa_header_line(m);
    lemma_full_head(m);
    lemma_blanks(4 + nfa_name_width(m, m.states.len() as int));
    assert(tail[0] == '\n');
    assert(is_whitespace('\n'));
    lemma_padded_words(full_head(m), full_widths(m), 0, tail, true);
    lemma_padded_one_line(full_head(m), full_widths(m), 0, true);
    lemma_leading_gaps(pad, cells + tail, true);
    lemma_no_word(Seq::empty(), rest, true);
    assert(Seq::<char>::empty() + seq!['\n'] + rest =~= tail);
    assert(nfa_header_line(m) + seq!['\n'] + rest =~= pad + (cells + tail));
    assert(full_head(m).skip(0) =~= full_head(m));
    assert(full_head(m) + Seq::<Seq<char>>::empty() =~= full_head(m));
}

/// The line of a state holds its marks, its name and the words of its
/// sets.
pub proof fn lemma_nfa_state_words(m: NfaModel, q: int, rest: Seq<char>)
    requires
        nfa_printable(m),
        0 <= q < m.states.len(),
    ensures
        line_words(nfa_state_line(m, q) + seq!['\n'] + rest, true) == nfa_row_words(m, q),
        one_line(nfa_state_line(m, q)),
{
    let names = nfa_name_width(m, m.states.len() as int);
    let tail = seq!['\n'] + rest;
    let cells = padded_cells(m, full_cells(m, q), full_widths(m), 0);
    let cell_list = cells_words(m, full_cells(m, q), 0);
    let words = seq![m.states[q].name] + cell_list;
    lemma_nfa_state_line(m, q);
    lemma_full_cells(m, q);
    lemma_full_head(m);
    lemma_cells_words(m, full_cells(m, q), full_widths(m), 0, tail);
    assert(is_name(m.states[q].name, true));
    assert(tail[0] == '\n');
    assert(is_whitespace('\n'));
    assert(is_whitespace(' '));
    lemma_word_one_line(m.states[q].name, true);
    lemma_blanks(names - m.states[q].name.len());
    let pad = seq![' '] + blanks(names - m.states[q].name.len());
    assert((cells + tail)[0] == ' ');
    lemma_first_word(pad, m.states[q].name, cells + tail, true);
    let named = padded_word(m.states[q].name, names) + cells;
    assert(named + tail =~= pad + m.states[q].name + (cells + tail));
    lemma_no_word(Seq::empty(), rest, true);
    assert(Seq::<char>::empty() + seq!['\n'] + rest =~= tail);
    assert(line_words(named + tail, true) =~= words);
    assert((named + tail)[0] == ' ');
    lemma_marks();
    let arrow = seq!['\u{2192}'];
    let star = seq!['*'];
    assert(is_word(arrow, true)) by {
        assert(arrow[0] == '\u{2192}');
    }
    assert(is_word(star, true)) by {
        assert(star[0] == '*');
    }
    let initial = m.states[q].initial;
    let accepting = m.states[q].accepting;
    let line = nfa_state_line(m, q) + seq!['\n'] + rest;
    assert(nfa_state_line(m, q) =~= marks_text(initial, accepting) + named);
    if initial && accepting {
        assert(line =~= Seq::<char>::empty() + arrow + (seq![' '] + star + (named + tail)));
        lemma_first_word(Seq::empty(), arrow, seq![' '] + star + (named + tail), true);
        assert((seq![' '] + star + (named + tail))[0] == ' ');
        lemma_first_word(seq![' '], star, named + tail, true);
        assert(seq![arrow] + (seq![star] + words) =~= nfa_row_words(m, q));
    } else if initial {
        assert(line =~= Seq::<char>::empty() + arrow + (seq![' ', ' '] + (named + tail)));
        assert((seq![' ', ' '] + (named + tail))[0] == ' ');
        lemma_first_word(Seq::empty(), arrow, seq![' ', ' '] + (named + tail), true);
        lemma_leading_gaps(seq![' ', ' '], named + tail, true);
        assert(seq![arrow] + words =~= nfa_row_words(m, q));
    } else if accepting {
        assert(line =~= seq![' ', ' '] + star + (named + tail));
        lemma_first_word(seq![' ', ' '], star, named + tail, true);
        assert(seq![star] + words =~= nfa_row_words(m, q));
    } else {
        assert(line =~= seq![' ', ' ', ' '] + (named + tail));
        lemma_leading_gaps(seq![' ', ' ', ' '], named + tail, true);
        assert(words =~= nfa_row_words(m, q));
    }
}

/// The lines of the states hold, row by row, the words of the states.
pub proof fn lemma_nfa_state_rows(m: NfaModel, from: int)
    requires
        nfa_printable(m),
        0 <= from <= m.states.len(),
    ensures
        text_rows(nfa_state_lines(m, from), true) == Seq::new(
            (m.states.len() - from) as nat,
            |i: int| nfa_row_words(m, from + i),
        ),
    decreases m.states.len() - from,
{
    if from < m.states.len() {
        let rest = nfa_state_lines(m, from + 1);
        lemma_nfa_state_rows(m, from + 1);
        lemma_nfa_state_words(m, from, rest);
        lemma_first_row(nfa_state_line(m, from), rest, true);
        assert(text_rows(nfa_state_lines(m, from), true) =~= Seq::new(
            (m.states.len() - from) as nat,
            |i: int| nfa_row_words(m, from + i),
        ));
    } else {
        assert(text_rows(nfa_state_lines(m, from), true) =~= Seq::new(
            (m.states.len() - from) as nat,
            |i: int| nfa_row_words(m, from + i),
        ));
    }
}

/// The table holds the line of the alphabet and the lines of the states.
pub proof fn lemma_nfa_table_rows(m: NfaModel)
    requires
        nfa_printable(m),
    ensures
        text_rows(nfa_table(m), true) == nfa_rows_of(m),
{
    let rest = nfa_state_lines(m, 0);
    lemma_nfa_header_words(m, rest);
    lemma_nfa_state_rows(m, 0);
    lemma_full_head(m);
    lemma_first_row(nfa_header_line(m), rest, true);
    assert(Seq::new((m.states.len() - 0) as nat, |i: int| nfa_row_words(m, 0 + i)) =~= Seq::new(
        m.states.len(),
        |q: int| nfa_row_words(m, q),
    ));
}

/// Names that a reserved word follows are all the names that follow one
/// another.
pub proof fn lemma_names_run(words: Seq<Seq<char>>, from: int, count: int)
    requires
        0 <= from,
        0 <= count,
        from + count < words.len(),
        forall|j: int| from <= j < from + count ==> !is_reserved(#[trigger] words[j]),
        is_reserved(words[from + count]),
    ensures
        names_run(words, from) == count,
    decreases count,
{
    if count > 0 {
        lemma_names_run(words, from + 1, count - 1);
    }
}

/// The words of sets are read as the sets.
pub proof fn lemma_cells_read(m: NfaModel, cells: Seq<Seq<int>>, from: int, words: Seq<Seq<char>>, at: int)
    requires
        nfa_printable(m),
        0 <= from <= cells.len(),
        forall|x: int| 0 <= x < cells.len() ==> are_states(m, #[trigger] cells[x]),
        0 <= at <= words.len(),
        words.skip(at) == cells_words(m, cells, from),
    ensures
        cells_from(words, at) == Some(
            cells.skip(from).map_values(|c: Seq<int>| names_of(m, c)),
        ),
    decreases cells.len() - from,
{
    let view = |c: Seq<int>| names_of(m, c);
    lemma_full_head(m);
    if from < cells.len() {
        let names = names_of(m, cells[from]);
        let count = names.len() as int;
        let these = cell_words(m, cells[from]);
        let more = cells_words(m, cells, from + 1);
        let suffix = words.skip(at);
        assert(suffix == these + more);
        assert(suffix.len() == words.len() - at);
        assert(these.len() == count + 2);
        lemma_names_of(m, cells[from]);
        assert(words[at] == suffix[0]);
        assert(suffix[0] == seq!['{']);
        assert forall|j: int| at + 1 <= j < at + 1 + count implies !is_reserved(
            #[trigger] words[j],
        ) by {
            assert(words[j] == suffix[j - at]);
            assert(suffix[j - at] == names[j - at - 1]);
            assert(is_name(names[j - at - 1], true));
        }
        assert(words[at + 1 + count] == suffix[count + 1]);
        assert(suffix[count + 1] == seq!['}']);
        lemma_names_run(words, at + 1, count);
        let close = at + 1 + count;
        assert(words.subrange(at + 1, close) =~= names) by {
            assert forall|j: int| 0 <= j < count implies words.subrange(at + 1, close)[j]
                == names[j] by {
                assert(words[at + 1 + j] == suffix[j + 1]);
            }
        }
        assert(words.skip(close + 1) =~= more) by {
            assert forall|j: int| 0 <= j < more.len() implies words.skip(close + 1)[j]
                == more[j] by {
                assert(words[close + 1 + j] == suffix[count + 2 + j]);
            }
        }
        lemma_cells_read(m, cells, from + 1, words, close + 1);
        assert(seq![names] + cells.skip(from + 1).map_values(view) =~= cells.skip(
            from,
        ).map_values(view));
    } else {
        assert(words.skip(at).len() == 0);
        assert(cells.skip(from).map_values(view) =~= Seq::<Seq<Seq<char>>>::empty());
    }
}

/// The words of the line of a state describe the state.
pub proof fn lemma_nfa_row_read(m: NfaModel, q: int)
    requires
        nfa_printable(m),
        0 <= q < m.states.len(),
    ensures
        nfa_row(nfa_row_words(m, q)) == Some(nfa_read_back(m).states[q]),
{
    let words = nfa_row_words(m, q);
    let initial = m.states[q].initial;
    let accepting = m.states[q].accepting;
    let name = m.states[q].name;
    let view = |c: Seq<int>| names_of(m, c);
    lemma_marks();
    lemma_full_cells(m, q);
    lemma_full_head(m);
    let marks = mark_words(initial, accepting);
    let k = marks.len() as int;
    assert(is_name(name, true));
    assert(words[k] == name);
    assert(forall|i: int| 0 <= i < k ==> words[i] == marks[i]);
    assert(marks_count(words) == k);
    assert(marked_initial(words) == initial);
    assert(marked_accepting(words) == accepting);
    assert(words.skip(k + 1) =~= cells_words(m, full_cells(m, q), 0));
    lemma_cells_read(m, full_cells(m, q), 0, words, k + 1);
    assert(full_cells(m, q).skip(0) =~= full_cells(m, q));
}

/// No row of the table describes no state.
pub proof fn lemma_nfa_rows_read(m: NfaModel, from: int)
    requires
        nfa_printable(m),
        1 <= from <= m.states.len() + 1,
    ensures
        first_bad_nfa_row(nfa_rows_of(m), from) is None,
    decreases m.states.len() + 1 - from,
{
    if from < m.states.len() + 1 {
        lemma_nfa_rows_read(m, from + 1);
        lemma_nfa_row_read(m, from - 1);
        assert(nfa_rows_of(m)[from] == nfa_row_words(m, from - 1));
    }
}

/// The table is read as what was written.
pub proof fn lemma_nfa_table_read(m: NfaModel)
    requires
        nfa_printable(m),
    ensures
        parsed_nfa(nfa_table(m)) == Ok::<ParsedNfaModel, ErrorModel>(nfa_read_back(m)),
{
    let rows = nfa_rows_of(m);
    lemma_nfa_table_rows(m);
    lemma_nfa_rows_read(m, 1);
    lemma_full_head(m);
    assert(rows[0] == full_head(m));
    assert(all_names(rows[0], 0));
    let states = Seq::new((rows.len() - 1) as nat, |i: int| nfa_row(rows[i + 1]).unwrap());
    assert(states =~= nfa_read_back(m).states) by {
        assert forall|i: int| 0 <= i < states.len() implies states[i] == nfa_read_back(
            m,
        ).states[i] by {
            lemma_nfa_row_read(m, i);
            assert(rows[i + 1] == nfa_row_words(m, i));
        }
    }
}

/// Every target of a set names a state.
pub proof fn lemma_cell_known(m: NfaModel, targets: Seq<int>, from: int)
    requires
        nfa_printable(m),
        are_states(m, targets),
        0 <= from <= targets.len(),
    ensures
        first_missing(nfa_state_names(nfa_read_back(m)), names_of(m, targets), from) is None,
    decreases targets.len() - from,
{
    if from < targets.len() {
        lemma_cell_known(m, targets, from + 1);
        let t = targets[from];
        assert(0 <= t < m.states.len());
        assert(nfa_state_names(nfa_read_back(m))[t] == names_of(m, targets)[from]);
    }
}

/// Every target of the sets of a row names a state.
pub proof fn lemma_cells_known(m: NfaModel, q: int, from: int)
    requires
        nfa_printable(m),
        0 <= q < m.states.len(),
        0 <= from <= full_cells(m, q).len(),
    ensures
        first_missing_in(
            nfa_state_names(nfa_read_back(m)),
            nfa_read_back(m).states[q].transitions,
            from,
        ) is None,
    decreases full_cells(m, q).len() - from,
{
    lemma_full_cells(m, q);
    if from < full_cells(m, q).len() {
        lemma_cells_known(m, q, from + 1);
        lemma_cell_known(m, full_cells(m, q)[from], 0);
    }
}

/// What is read back has one initial state, no unknown target and no row
/// of a wrong width.
pub proof fn lemma_nfa_read_back(m: NfaModel, from: int)
    requires
        nfa_printable(m),
        0 <= from <= m.states.len(),
    ensures
        first_initial_row(nfa_read_back(m), from) == (if from <= m.initial {
            Some(m.initial)
        } else {
            None
        }),
        first_unknown_target(nfa_read_back(m), from) is None,
        first_bad_row_width(nfa_read_back(m), from) is None,
    decreases m.states.len() - from,
{
    if from < m.states.len() {
        lemma_nfa_read_back(m, from + 1);
        lemma_full_cells(m, from);
        lemma_cells_known(m, from, 0);
    }
}

/// The name of a state is found at the place of the state.
pub proof fn lemma_name_place(m: NfaModel, t: int)
    requires
        nfa_printable(m),
        0 <= t < m.states.len(),
    ensures
        nfa_state_names(nfa_read_back(m)).index_of(m.states[t].name) == t,
{
    let names = nfa_state_names(nfa_read_back(m));
    let c = m.states[t].name;
    assert(names[t] == c);
    assert(names.contains(c));
    let chosen = names.index_of(c);
    assert(names[chosen] == m.states[chosen].name);
    if chosen < t {
        assert(m.states[chosen].name != m.states[t].name);
    } else if t < chosen {
        assert(m.states[t].name != m.states[chosen].name);
    }
}

/// The names of targets are read back as the targets.
pub proof fn lemma_named_targets(m: NfaModel, targets: Seq<int>)
    requires
        nfa_printable(m),
        are_states(m, targets),
    ensures
        named_targets(nfa_state_names(nfa_read_back(m)), names_of(m, targets)) == targets,
{
    let back = named_targets(nfa_state_names(nfa_read_back(m)), names_of(m, targets));
    assert forall|k: int| 0 <= k < targets.len() implies back[k] == targets[k] by {
        lemma_name_place(m, targets[k]);
    }
    assert(back =~= targets);
}

/// The table of an automaton that a table can hold is read back as the
/// automaton.
pub proof fn law_nfa_table_round_trip(m: NfaModel)
    requires
        nfa_printable(m),
    ensures
        nfa_of_text(nfa_table(m)) == Ok::<NfaModel, ErrorModel>(m),
{
    let p = nfa_read_back(m);
    let names = nfa_state_names(p);
    let head = head_words(p);
    let silent = m.has_epsilon_moves();
    lemma_nfa_table_read(m);
    lemma_full_head(m);
    assert(head =~= full_head(m)) by {
        assert forall|i: int| 0 <= i < head.len() implies head[i] == full_head(m)[i] by {
            let w = full_head(m)[i];
            if silent && i == 0 {
                assert(is_epsilon(w));
            } else {
                let x = if silent {
                    i - 1
                } else {
                    i
                };
                assert(w == m.alphabet[x]);
                assert(!is_epsilon(w));
            }
        }
    }
    assert forall|i: int, j: int| 0 <= i < j < head.len() implies head[i] != head[j] by {
        if silent {
            if i == 0 {
                assert(head[j] == m.alphabet[j - 1]);
                assert(!is_epsilon(m.alphabet[j - 1]));
            } else {
                assert(head[i] == m.alphabet[i - 1] && head[j] == m.alphabet[j - 1]);
            }
        } else {
            assert(head[i] == m.alphabet[i] && head[j] == m.alphabet[j]);
        }
    }
    lemma_none_repeated(head, 0);
    assert forall|i: int, j: int| 0 <= i < j < names.len() implies names[i] != names[j] by {
        assert(names[i] == m.states[i].name && names[j] == m.states[j].name);
    }
    lemma_none_repeated(names, 0);
    lemma_nfa_read_back(m, 0);
    lemma_nfa_read_back(m, m.initial + 1);
    assert(nfa_fault(p) is None);
    let eps = eps_column(p, 0);
    assert(eps == (if silent {
        Some(0int)
    } else {
        None
    })) by {
        crate::nfa::parse::lemma_eps_column(p, 0);
        if silent {
            assert(p.head[0] == nfa_symbol(full_head(m)[0]));
        } else {
            assert forall|x: int| 0 <= x < p.head.len() implies !((#[trigger] p.head[x]) is Eps) by {
                assert(p.head[x] == nfa_symbol(m.alphabet[x]));
                assert(!is_epsilon(m.alphabet[x]));
            }
        }
    }
    let n = nfa_from(p);
    assert(n.alphabet =~= m.alphabet);
    assert(n.states =~= m.states) by {
        assert forall|q: int| 0 <= q < m.states.len() implies n.states[q] == m.states[q] by {
            lemma_full_cells(m, q);
            let cells = p.states[q].transitions;
            assert(n.states[q].transitions =~= m.states[q].transitions) by {
                assert forall|x: int| 0 <= x < m.alphabet.len() implies n.states[q].transitions[x]
                    == m.states[q].transitions[x] by {
                    let column = if silent {
                        x + 1
                    } else {
                        x
                    };
                    assert(without(cells, eps)[x] == cells[column]);
                    assert(full_cells(m, q)[column] == m.states[q].transitions[x]);
                    lemma_named_targets(m, m.states[q].transitions[x]);
                }
            }
            if silent {
                assert(full_cells(m, q)[0] == m.states[q].epsilon_transitions);
                lemma_named_targets(m, m.states[q].epsilon_transitions);
            } else {
                assert(m.states[q].epsilon_transitions.len() == 0);
                assert(n.states[q].epsilon_transitions =~= m.states[q].epsilon_transitions);
            }
        }
    }
    assert(n == m);
}

} // verus!
