//! Writing a nondeterministic automaton as a table that can be read again.

use vstd::prelude::*;
use crate::dfa::table::{blanks, padded_word, marks_text, larger, push_padded, push_blanks};
use crate::nfa::{Nfa, NfaModel, targets_of};

verus! {

/// The names of the first `upto` of the targets, separated by spaces.
pub open spec fn set_text(m: NfaModel, targets: Seq<int>, upto: int) -> Seq<char>
    decreases upto,
{
    if upto <= 0 {
        Seq::empty()
    } else if upto == 1 {
        m.states[targets[0]].name
    } else {
        set_text(m, targets, upto - 1) + seq![' '] + m.states[targets[upto - 1]].name
    }
}

/// A set of targets as it stands in a table: the names in braces.
pub open spec fn cell_text(m: NfaModel, targets: Seq<int>) -> Seq<char> {
    seq!['{'] + set_text(m, targets, targets.len() as int) + seq!['}']
}

/// The length of the longest name among the first `upto` states.
pub open spec fn nfa_name_width(m: NfaModel, upto: int) -> int
    decreases upto,
{
    if upto <= 0 {
        0
    } else {
        larger(nfa_name_width(m, upto - 1), m.states[upto - 1].name.len() as int)
    }
}

/// The width of the column of the symbol at `x`: the length of the longest
/// text among the symbol and the sets of the first `upto` states.
pub open spec fn nfa_column_width(m: NfaModel, x: int, upto: int) -> int
    decreases upto,
{
    if upto <= 0 {
        m.alphabet[x].len() as int
    } else {
        larger(
            nfa_column_width(m, x, upto - 1),
            cell_text(m, m.states[upto - 1].transitions[x]).len() as int,
        )
    }
}

/// The width of the column of the moves that read nothing.
pub open spec fn epsilon_width(m: NfaModel, upto: int) -> int
    decreases upto,
{
    if upto <= 0 {
        1
    } else {
        larger(
            epsilon_width(m, upto - 1),
            cell_text(m, m.states[upto - 1].epsilon_transitions).len() as int,
        )
    }
}

/// The first `upto` symbols, each in its column.
pub open spec fn nfa_header_cells(m: NfaModel, upto: int) -> Seq<char>
    decreases upto,
{
    if upto <= 0 {
        Seq::empty()
    } else {
        nfa_header_cells(m, upto - 1) + padded_word(
            m.alphabet[upto - 1],
            nfa_column_width(m, upto - 1, m.states.len() as int),
        )
    }
}

/// The sets of targets of state `q` for the first `upto` symbols, each in
/// its column.
pub open spec fn nfa_row_cells(m: NfaModel, q: int, upto: int) -> Seq<char>
    decreases upto,
{
    if upto <= 0 {
        Seq::empty()
    } else {
        nfa_row_cells(m, q, upto - 1) + padded_word(
            cell_text(m, m.states[q].transitions[upto - 1]),
            nfa_column_width(m, upto - 1, m.states.len() as int),
        )
    }
}

/// The column of the moves that read nothing in the line of the alphabet:
/// it stands there where the automaton has such moves.
pub open spec fn epsilon_head(m: NfaModel) -> Seq<char> {
    if m.has_epsilon_moves() {
        padded_word(seq!['\u{3b5}'], epsilon_width(m, m.states.len() as int))
    } else {
        Seq::empty()
    }
}

/// The column of the moves that read nothing in the line of state `q`.
pub open spec fn epsilon_cell(m: NfaModel, q: int) -> Seq<char> {
    if m.has_epsilon_moves() {
        padded_word(
            cell_text(m, m.states[q].epsilon_transitions),
            epsilon_width(m, m.states.len() as int),
        )
    } else {
        Seq::empty()
    }
}

/// The line of the alphabet.
pub open spec fn nfa_header_line(m: NfaModel) -> Seq<char> {
    blanks(4 + nfa_name_width(m, m.states.len() as int)) + epsilon_head(m) + nfa_header_cells(
        m,
        m.alphabet.len() as int,
    )
}

/// The line of state `q`: its marks, its name and its sets of targets.
pub open spec fn nfa_state_line(m: NfaModel, q: int) -> Seq<char> {
    marks_text(m.states[q].initial, m.states[q].accepting) + padded_word(
        m.states[q].name,
        nfa_name_width(m, m.states.len() as int),
    ) + epsilon_cell(m, q) + nfa_row_cells(m, q, m.alphabet.len() as int)
}

/// The lines of the states from `from` on, each closed by a line feed.
pub open spec fn nfa_state_lines(m: NfaModel, from: int) -> Seq<char>
    decreases m.states.len() - from,
{
    if from < 0 || from >= m.states.len() {
        Seq::empty()
    } else {
        nfa_state_line(m, from) + seq!['\n'] + nfa_state_lines(m, from + 1)
    }
}

/// The table of the automaton: the line of the alphabet, then one line for
/// each state.
pub open spec fn nfa_table(m: NfaModel) -> Seq<char> {
    nfa_header_line(m) + seq!['\n'] + nfa_state_lines(m, 0)
}

impl Nfa {
    /// A set of targets as it stands in a table.
    #[verifier::loop_isolation(false)]
    #[verifier::rlimit(50)]
    fn cell(&self, targets: &Vec<usize>) -> (text: String)
        requires
            forall|k: int| 0 <= k < targets.len() ==> #[trigger] targets[k] < self@.states.len(),
        ensures
            text@ == cell_text(self@, targets_of(targets@)),
    {
        let states = self.states();
        let ghost m = self@;
        let ghost list = targets_of(targets@);
        let mut text: String = String::new();
        text.push('{');
        let mut k: usize = 0;
        assert(text@ =~= seq!['{'] + set_text(m, list, 0));
        while k < targets.len()
            invariant
                k <= targets.len(),
                text@ == seq!['{'] + set_text(m, list, k as int),
            decreases targets.len() - k,
        {
            if k > 0 {
                text.push(' ');
            }
            assert(list[k as int] == targets[k as int]);
            assert(m.states[targets[k as int] as int] == states[targets[k as int] as int]@);
            text.append(states[targets[k]].name());
            assert(text@ =~= seq!['{'] + set_text(m, list, k + 1));
            k += 1;
        }
        text.push('}');
        assert(text@ =~= cell_text(m, list));
        text
    }

    /// The widths of the columns: that of the names, that of the moves
    /// that read nothing, and those of the symbols.
    #[verifier::loop_isolation(false)]
    #[verifier::rlimit(50)]
    fn widths(&self) -> (widths: (usize, usize, Vec<usize>))
        ensures
            widths.0 == nfa_name_width(self@, self@.states.len() as int),
            widths.1 == epsilon_width(self@, self@.states.len() as int),
            widths.2.len() == self@.alphabet.len(),
            forall|y: int|
                0 <= y < widths.2.len() ==> #[trigger] widths.2[y] == nfa_column_width(
                    self@,
                    y,
                    self@.states.len() as int,
                ),
    {
        let count = self.state_count();
        let symbols = self.symbol_count();
        let states = self.states();
        let alphabet = self.alphabet();
        let ghost m = self@;
        let mut names: usize = 0;
        let mut silent_width: usize = 1;
        let mut q: usize = 0;
        while q < count
            invariant
                q <= count,
                names == nfa_name_width(m, q as int),
                silent_width == epsilon_width(m, q as int),
            decreases count - q,
        {
            assert(m.states[q as int] == states[q as int]@);
            let length = states[q].name().unicode_len();
            if length > names {
                names = length;
            }
            let cell = self.cell(self.epsilon_targets(q));
            let width = cell.as_str().unicode_len();
            if width > silent_width {
                silent_width = width;
            }
            q += 1;
        }
        let mut widths: Vec<usize> = Vec::new();
        let mut x: usize = 0;
        while x < symbols
            invariant
                x <= symbols,
                widths.len() == x,
                forall|y: int| 0 <= y < x ==> #[trigger] widths[y] == nfa_column_width(
                    m,
                    y,
                    count as int,
                ),
            decreases symbols - x,
        {
            assert(m.alphabet[x as int] == alphabet[x as int]@);
            let mut width = alphabet[x].as_str().unicode_len();
            let mut p: usize = 0;
            while p < count
                invariant
                    p <= count,
                    x < symbols,
                    width == nfa_column_width(m, x as int, p as int),
                decreases count - p,
            {
                let cell = self.cell(self.targets(p, x));
                let length = cell.as_str().unicode_len();
                if length > width {
                    width = length;
                }
                p += 1;
            }
            widths.push(width);
            x += 1;
        }
        (names, silent_width, widths)
    }

    /// Appends the line of the alphabet.
    #[verifier::loop_isolation(false)]
    #[verifier::rlimit(50)]
    fn push_header(&self, table: &mut String, names: usize, silent_width: usize, widths: &Vec<usize>)
        requires
            names == nfa_name_width(self@, self@.states.len() as int),
            silent_width == epsilon_width(self@, self@.states.len() as int),
            widths.len() == self@.alphabet.len(),
            forall|y: int|
                0 <= y < widths.len() ==> #[trigger] widths[y] == nfa_column_width(
                    self@,
                    y,
                    self@.states.len() as int,
                ),
        ensures
            final(table)@ == old(table)@ + nfa_header_line(self@) + seq!['\n'],
    {
        let symbols = self.symbol_count();
        let alphabet = self.alphabet();
        let silent = self.has_epsilon_moves();
        let ghost m = self@;
        let ghost before = table@;
        push_blanks(table, 4);
        push_blanks(table, names);
        assert(table@ =~= before + blanks(4 + names));
        if silent {
            proof {
                reveal_strlit("\u{3b5}");
                assert("\u{3b5}"@ =~= seq!['\u{3b5}']);
            }
            push_padded(table, "\u{3b5}", silent_width);
        }
        let ghost start = before + blanks(4 + names) + epsilon_head(m);
        assert(table@ =~= start);
        let mut x: usize = 0;
        while x < symbols
            invariant
                x <= symbols,
                table@ == start + nfa_header_cells(m, x as int),
            decreases symbols - x,
        {
            assert(m.alphabet[x as int] == alphabet[x as int]@);
            push_padded(table, alphabet[x].as_str(), widths[x]);
            assert(table@ =~= start + nfa_header_cells(m, x + 1));
            x += 1;
        }
        table.push('\n');
        assert(table@ =~= before + nfa_header_line(m) + seq!['\n']);
    }

    /// Appends the sets of targets of state `q`, each in its column.
    fn push_row_cells(&self, table: &mut String, q: usize, widths: &Vec<usize>)
        requires
            q < self@.states.len(),
            widths.len() == self@.alphabet.len(),
            forall|y: int|
                0 <= y < widths.len() ==> #[trigger] widths[y] == nfa_column_width(
                    self@,
                    y,
                    self@.states.len() as int,
                ),
        ensures
            final(table)@ == old(table)@ + nfa_row_cells(
                self@,
                q as int,
                self@.alphabet.len() as int,
            ),
    {
        let symbols = self.symbol_count();
        let ghost m = self@;
        let ghost before = table@;
        let mut x: usize = 0;
        assert(table@ =~= before + nfa_row_cells(m, q as int, 0));
        while x < symbols
            invariant
                m == self@,
                symbols == m.alphabet.len(),
                q < m.states.len(),
                widths.len() == symbols,
                forall|y: int|
                    0 <= y < widths.len() ==> #[trigger] widths[y] == nfa_column_width(
                        m,
                        y,
                        m.states.len() as int,
                    ),
                x <= symbols,
                table@ == before + nfa_row_cells(m, q as int, x as int),
            decreases symbols - x,
        {
            let cell = self.cell(self.targets(q, x));
            let ghost so_far = table@;
            push_padded(table, cell.as_str(), widths[x]);
            assert(table@ =~= before + nfa_row_cells(m, q as int, x + 1));
            x += 1;
        }
    }

    /// Appends the line of state `q`.
    fn push_state_line(
        &self,
        table: &mut String,
        q: usize,
        names: usize,
        silent_width: usize,
        widths: &Vec<usize>,
    )
        requires
            q < self@.states.len(),
            names == nfa_name_width(self@, self@.states.len() as int),
            silent_width == epsilon_width(self@, self@.states.len() as int),
            widths.len() == self@.alphabet.len(),
            forall|y: int|
                0 <= y < widths.len() ==> #[trigger] widths[y] == nfa_column_width(
                    self@,
                    y,
                    self@.states.len() as int,
                ),
        ensures
            final(table)@ == old(table)@ + nfa_state_line(self@, q as int) + seq!['\n'],
    {
        let states = self.states();
        let silent = self.has_epsilon_moves();
        let ghost m = self@;
        let ghost before = table@;
        assert(m.states[q as int] == states[q as int]@);
        table.push(if states[q].is_initial() {
            '\u{2192}'
        } else {
            ' '
        });
        table.push(' ');
        table.push(if states[q].is_accepting() {
            '*'
        } else {
            ' '
        });
        let ghost marks = marks_text(m.states[q as int].initial, m.states[q as int].accepting);
        assert(table@ =~= before + marks);
        push_padded(table, states[q].name(), names);
        let ghost name = padded_word(m.states[q as int].name, names as int);
        if silent {
            let cell = self.cell(self.epsilon_targets(q));
            push_padded(table, cell.as_str(), silent_width);
        }
        let ghost quiet = epsilon_cell(m, q as int);
        assert(table@ =~= before + marks + name + quiet);
        self.push_row_cells(table, q, widths);
        let ghost cells = nfa_row_cells(m, q as int, m.alphabet.len() as int);
        table.push('\n');
        assert(nfa_state_line(m, q as int) == marks + name + quiet + cells);
        assert(table@ =~= before + (marks + name + quiet + cells) + seq!['\n']);
    }

    /// The table of the automaton, which `parse` reads back as the same
    /// automaton where its names and symbols are words that a table can
    /// hold. The moves that read nothing have a column where there are
    /// any.
    pub fn to_table(&self) -> (table: String)
        ensures
            table@ == nfa_table(self@),
    {
        let count = self.state_count();
        let (names, silent_width, widths) = self.widths();
        let ghost m = self@;
        let mut table: String = String::new();
        self.push_header(&mut table, names, silent_width, &widths);
        let ghost head = table@;
        assert(head =~= nfa_header_line(m) + seq!['\n']);
        let mut q: usize = 0;
        let ghost mut body: Seq<char> = Seq::empty();
        assert(table@ =~= head + body);
        while q < count
            invariant
                m == self@,
                count == m.states.len(),
                names == nfa_name_width(m, count as int),
                silent_width == epsilon_width(m, count as int),
                widths.len() == m.alphabet.len(),
                forall|y: int|
                    0 <= y < widths.len() ==> #[trigger] widths[y] == nfa_column_width(
                        m,
                        y,
                        count as int,
                    ),
                q <= count,
                table@ == head + body,
                body + nfa_state_lines(m, q as int) == nfa_state_lines(m, 0),
            decreases count - q,
        {
            let ghost before = table@;
            self.push_state_line(&mut table, q, names, silent_width, &widths);
            proof {
                let line = nfa_state_line(m, q as int) + seq!['\n'];
                assert(table@ =~= before + line);
                assert(body + (line + nfa_state_lines(m, q + 1)) =~= (body + line)
                    + nfa_state_lines(m, q + 1));
                body = body + line;
                assert(table@ =~= head + body);
            }
            q += 1;
        }
        assert(body + Seq::<char>::empty() =~= body);
        table
    }
}

} // verus!
