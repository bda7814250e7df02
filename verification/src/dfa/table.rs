//! Writing a deterministic automaton as a table that can be read again.

use vstd::prelude::*;
use crate::alphabet::tokens_of;
use crate::dfa::{Dfa, DfaModel, DfaState};

verus! {

/// `count` spaces.
pub open spec fn blanks(count: int) -> Seq<char> {
    Seq::new(
        if count > 0 {
            count as nat
        } else {
            0
        },
        |i: int| ' ',
    )
}

/// A word in a column of the given width: a space, then the word with
/// spaces before it where it is shorter than the column.
pub open spec fn padded_word(word: Seq<char>, width: int) -> Seq<char> {
    seq![' '] + blanks(width - word.len()) + word
}

/// The marks of a row: the arrow where the state is initial, the star
/// where it is accepting, and spaces in their places where it is not.
pub open spec fn marks_text(initial: bool, accepting: bool) -> Seq<char> {
    seq![
        if initial {
            '\u{2192}'
        } else {
            ' '
        },
        ' ',
        if accepting {
            '*'
        } else {
            ' '
        },
    ]
}

/// The larger of two numbers.
pub open spec fn larger(a: int, b: int) -> int {
    if a > b {
        a
    } else {
        b
    }
}

/// The length of the longest name among the first `upto` states.
pub open spec fn name_width(m: DfaModel, upto: int) -> int
    decreases upto,
{
    if upto <= 0 {
        0
    } else {
        larger(name_width(m, upto - 1), m.states[upto - 1].name.len() as int)
    }
}

/// The width of the column of the symbol at `x`: the length of the longest
/// word among the symbol and the targets of the first `upto` states.
pub open spec fn column_width(m: DfaModel, x: int, upto: int) -> int
    decreases upto,
{
    if upto <= 0 {
        m.alphabet[x].len() as int
    } else {
        larger(
            column_width(m, x, upto - 1),
            m.states[m.states[upto - 1].transitions[x]].name.len() as int,
        )
    }
}

/// The first `upto` symbols, each in its column.
pub open spec fn header_cells(m: DfaModel, upto: int) -> Seq<char>
    decreases upto,
{
    if upto <= 0 {
        Seq::empty()
    } else {
        header_cells(m, upto - 1) + padded_word(
            m.alphabet[upto - 1],
            column_width(m, upto - 1, m.states.len() as int),
        )
    }
}

/// The names of the first `upto` targets of state `q`, each in its column.
pub open spec fn row_cells(m: DfaModel, q: int, upto: int) -> Seq<char>
    decreases upto,
{
    if upto <= 0 {
        Seq::empty()
    } else {
        row_cells(m, q, upto - 1) + padded_word(
            m.states[m.states[q].transitions[upto - 1]].name,
            column_width(m, upto - 1, m.states.len() as int),
        )
    }
}

/// The line of the alphabet: the symbols stand over their columns.
pub open spec fn header_line(m: DfaModel) -> Seq<char> {
    blanks(4 + name_width(m, m.states.len() as int)) + header_cells(m, m.alphabet.len() as int)
}

/// The line of state `q`: its marks, its name and its targets.
pub open spec fn state_line(m: DfaModel, q: int) -> Seq<char> {
    marks_text(m.states[q].initial, m.states[q].accepting) + padded_word(
        m.states[q].name,
        name_width(m, m.states.len() as int),
    ) + row_cells(m, q, m.alphabet.len() as int)
}

/// The lines of the states from `from` on, each closed by a line feed.
pub open spec fn state_lines(m: DfaModel, from: int) -> Seq<char>
    decreases m.states.len() - from,
{
    if from < 0 || from >= m.states.len() {
        Seq::empty()
    } else {
        state_line(m, from) + seq!['\n'] + state_lines(m, from + 1)
    }
}

/// The table of the automaton: the line of the alphabet, then one line for
/// each state.
pub open spec fn dfa_table(m: DfaModel) -> Seq<char> {
    header_line(m) + seq!['\n'] + state_lines(m, 0)
}

/// Appends a word in a column of the given width.
pub fn push_padded(text: &mut String, word: &str, width: usize)
    ensures
        final(text)@ == old(text)@ + padded_word(word@, width as int),
{
    let ghost before = text@;
    text.push(' ');
    let length = word.unicode_len();
    let mut k: usize = length;
    while k < width
        invariant
            length <= k,
            k <= width || k == length,
            text@ == before + seq![' '] + blanks(k - length),
        decreases width - k,
    {
        text.push(' ');
        assert(blanks(k + 1 - length) =~= blanks(k - length).push(' '));
        assert(text@ =~= before + seq![' '] + blanks(k + 1 - length));
        k += 1;
    }
    text.append(word);
    proof {
        assert(blanks(k - length) =~= blanks(width - length));
        assert(text@ =~= before + padded_word(word@, width as int));
    }
}

/// Appends `count` spaces.
pub fn push_blanks(text: &mut String, count: usize)
    ensures
        final(text)@ == old(text)@ + blanks(count as int),
{
    let ghost before = text@;
    let mut k: usize = 0;
    assert(text@ =~= before + blanks(0));
    while k < count
        invariant
            k <= count,
            text@ == before + blanks(k as int),
        decreases count - k,
    {
        text.push(' ');
        assert(before + blanks(k + 1) =~= (before + blanks(k as int)).push(' '));
        k += 1;
    }
}

impl Dfa {
    /// The widths of the columns: that of the names, and those of the
    /// symbols.
    #[verifier::loop_isolation(false)]
    #[verifier::rlimit(50)]
    fn widths(&self) -> (widths: (usize, Vec<usize>))
        ensures
            widths.0 == name_width(self@, self@.states.len() as int),
            widths.1.len() == self@.alphabet.len(),
            forall|y: int|
                0 <= y < widths.1.len() ==> #[trigger] widths.1[y] == column_width(
                    self@,
                    y,
                    self@.states.len() as int,
                ),
    {
        let count = self.state_count();
        let symbols = self.symbol_count();
        let states = self.states();
        let alphabet = self.alphabet();
        let ghost m = self@;
        let mut lengths: Vec<usize> = Vec::new();
        let mut names: usize = 0;
        let mut q: usize = 0;
        while q < count
            invariant
                q <= count,
                lengths.len() == q,
                names == name_width(m, q as int),
                forall|p: int| 0 <= p < q ==> #[trigger] lengths[p] == m.states[p].name.len(),
            decreases count - q,
        {
            assert(m.states[q as int] == states[q as int]@);
            let length = states[q].name().unicode_len();
            lengths.push(length);
            if length > names {
                names = length;
            }
            q += 1;
        }
        let mut widths: Vec<usize> = Vec::new();
        let mut x: usize = 0;
        while x < symbols
            invariant
                x <= symbols,
                widths.len() == x,
                forall|y: int| 0 <= y < x ==> #[trigger] widths[y] == column_width(
                    m,
                    y,
                    count as int,
                ),
            decreases symbols - x,
        {
            assert(m.alphabet[x as int] == alphabet[x as int]@);
            let mut width = alphabet[x].as_str().unicode_len();
            let mut p: usize = 0;
            while p < count
                invariant
                    p <= count,
                    x < symbols,
                    width == column_width(m, x as int, p as int),
                decreases count - p,
            {
                let to = self.target(p, x);
                if lengths[to] > width {
                    width = lengths[to];
                }
                p += 1;
            }
            widths.push(width);
            x += 1;
        }
        (names, widths)
    }

    /// Appends the line of the alphabet.
    fn push_header(&self, table: &mut String, names: usize, widths: &Vec<usize>)
        requires
            names == name_width(self@, self@.states.len() as int),
            widths.len() == self@.alphabet.len(),
            forall|y: int|
                0 <= y < widths.len() ==> #[trigger] widths[y] == column_width(
                    self@,
                    y,
                    self@.states.len() as int,
                ),
        ensures
            final(table)@ == old(table)@ + header_line(self@) + seq!['\n'],
    {
        let symbols = self.symbol_count();
        let alphabet = self.alphabet();
        let ghost m = self@;
        let ghost before = table@;
        push_blanks(table, 4);
        push_blanks(table, names);
        let ghost start = before + blanks(4 + names);
        assert(table@ =~= start);
        let mut x: usize = 0;
        assert(table@ =~= start + header_cells(m, 0));
        while x < symbols
            invariant
                m == self@,
                symbols == m.alphabet.len(),
                tokens_of(alphabet@) == m.alphabet,
                widths.len() == symbols,
                forall|y: int|
                    0 <= y < widths.len() ==> #[trigger] widths[y] == column_width(
                        m,
                        y,
                        m.states.len() as int,
                    ),
                x <= symbols,
                table@ == start + header_cells(m, x as int),
            decreases symbols - x,
        {
            assert(m.alphabet[x as int] == alphabet[x as int]@);
            push_padded(table, alphabet[x].as_str(), widths[x]);
            assert(table@ =~= start + header_cells(m, x + 1));
            x += 1;
        }
        table.push('\n');
        assert(table@ =~= before + header_line(m) + seq!['\n']);
    }

    /// Appends the names of the targets of state `q`, each in its column.
    fn push_row_cells(&self, table: &mut String, q: usize, widths: &Vec<usize>)
        requires
            q < self@.states.len(),
            widths.len() == self@.alphabet.len(),
            forall|y: int|
                0 <= y < widths.len() ==> #[trigger] widths[y] == column_width(
                    self@,
                    y,
                    self@.states.len() as int,
                ),
        ensures
            final(table)@ == old(table)@ + row_cells(self@, q as int, self@.alphabet.len() as int),
    {
        let symbols = self.symbol_count();
        let states = self.states();
        let ghost m = self@;
        let ghost before = table@;
        let mut x: usize = 0;
        assert(table@ =~= before + row_cells(m, q as int, 0));
        while x < symbols
            invariant
                m == self@,
                m.wf(),
                symbols == m.alphabet.len(),
                states@.map_values(|s: DfaState| s@) == m.states,
                q < m.states.len(),
                widths.len() == symbols,
                forall|y: int|
                    0 <= y < widths.len() ==> #[trigger] widths[y] == column_width(
                        m,
                        y,
                        m.states.len() as int,
                    ),
                x <= symbols,
                table@ == before + row_cells(m, q as int, x as int),
            decreases symbols - x,
        {
            let to = self.target(q, x);
            assert(m.states[to as int] == states[to as int]@);
            push_padded(table, states[to].name(), widths[x]);
            assert(table@ =~= before + row_cells(m, q as int, x + 1));
            x += 1;
        }
    }

    /// Appends the line of state `q`.
    fn push_state_line(&self, table: &mut String, q: usize, names: usize, widths: &Vec<usize>)
        requires
            q < self@.states.len(),
            names == name_width(self@, self@.states.len() as int),
            widths.len() == self@.alphabet.len(),
            forall|y: int|
                0 <= y < widths.len() ==> #[trigger] widths[y] == column_width(
                    self@,
                    y,
                    self@.states.len() as int,
                ),
        ensures
            final(table)@ == old(table)@ + state_line(self@, q as int) + seq!['\n'],
    {
        let states = self.states();
        let ghost m = self@;
        let ghost before = table@;
        assert(m.states[q as int] == states[q as int]@);
        table.push(if states[q].is_initial() {
            '\u{2192}'
        } else {
            ' '
        });
        table.push(' ');
        table.push(if states[q].is_accepting() {
            '*'
        } else {
            ' '
        });
        let ghost marks = marks_text(m.states[q as int].initial, m.states[q as int].accepting);
        assert(table@ =~= before + marks);
        push_padded(table, states[q].name(), names);
        let ghost name = padded_word(m.states[q as int].name, names as int);
        self.push_row_cells(table, q, widths);
        let ghost cells = row_cells(m, q as int, m.alphabet.len() as int);
        table.push('\n');
        assert(state_line(m, q as int) == marks + name + cells);
        assert(table@ =~= before + (marks + name + cells) + seq!['\n']);
    }

    /// The table of the automaton, which `parse` reads back as the same
    /// automaton where its names and symbols are words that a table can
    /// hold.
    pub fn to_table(&self) -> (table: String)
        ensures
            table@ == dfa_table(self@),
    {
        let count = self.state_count();
        let (names, widths) = self.widths();
        let ghost m = self@;
        let mut table: String = String::new();
        self.push_header(&mut table, names, &widths);
        let ghost head = table@;
        assert(head =~= header_line(m) + seq!['\n']);
        let mut q: usize = 0;
        let ghost mut body: Seq<char> = Seq::empty();
        assert(table@ =~= head + body);
        while q < count
            invariant
                m == self@,
                count == m.states.len(),
                names == name_width(m, count as int),
                widths.len() == m.alphabet.len(),
                forall|y: int|
                    0 <= y < widths.len() ==> #[trigger] widths[y] == column_width(
                        m,
                        y,
                        count as int,
                    ),
                q <= count,
                table@ == head + body,
                body + state_lines(m, q as int) == state_lines(m, 0),
            decreases count - q,
        {
            let ghost before = table@;
            self.push_state_line(&mut table, q, names, &widths);
            proof {
                let line = state_line(m, q as int) + seq!['\n'];
                assert(table@ =~= before + line);
                assert(body + (line + state_lines(m, q + 1)) =~= (body + line) + state_lines(
                    m,
                    q + 1,
                ));
                body = body + line;
                assert(table@ =~= head + body);
            }
            q += 1;
        }
        assert(body + Seq::<char>::empty() =~= body);
        table
    }
}

} // verus!
