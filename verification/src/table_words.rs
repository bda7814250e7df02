//! How a line that was written word by word is read back: the words that
//! were written are the words that are found.

use vstd::prelude::*;
use crate::dfa::table::{blanks, padded_word};
use crate::parser::table_syntax::{
    is_gap,
    is_brace,
    is_word_char,
    gap_len,
    word_len,
    line_len,
    line_words,
    text_rows,
};
use crate::parser::tables::is_reserved;
use crate::scan::is_whitespace;

verus! {

/// Whether `w` is a word that a table can hold: at least one character,
/// and no white space, no `#` and, where braces stand alone, no brace.
pub open spec fn is_word(w: Seq<char>, braces: bool) -> bool {
    w.len() > 0 && forall|i: int| 0 <= i < w.len() ==> is_word_char(#[trigger] w[i], braces)
}

/// Whether `w` can be the name of a state or a symbol: a word that is not
/// reserved.
pub open spec fn is_name(w: Seq<char>, braces: bool) -> bool {
    is_word(w, braces) && !is_reserved(w)
}

/// Whether `pad` holds white space only, and no line feed.
pub open spec fn all_gaps(pad: Seq<char>) -> bool {
    forall|i: int| 0 <= i < pad.len() ==> is_gap(#[trigger] pad[i])
}

/// Whether `t` does not go on with a word: it is empty, or begins with a
/// character that a word cannot hold.
pub open spec fn ends_word(t: Seq<char>, braces: bool) -> bool {
    t.len() == 0 || !is_word_char(t[0], braces)
}

/// Whether `line` holds no line feed.
pub open spec fn one_line(line: Seq<char>) -> bool {
    forall|i: int| 0 <= i < line.len() ==> #[trigger] line[i] != '\n'
}

/// White space before a text that does not begin with white space is all
/// the white space at the beginning.
pub proof fn lemma_gap_before(pad: Seq<char>, t: Seq<char>)
    requires
        all_gaps(pad),
        t.len() == 0 || !is_gap(t[0]),
    ensures
        gap_len(pad + t) == pad.len(),
    decreases pad.len(),
{
    if pad.len() > 0 {
        assert((pad + t)[0] == pad[0]);
        assert((pad + t).drop_first() =~= pad.drop_first() + t);
        assert forall|i: int| 0 <= i < pad.drop_first().len() implies is_gap(
            #[trigger] pad.drop_first()[i],
        ) by {
            assert(pad.drop_first()[i] == pad[i + 1]);
        }
        lemma_gap_before(pad.drop_first(), t);
    } else {
        assert(pad + t =~= t);
    }
}

/// A word before a text that does not go on with it is the whole word at
/// the beginning.
pub proof fn lemma_word_before(w: Seq<char>, t: Seq<char>, braces: bool)
    requires
        forall|i: int| 0 <= i < w.len() ==> is_word_char(#[trigger] w[i], braces),
        ends_word(t, braces),
    ensures
        word_len(w + t, braces) == w.len(),
    decreases w.len(),
{
    if w.len() > 0 {
        assert((w + t)[0] == w[0]);
        assert((w + t).drop_first() =~= w.drop_first() + t);
        assert forall|i: int| 0 <= i < w.drop_first().len() implies is_word_char(
            #[trigger] w.drop_first()[i],
            braces,
        ) by {
            assert(w.drop_first()[i] == w[i + 1]);
        }
        lemma_word_before(w.drop_first(), t, braces);
    } else {
        assert(w + t =~= t);
    }
}

/// A line before a line feed is the whole first line.
pub proof fn lemma_line_before(line: Seq<char>, t: Seq<char>)
    requires
        one_line(line),
    ensures
        line_len(line + seq!['\n'] + t) == line.len(),
    decreases line.len(),
{
    let all = line + seq!['\n'] + t;
    if line.len() > 0 {
        assert(all[0] == line[0]);
        assert(all.drop_first() =~= line.drop_first() + seq!['\n'] + t);
        assert forall|i: int| 0 <= i < line.drop_first().len() implies #[trigger] line.drop_first()[i]
            != '\n' by {
            assert(line.drop_first()[i] == line[i + 1]);
        }
        lemma_line_before(line.drop_first(), t);
    } else {
        assert(all[0] == '\n');
    }
}

/// The first word of a line is found after the white space before it.
pub proof fn lemma_first_word(pad: Seq<char>, w: Seq<char>, rest: Seq<char>, braces: bool)
    requires
        all_gaps(pad),
        is_word(w, braces),
        ends_word(rest, braces),
    ensures
        line_words(pad + w + rest, braces) == seq![w] + line_words(rest, braces),
{
    let t = pad + w + rest;
    assert(t =~= pad + (w + rest));
    assert(is_word_char(w[0], braces));
    assert((w + rest)[0] == w[0]);
    lemma_gap_before(pad, w + rest);
    let u = t.skip(pad.len() as int);
    assert(u =~= w + rest);
    lemma_word_before(w, rest, braces);
    assert(u.take(w.len() as int) =~= w);
    assert(u.skip(w.len() as int) =~= rest);
}

/// A brace is a word of its own, whatever follows it.
pub proof fn lemma_first_brace(pad: Seq<char>, brace: char, rest: Seq<char>)
    requires
        all_gaps(pad),
        is_brace(brace),
    ensures
        line_words(pad + seq![brace] + rest, true) == seq![seq![brace]] + line_words(rest, true),
{
    let t = pad + seq![brace] + rest;
    assert(t =~= pad + (seq![brace] + rest));
    assert((seq![brace] + rest)[0] == brace);
    lemma_gap_before(pad, seq![brace] + rest);
    let u = t.skip(pad.len() as int);
    assert(u =~= seq![brace] + rest);
    assert(u.take(1) =~= seq![brace]);
    assert(u.skip(1) =~= rest);
}

/// After the last word of a line, no word is found.
pub proof fn lemma_no_word(pad: Seq<char>, rest: Seq<char>, braces: bool)
    requires
        all_gaps(pad),
    ensures
        line_words(pad + seq!['\n'] + rest, braces) == Seq::<Seq<char>>::empty(),
        line_words(pad, braces) == Seq::<Seq<char>>::empty(),
{
    let t = pad + seq!['\n'] + rest;
    assert(t =~= pad + (seq!['\n'] + rest));
    assert((seq!['\n'] + rest)[0] == '\n');
    lemma_gap_before(pad, seq!['\n'] + rest);
    assert(t.skip(pad.len() as int)[0] == '\n');
    lemma_gap_before(pad, Seq::empty());
    assert(pad + Seq::<char>::empty() =~= pad);
}

/// A line with words, closed by a line feed, is the first row of a text.
pub proof fn lemma_first_row(line: Seq<char>, rest: Seq<char>, braces: bool)
    requires
        one_line(line),
        line_words(line + seq!['\n'] + rest, braces).len() > 0,
    ensures
        text_rows(line + seq!['\n'] + rest, braces) == seq![
            line_words(line + seq!['\n'] + rest, braces),
        ] + text_rows(rest, braces),
{
    let t = line + seq!['\n'] + rest;
    lemma_line_before(line, rest);
    assert(t.skip(line.len() as int + 1) =~= rest);
}

/// Spaces are white space.
pub proof fn lemma_blanks(count: int)
    ensures
        all_gaps(blanks(count)),
        all_gaps(seq![' '] + blanks(count)),
        one_line(blanks(count)),
{
    assert(is_gap(' '));
}

/// The words that were written with `padded_word`, one after the other
/// from the word at `from` on.
pub open spec fn padded_from(words: Seq<Seq<char>>, widths: Seq<int>, from: int) -> Seq<char>
    decreases words.len() - from,
{
    if from < 0 || from >= words.len() {
        Seq::empty()
    } else {
        padded_word(words[from], widths[from]) + padded_from(words, widths, from + 1)
    }
}

/// Words that were written with `padded_word` are read back.
pub proof fn lemma_padded_words(
    words: Seq<Seq<char>>,
    widths: Seq<int>,
    from: int,
    rest: Seq<char>,
    braces: bool,
)
    requires
        0 <= from <= words.len(),
        forall|i: int| 0 <= i < words.len() ==> is_word(#[trigger] words[i], braces),
        ends_word(rest, braces),
    ensures
        line_words(padded_from(words, widths, from) + rest, braces) == words.skip(from)
            + line_words(rest, braces),
        ends_word(padded_from(words, widths, from) + rest, braces),
    decreases words.len() - from,
{
    if from < words.len() {
        let pad = seq![' '] + blanks(widths[from] - words[from].len());
        let more = padded_from(words, widths, from + 1) + rest;
        lemma_padded_words(words, widths, from + 1, rest, braces);
        lemma_blanks(widths[from] - words[from].len());
        lemma_first_word(pad, words[from], more, braces);
        assert(padded_from(words, widths, from) + rest =~= pad + words[from] + more);
        assert(words.skip(from) =~= seq![words[from]] + words.skip(from + 1));
        assert((pad + words[from] + more)[0] == ' ');
        assert(is_whitespace(' '));
    } else {
        assert(padded_from(words, widths, from) + rest =~= rest);
        assert(words.skip(from) =~= Seq::<Seq<char>>::empty());
    }
}

/// Words that were written with `padded_word` hold no line feed.
pub proof fn lemma_padded_one_line(words: Seq<Seq<char>>, widths: Seq<int>, from: int, braces: bool)
    requires
        0 <= from <= words.len(),
        forall|i: int| 0 <= i < words.len() ==> is_word(#[trigger] words[i], braces),
    ensures
        one_line(padded_from(words, widths, from)),
    decreases words.len() - from,
{
    if from < words.len() {
        lemma_padded_one_line(words, widths, from + 1, braces);
        lemma_word_one_line(words[from], braces);
        lemma_blanks(widths[from] - words[from].len());
    }
}

/// A word holds no line feed.
pub proof fn lemma_word_one_line(w: Seq<char>, braces: bool)
    requires
        is_word(w, braces),
    ensures
        one_line(w),
{
    assert forall|i: int| 0 <= i < w.len() implies #[trigger] w[i] != '\n' by {
        assert(is_word_char(w[i], braces));
        assert(is_whitespace('\n'));
    }
}

} // verus!
