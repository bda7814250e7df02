//! The words of a table: a text is taken apart into lines, and each line
//! into the words that white space separates. A `#` opens a comment, which
//! runs to the end of its line. Lines without words are passed over.

use vstd::prelude::*;
use crate::scan::{is_whitespace, whitespace};
use crate::alphabet::word_of;

verus! {

/// White space within a line.
pub open spec fn is_gap(c: char) -> bool {
    is_whitespace(c) && c != '\n'
}

/// One of the two braces, which in the table of a nondeterministic
/// automaton are words of their own.
pub open spec fn is_brace(c: char) -> bool {
    c == '{' || c == '}'
}

/// Whether a word can hold `c`: any character but white space, the sign
/// that opens a comment and, where braces stand alone, a brace.
pub open spec fn is_word_char(c: char, braces: bool) -> bool {
    !is_whitespace(c) && c != '#' && !(braces && is_brace(c))
}

/// The number of characters of white space at the beginning of `t`.
pub open spec fn gap_len(t: Seq<char>) -> int
    decreases t.len(),
{
    if t.len() > 0 && is_gap(t[0]) {
        1 + gap_len(t.drop_first())
    } else {
        0
    }
}

/// The number of characters of a word at the beginning of `t`.
pub open spec fn word_len(t: Seq<char>, braces: bool) -> int
    decreases t.len(),
{
    if t.len() > 0 && is_word_char(t[0], braces) {
        1 + word_len(t.drop_first(), braces)
    } else {
        0
    }
}

/// The number of characters before the first line feed of `t`.
pub open spec fn line_len(t: Seq<char>) -> int
    decreases t.len(),
{
    if t.len() > 0 && t[0] != '\n' {
        1 + line_len(t.drop_first())
    } else {
        0
    }
}

/// The lengths are within the text.
pub proof fn lemma_lengths(t: Seq<char>, braces: bool)
    ensures
        0 <= gap_len(t) <= t.len(),
        0 <= word_len(t, braces) <= t.len(),
        0 <= line_len(t) <= t.len(),
        gap_len(t) <= line_len(t),
    decreases t.len(),
{
    if t.len() > 0 {
        lemma_lengths(t.drop_first(), braces);
    }
}

/// The words of the first line of `t`.
pub open spec fn line_words(t: Seq<char>, braces: bool) -> Seq<Seq<char>>
    decreases t.len(),
{
    let g = gap_len(t);
    if g < 0 || g >= t.len() {
        Seq::empty()
    } else {
        let u = t.skip(g);
        if u[0] == '\n' || u[0] == '#' {
            Seq::empty()
        } else if braces && is_brace(u[0]) {
            seq![u.take(1)] + line_words(u.skip(1), braces)
        } else {
            let w = word_len(u, braces);
            if 0 < w <= u.len() {
                seq![u.take(w)] + line_words(u.skip(w), braces)
            } else {
                Seq::empty()
            }
        }
    }
}

/// The lines of `t` that hold words, each as the list of its words.
pub open spec fn text_rows(t: Seq<char>, braces: bool) -> Seq<Seq<Seq<char>>>
    decreases t.len(),
{
    if t.len() == 0 {
        Seq::empty()
    } else {
        let n = line_len(t);
        let words = line_words(t, braces);
        let more = if 0 <= n < t.len() {
            text_rows(t.skip(n + 1), braces)
        } else {
            Seq::empty()
        };
        if words.len() > 0 {
            seq![words] + more
        } else {
            more
        }
    }
}

/// The rows that lists of string slices stand for.
pub open spec fn rows_of(rows: Seq<Vec<&str>>) -> Seq<Seq<Seq<char>>> {
    rows.map_values(|row: Vec<&str>| word_of(row@))
}

/// Whether `c` is white space within a line.
fn gap(c: char) -> (yes: bool)
    ensures
        yes == is_gap(c),
{
    whitespace(c) && c != '\n'
}

/// Whether a word can hold `c`.
fn word_char(c: char, braces: bool) -> (yes: bool)
    ensures
        yes == is_word_char(c, braces),
{
    !whitespace(c) && c != '#' && !(braces && (c == '{' || c == '}'))
}

/// The words of the line that begins at `i`.
fn words_of_line<'a>(input: &'a str, s: &Vec<char>, i: usize, braces: bool) -> (words: Vec<
    &'a str,
>)
    requires
        s@ == input@,
        i <= s.len(),
    ensures
        word_of(words@) == line_words(s@.skip(i as int), braces),
{
    let mut words: Vec<&'a str> = Vec::new();
    let mut at: usize = i;
    let ghost all = line_words(s@.skip(i as int), braces);
    assert(word_of(words@) + all =~= all);
    loop
        invariant
            s@ == input@,
            i <= at <= s.len(),
            all == line_words(s@.skip(i as int), braces),
            word_of(words@) + line_words(s@.skip(at as int), braces) == all,
        decreases s.len() - at,
    {
        let ghost t = s@.skip(at as int);
        let mut j: usize = at;
        while j < s.len() && gap(s[j])
            invariant
                at <= j <= s.len(),
                t == s@.skip(at as int),
                gap_len(t) == (j - at) + gap_len(s@.skip(j as int)),
            decreases s.len() - j,
        {
            assert(s@.skip(j as int)[0] == s@[j as int]);
            assert(s@.skip(j as int).drop_first() =~= s@.skip(j + 1));
            j += 1;
        }
        proof {
            if j < s.len() {
                assert(s@.skip(j as int)[0] == s@[j as int]);
            }
            assert(gap_len(t) == j - at);
            assert(t.skip(j - at) =~= s@.skip(j as int));
        }
        if j >= s.len() || s[j] == '\n' || s[j] == '#' {
            proof {
                assert(t.len() == s.len() - at);
                if j < s.len() {
                    assert(t.skip(gap_len(t))[0] == s@[j as int]);
                }
                assert(line_words(t, braces) =~= Seq::<Seq<char>>::empty());
                assert(word_of(words@) + Seq::<Seq<char>>::empty() =~= word_of(words@));
            }
            return words;
        }
        let ghost u = s@.skip(j as int);
        let end: usize = if braces && (s[j] == '{' || s[j] == '}') {
            assert(u.skip(1) =~= s@.skip(j + 1));
            j + 1
        } else {
            let mut e: usize = j;
            while e < s.len() && word_char(s[e], braces)
                invariant
                    j <= e <= s.len(),
                    u == s@.skip(j as int),
                    word_len(u, braces) == (e - j) + word_len(s@.skip(e as int), braces),
                decreases s.len() - e,
            {
                assert(s@.skip(e as int)[0] == s@[e as int]);
                assert(s@.skip(e as int).drop_first() =~= s@.skip(e + 1));
                e += 1;
            }
            proof {
                if e < s.len() {
                    assert(s@.skip(e as int)[0] == s@[e as int]);
                }
                assert(word_len(u, braces) == e - j);
                assert(u[0] == s@[j as int]);
                assert(is_word_char(u[0], braces));
                assert(u.skip(e - j) =~= s@.skip(e as int));
            }
            e
        };
        let word = input.substring_char(j, end);
        proof {
            assert(u.take(end - j) =~= s@.subrange(j as int, end as int));
            let before = word_of(words@);
            assert(before + (seq![word@] + line_words(s@.skip(end as int), braces))
                =~= before.push(word@) + line_words(s@.skip(end as int), braces));
        }
        let ghost before = word_of(words@);
        words.push(word);
        assert(word_of(words@) =~= before.push(word@));
        at = end;
    }
}

/// The lines of the text that hold words, each as the list of its words.
pub fn table_rows<'a>(input: &'a str, s: &Vec<char>, braces: bool) -> (rows: Vec<Vec<&'a str>>)
    requires
        s@ == input@,
    ensures
        rows_of(rows@) == text_rows(s@, braces),
{
    let mut rows: Vec<Vec<&'a str>> = Vec::new();
    let mut at: usize = 0;
    assert(s@.skip(0) =~= s@);
    while at < s.len()
        invariant
            s@ == input@,
            at <= s.len(),
            rows_of(rows@) + text_rows(s@.skip(at as int), braces) == text_rows(s@, braces),
        decreases s.len() - at,
    {
        let ghost t = s@.skip(at as int);
        let words = words_of_line(input, s, at, braces);
        let mut end: usize = at;
        while end < s.len() && s[end] != '\n'
            invariant
                at <= end <= s.len(),
                t == s@.skip(at as int),
                line_len(t) == (end - at) + line_len(s@.skip(end as int)),
            decreases s.len() - end,
        {
            assert(s@.skip(end as int)[0] == s@[end as int]);
            assert(s@.skip(end as int).drop_first() =~= s@.skip(end + 1));
            end += 1;
        }
        proof {
            if end < s.len() {
                assert(s@.skip(end as int)[0] == s@[end as int]);
            }
            assert(line_len(t) == end - at);
        }
        let next: usize = if end < s.len() {
            assert(t.skip(end - at + 1) =~= s@.skip(end + 1));
            end + 1
        } else {
            end
        };
        let ghost before = rows_of(rows@);
        if words.len() > 0 {
            rows.push(words);
            proof {
                assert(rows_of(rows@) =~= before.push(line_words(t, braces)));
                assert(before + (seq![line_words(t, braces)] + text_rows(
                    s@.skip(next as int),
                    braces,
                )) =~= rows_of(rows@) + text_rows(s@.skip(next as int), braces));
            }
        }
        proof {
            if end >= s.len() {
                assert(s@.skip(next as int).len() == 0);
            }
        }
        at = next;
    }
    assert(rows_of(rows@) + Seq::<Seq<Seq<char>>>::empty() =~= rows_of(rows@));
    rows
}

} // verus!
