//! The syntax of a grammar's description.
//!
//! A description holds, in this order, a line `Nonterminals:` with the
//! nonterminal symbols, a line `Terminals:` with the terminal symbols, a
//! line `Start:` with the start symbol, and one line for each production:
//! the symbol, an arrow (`->` or `→`), and the alternatives, separated by
//! `|`. Lines that hold only blanks or a comment, which `#` opens, may stand
//! before, between and after them.

use vstd::prelude::*;
use crate::scan::{
    blanks_end,
    line_rest_end,
    symbol_chars_end,
    skip_blanks,
    skip_line_rest,
    skip_symbol_chars,
};
use crate::parser::{
    GrammarModel,
    ProductionModel,
    ParsedGrammar,
    ParsedProduction,
    Expected,
    GrammarSyntaxError,
    alternatives_of,
    productions_of,
};
use crate::alphabet::word_of;
use crate::text::chars_of;

verus! {

/// The end of the line of blanks or of a comment that begins at `i`: the
/// position after its line end, or the end of the text. None where what
/// stands at `i` is no such line, or where nothing stands there.
pub open spec fn blank_line_end(s: Seq<char>, i: int) -> Option<int> {
    let j = blanks_end(s, i);
    let k = if 0 <= j < s.len() && s[j] == '#' {
        line_rest_end(s, j + 1)
    } else {
        j
    };
    if k < 0 {
        None
    } else if k >= s.len() {
        if k > i {
            Some(k)
        } else {
            None
        }
    } else if s[k] == '\n' {
        Some(k + 1)
    } else if s[k] == '\r' && k + 1 < s.len() && s[k + 1] == '\n' {
        Some(k + 2)
    } else {
        None
    }
}

/// The end of the lines of blanks and of comments that begin at `i`.
pub open spec fn blank_lines_end(s: Seq<char>, i: int) -> int
    decreases s.len() - i,
{
    match blank_line_end(s, i) {
        Some(e) => if i < e <= s.len() {
            blank_lines_end(s, e)
        } else {
            i
        },
        None => i,
    }
}

/// The words that are no symbols: the bar and the two arrows.
pub open spec fn is_reserved(word: Seq<char>) -> bool {
    word == seq!['|'] || word == seq!['\u{2192}'] || word == seq!['-', '>']
}

/// The end of the symbol that begins at `i`: a symbol is as many characters
/// as stand there without white space and `#`, at least one, and no
/// reserved word.
pub open spec fn symbol_name_end(s: Seq<char>, i: int) -> Option<int> {
    let e = symbol_chars_end(s, i);
    if 0 <= i < e <= s.len() && !is_reserved(s.subrange(i, e)) {
        Some(e)
    } else {
        None
    }
}

/// Whether `a` is the letter `b` in upper or lower case, or the same
/// character where `b` is no letter of the Latin alphabet.
pub open spec fn same_letter(a: char, b: char) -> bool {
    ||| a == b
    ||| ('a' <= b <= 'z' && a as int + 32 == b as int)
    ||| ('A' <= b <= 'Z' && a as int == b as int + 32)
}

/// Whether `word` stands at `i`, in whatever case.
pub open spec fn keyword_at(s: Seq<char>, i: int, word: Seq<char>) -> bool {
    &&& 0 <= i
    &&& i + word.len() <= s.len()
    &&& forall|k: int| 0 <= k < word.len() ==> same_letter(#[trigger] s[i + k], word[k])
}

/// The position after blanks, the word `word` and at least one more blank.
pub open spec fn prompt_end(s: Seq<char>, i: int, word: Seq<char>) -> Option<int> {
    let j = blanks_end(s, i);
    if keyword_at(s, j, word) {
        let k = j + word.len();
        let m = blanks_end(s, k);
        if m > k {
            Some(m)
        } else {
            None
        }
    } else {
        None
    }
}

/// The symbols that follow position `i`, each after at least one blank.
pub open spec fn more_symbols(s: Seq<char>, i: int) -> Seq<Seq<char>>
    decreases s.len() - i,
{
    let j = blanks_end(s, i);
    match symbol_name_end(s, j) {
        Some(e) => if i < j < e <= s.len() {
            seq![s.subrange(j, e)] + more_symbols(s, e)
        } else {
            Seq::empty()
        },
        None => Seq::empty(),
    }
}

/// The position after the last of the symbols that follow position `i`.
pub open spec fn more_symbols_end(s: Seq<char>, i: int) -> int
    decreases s.len() - i,
{
    let j = blanks_end(s, i);
    match symbol_name_end(s, j) {
        Some(e) => if i < j < e <= s.len() {
            more_symbols_end(s, e)
        } else {
            i
        },
        None => i,
    }
}

/// The symbols that stand at `i`, separated by blanks; there may be none.
pub open spec fn symbol_list(s: Seq<char>, i: int) -> Seq<Seq<char>> {
    match symbol_name_end(s, i) {
        Some(e) => seq![s.subrange(i, e)] + more_symbols(s, e),
        None => Seq::empty(),
    }
}

/// The position after the last of the symbols that stand at `i`.
pub open spec fn symbol_list_end(s: Seq<char>, i: int) -> int {
    match symbol_name_end(s, i) {
        Some(e) => more_symbols_end(s, e),
        None => i,
    }
}

/// The position after the arrow that stands at `i`.
pub open spec fn arrow_end(s: Seq<char>, i: int) -> Option<int> {
    if 0 <= i && i + 2 <= s.len() && s[i] == '-' && s[i + 1] == '>' {
        Some(i + 2)
    } else if 0 <= i < s.len() && s[i] == '\u{2192}' {
        Some(i + 1)
    } else {
        None
    }
}

/// The position after the bar that stands at `i`, with the blanks round it.
pub open spec fn bar_end(s: Seq<char>, i: int) -> Option<int> {
    let j = blanks_end(s, i);
    if 0 <= j < s.len() && s[j] == '|' {
        Some(blanks_end(s, j + 1))
    } else {
        None
    }
}

/// The alternatives that follow position `i`, each after a bar.
pub open spec fn more_alternatives(s: Seq<char>, i: int) -> Seq<Seq<Seq<char>>>
    decreases s.len() - i,
{
    match bar_end(s, i) {
        Some(k) => if i < k <= symbol_list_end(s, k) <= s.len() {
            seq![symbol_list(s, k)] + more_alternatives(s, symbol_list_end(s, k))
        } else {
            Seq::empty()
        },
        None => Seq::empty(),
    }
}

/// The position after the last of the alternatives that follow position
/// `i`.
pub open spec fn more_alternatives_end(s: Seq<char>, i: int) -> int
    decreases s.len() - i,
{
    match bar_end(s, i) {
        Some(k) => if i < k <= symbol_list_end(s, k) <= s.len() {
            more_alternatives_end(s, symbol_list_end(s, k))
        } else {
            i
        },
        None => i,
    }
}

/// The position at which the alternatives of the production at `i` begin:
/// after blanks, the symbol, blanks, the arrow and blanks.
pub open spec fn production_body(s: Seq<char>, i: int) -> Option<int> {
    let j = blanks_end(s, i);
    match symbol_name_end(s, j) {
        Some(e) => {
            let k = blanks_end(s, e);
            match arrow_end(s, k) {
                Some(a) => {
                    let m = blanks_end(s, a);
                    if k > e && m > a {
                        Some(m)
                    } else {
                        None
                    }
                },
                None => None,
            }
        },
        None => None,
    }
}

/// The production that stands at `i`.
pub open spec fn production_at(s: Seq<char>, i: int) -> Option<ProductionModel> {
    let j = blanks_end(s, i);
    match production_body(s, i) {
        Some(m) => Some(
            ProductionModel {
                name: s.subrange(j, symbol_chars_end(s, j)),
                alternatives: seq![symbol_list(s, m)] + more_alternatives(
                    s,
                    symbol_list_end(s, m),
                ),
            },
        ),
        None => None,
    }
}

/// The position after the production that stands at `i`.
pub open spec fn production_end(s: Seq<char>, i: int) -> int {
    match production_body(s, i) {
        Some(m) => more_alternatives_end(s, symbol_list_end(s, m)),
        None => i,
    }
}

/// The productions that follow position `i`, each after at least one line
/// end and any lines of blanks or comments.
pub open spec fn more_productions(s: Seq<char>, i: int) -> Seq<ProductionModel>
    decreases s.len() - i,
{
    let j = blank_lines_end(s, i);
    match production_at(s, j) {
        Some(p) => if i < j <= production_end(s, j) <= s.len() {
            seq![p] + more_productions(s, production_end(s, j))
        } else {
            Seq::empty()
        },
        None => Seq::empty(),
    }
}

/// The position after the last of the productions that follow position
/// `i`.
pub open spec fn more_productions_end(s: Seq<char>, i: int) -> int
    decreases s.len() - i,
{
    let j = blank_lines_end(s, i);
    match production_at(s, j) {
        Some(p) => if i < j <= production_end(s, j) <= s.len() {
            more_productions_end(s, production_end(s, j))
        } else {
            i
        },
        None => i,
    }
}

/// The grammar that the text describes; or what was looked for, and where,
/// when the text describes none.
pub open spec fn grammar_of(s: Seq<char>) -> Result<GrammarModel, (Expected, int)> {
    let i0 = blank_lines_end(s, 0);
    match prompt_end(s, i0, "Nonterminals:"@) {
        None => Err((Expected::Nonterminals, i0)),
        Some(a1) => {
            let e1 = symbol_list_end(s, a1);
            let i1 = blank_lines_end(s, e1);
            if i1 == e1 {
                Err((Expected::LineEnd, e1))
            } else {
                match prompt_end(s, i1, "Terminals:"@) {
                    None => Err((Expected::Terminals, i1)),
                    Some(a2) => {
                        let e2 = symbol_list_end(s, a2);
                        let i2 = blank_lines_end(s, e2);
                        if i2 == e2 {
                            Err((Expected::LineEnd, e2))
                        } else {
                            match prompt_end(s, i2, "Start:"@) {
                                None => Err((Expected::Start, i2)),
                                Some(a3) => match symbol_name_end(s, a3) {
                                    None => Err((Expected::Start, i2)),
                                    Some(e3) => {
                                        let i3 = blank_lines_end(s, e3);
                                        if i3 == e3 {
                                            Err((Expected::LineEnd, e3))
                                        } else {
                                            match production_at(s, i3) {
                                                None => Err((Expected::Production, i3)),
                                                Some(first) => {
                                                    let e4 = more_productions_end(
                                                        s,
                                                        production_end(s, i3),
                                                    );
                                                    let i4 = blank_lines_end(s, e4);
                                                    if i4 == s.len() {
                                                        Ok(
                                                            GrammarModel {
                                                                nonterminals: symbol_list(s, a1),
                                                                terminals: symbol_list(s, a2),
                                                                start: s.subrange(a3, e3),
                                                                productions: seq![first]
                                                                    + more_productions(
                                                                    s,
                                                                    production_end(s, i3),
                                                                ),
                                                            },
                                                        )
                                                    } else {
                                                        Err((Expected::End, i4))
                                                    }
                                                },
                                            }
                                        }
                                    },
                                },
                            }
                        }
                    },
                }
            }
        },
    }
}

/// Skips the line of blanks or of a comment that begins at `i`.
pub fn space_comment_line(s: &Vec<char>, i: usize) -> (end: Option<usize>)
    requires
        i <= s.len(),
    ensures
        end matches Some(e) ==> blank_line_end(s@, i as int) == Some(e as int) && i < e <= s.len(),
        end is None ==> blank_line_end(s@, i as int) is None,
{
    let j = skip_blanks(s, i);
    let k = if j < s.len() && s[j] == '#' {
        skip_line_rest(s, j + 1)
    } else {
        j
    };
    if k >= s.len() {
        if k > i {
            Some(k)
        } else {
            None
        }
    } else if s[k] == '\n' {
        Some(k + 1)
    } else if s[k] == '\r' && k + 1 < s.len() && s[k + 1] == '\n' {
        Some(k + 2)
    } else {
        None
    }
}

/// Skips the lines of blanks and of comments that begin at `i`.
pub fn space_comment_lines(s: &Vec<char>, i: usize) -> (end: usize)
    requires
        i <= s.len(),
    ensures
        end == blank_lines_end(s@, i as int),
        i <= end <= s.len(),
{
    let mut end: usize = i;
    loop
        invariant
            i <= end <= s.len(),
            blank_lines_end(s@, i as int) == blank_lines_end(s@, end as int),
        decreases s.len() - end,
    {
        match space_comment_line(s, end) {
            Some(e) => {
                end = e;
            },
            None => {
                return end;
            },
        }
    }
}

/// The end of the symbol that begins at `i`.
pub fn symbol_name(s: &Vec<char>, i: usize) -> (end: Option<usize>)
    requires
        i <= s.len(),
    ensures
        end matches Some(e) ==> symbol_name_end(s@, i as int) == Some(e as int) && i < e <= s.len(),
        end is None ==> symbol_name_end(s@, i as int) is None,
{
    let e = skip_symbol_chars(s, i);
    if e <= i {
        return None;
    }
    let ghost word = s@.subrange(i as int, e as int);
    let reserved = if e - i == 1 {
        assert(word[0] == s@[i as int]);
        s[i] == '|' || s[i] == '\u{2192}'
    } else if e - i == 2 {
        assert(word[0] == s@[i as int] && word[1] == s@[i + 1]);
        s[i] == '-' && s[i + 1] == '>'
    } else {
        false
    };
    proof {
        if reserved {
            assert(word =~= seq!['|'] || word =~= seq!['\u{2192}'] || word =~= seq!['-', '>']);
        } else {
            assert(seq!['|'].len() == 1 && seq!['\u{2192}'].len() == 1 && seq!['-', '>'].len()
                == 2);
            assert(seq!['|'][0] == '|' && seq!['\u{2192}'][0] == '\u{2192}' && seq![
                '-',
                '>',
            ][0] == '-' && seq!['-', '>'][1] == '>');
        }
    }
    if reserved {
        None
    } else {
        Some(e)
    }
}

/// Whether `a` is the letter `b` in upper or lower case, or the same
/// character.
fn letter_matches(a: char, b: char) -> (yes: bool)
    ensures
        yes == same_letter(a, b),
{
    let x: u32 = a as u32;
    let y: u32 = b as u32;
    a == b || ('a' <= b && b <= 'z' && x + 32 == y) || ('A' <= b && b <= 'Z' && x == y + 32)
}

/// The position after blanks, the word `word` in whatever case, and at
/// least one more blank.
pub fn prompt(s: &Vec<char>, i: usize, word: &Vec<char>) -> (end: Option<usize>)
    requires
        i <= s.len(),
    ensures
        end matches Some(e) ==> prompt_end(s@, i as int, word@) == Some(e as int) && i <= e
            <= s.len(),
        end is None ==> prompt_end(s@, i as int, word@) is None,
{
    let j = skip_blanks(s, i);
    if word.len() > s.len() - j {
        return None;
    }
    let mut k: usize = 0;
    while k < word.len()
        invariant
            k <= word.len(),
            j + word.len() <= s.len(),
            j == blanks_end(s@, i as int),
            forall|x: int| 0 <= x < k ==> same_letter(#[trigger] s@[j + x], word@[x]),
        decreases word.len() - k,
    {
        if !letter_matches(s[j + k], word[k]) {
            assert(!keyword_at(s@, j as int, word@)) by {
                if keyword_at(s@, j as int, word@) {
                    assert(same_letter(s@[j as int + k as int], word@[k as int]));
                }
            }
            return None;
        }
        k += 1;
    }
    let after = j + word.len();
    let m = skip_blanks(s, after);
    if m > after {
        Some(m)
    } else {
        None
    }
}

/// The symbols that stand at `i`, separated by blanks, and the position
/// after the last of them.
pub fn symbol_names<'a>(input: &'a str, s: &Vec<char>, i: usize) -> (found: (Vec<&'a str>, usize))
    requires
        s@ == input@,
        i <= s.len(),
    ensures
        word_of(found.0@) == symbol_list(s@, i as int),
        found.1 == symbol_list_end(s@, i as int),
        i <= found.1 <= s.len(),
{
    let mut names: Vec<&'a str> = Vec::new();
    let mut end: usize = i;
    match symbol_name(s, i) {
        None => {
            assert(word_of(names@) =~= symbol_list(s@, i as int));
            return (names, end);
        },
        Some(e) => {
            names.push(input.substring_char(i, e));
            end = e;
        },
    }
    assert(word_of(names@) =~= seq![s@.subrange(i as int, end as int)]);
    assert(word_of(names@) + more_symbols(s@, end as int) =~= symbol_list(s@, i as int));
    loop
        invariant
            s@ == input@,
            i <= end <= s.len(),
            word_of(names@) + more_symbols(s@, end as int) == symbol_list(s@, i as int),
            more_symbols_end(s@, end as int) == symbol_list_end(s@, i as int),
        decreases s.len() - end,
    {
        let j = skip_blanks(s, end);
        if j <= end {
            assert(word_of(names@) + Seq::<Seq<char>>::empty() =~= word_of(names@));
            return (names, end);
        }
        match symbol_name(s, j) {
            None => {
                assert(word_of(names@) + Seq::<Seq<char>>::empty() =~= word_of(names@));
                return (names, end);
            },
            Some(e) => {
                let ghost before = word_of(names@);
                names.push(input.substring_char(j, e));
                assert(word_of(names@) =~= before.push(s@.subrange(j as int, e as int)));
                assert(before + (seq![s@.subrange(j as int, e as int)] + more_symbols(
                    s@,
                    e as int,
                )) =~= word_of(names@) + more_symbols(s@, e as int));
                end = e;
            },
        }
    }
}

/// The symbols of the line that `word` opens at `i`, and the position after
/// the last of them.
pub fn symbols<'a>(input: &'a str, s: &Vec<char>, i: usize, word: &str) -> (found: Option<
    (Vec<&'a str>, usize),
>)
    requires
        s@ == input@,
        i <= s.len(),
    ensures
        match found {
            Some((names, end)) => prompt_end(s@, i as int, word@) matches Some(a) && word_of(
                names@,
            ) == symbol_list(s@, a) && end == symbol_list_end(s@, a) && i <= end <= s.len(),
            None => prompt_end(s@, i as int, word@) is None,
        },
{
    let letters = chars_of(word);
    match prompt(s, i, &letters) {
        Some(a) => Some(symbol_names(input, s, a)),
        None => None,
    }
}

/// The one symbol of the line that `word` opens at `i`, and the position
/// after it.
pub fn symbol<'a>(input: &'a str, s: &Vec<char>, i: usize, word: &str) -> (found: Option<
    (&'a str, usize),
>)
    requires
        s@ == input@,
        i <= s.len(),
    ensures
        match found {
            Some((name, end)) => prompt_end(s@, i as int, word@) matches Some(a)
                && symbol_name_end(s@, a) == Some(end as int) && name@ == s@.subrange(
                a,
                end as int,
            ) && i <= end <= s.len(),
            None => prompt_end(s@, i as int, word@) matches Some(a) ==> symbol_name_end(s@, a)
                is None,
        },
{
    let letters = chars_of(word);
    match prompt(s, i, &letters) {
        Some(a) => match symbol_name(s, a) {
            Some(e) => Some((input.substring_char(a, e), e)),
            None => None,
        },
        None => None,
    }
}

/// The position after the arrow that stands at `i`.
pub fn arrow(s: &Vec<char>, i: usize) -> (end: Option<usize>)
    requires
        i <= s.len(),
    ensures
        end matches Some(e) ==> arrow_end(s@, i as int) == Some(e as int) && i < e <= s.len(),
        end is None ==> arrow_end(s@, i as int) is None,
{
    if i < s.len() && s.len() - i >= 2 && s[i] == '-' && s[i + 1] == '>' {
        Some(i + 2)
    } else if i < s.len() && s[i] == '\u{2192}' {
        Some(i + 1)
    } else {
        None
    }
}

/// The position after the bar that stands at `i`, with the blanks round it.
pub fn pipe(s: &Vec<char>, i: usize) -> (end: Option<usize>)
    requires
        i <= s.len(),
    ensures
        end matches Some(e) ==> bar_end(s@, i as int) == Some(e as int) && i < e <= s.len(),
        end is None ==> bar_end(s@, i as int) is None,
{
    let j = skip_blanks(s, i);
    if j < s.len() && s[j] == '|' {
        Some(skip_blanks(s, j + 1))
    } else {
        None
    }
}

/// The position at which the alternatives of the production at `i` begin,
/// with the span of the production's symbol.
fn production_head(s: &Vec<char>, i: usize) -> (found: Option<(usize, usize, usize)>)
    requires
        i <= s.len(),
    ensures
        match found {
            Some((from, to, body)) => production_body(s@, i as int) == Some(body as int) && from
                == blanks_end(s@, i as int) && to == symbol_chars_end(s@, from as int) && i
                <= from < to <= body <= s.len(),
            None => production_body(s@, i as int) is None,
        },
{
    let j = skip_blanks(s, i);
    match symbol_name(s, j) {
        Some(e) => {
            let k = skip_blanks(s, e);
            match arrow(s, k) {
                Some(a) => {
                    let m = skip_blanks(s, a);
                    if k > e && m > a {
                        Some((j, e, m))
                    } else {
                        None
                    }
                },
                None => None,
            }
        },
        None => None,
    }
}

/// The production that stands at `i`, and the position after it.
pub fn production<'a>(input: &'a str, s: &Vec<char>, i: usize) -> (found: Option<
    (ParsedProduction<'a>, usize),
>)
    requires
        s@ == input@,
        i <= s.len(),
    ensures
        match found {
            Some((p, end)) => production_at(s@, i as int) == Some(p@) && end == production_end(
                s@,
                i as int,
            ) && i < end <= s.len(),
            None => production_at(s@, i as int) is None,
        },
{
    let (from, to, body) = match production_head(s, i) {
        Some(head) => head,
        None => {
            return None;
        },
    };
    let name = input.substring_char(from, to);
    let mut alternatives: Vec<Vec<&'a str>> = Vec::new();
    let (first, first_end) = symbol_names(input, s, body);
    alternatives.push(first);
    let mut end: usize = first_end;
    let ghost all = seq![symbol_list(s@, body as int)] + more_alternatives(s@, first_end as int);
    assert(alternatives_of(alternatives@) =~= seq![symbol_list(s@, body as int)]);
    loop
        invariant
            s@ == input@,
            i < body <= end <= s.len(),
            production_body(s@, i as int) == Some(body as int),
            name@ == s@.subrange(
                blanks_end(s@, i as int),
                symbol_chars_end(s@, blanks_end(s@, i as int)),
            ),
            first_end == symbol_list_end(s@, body as int),
            all == seq![symbol_list(s@, body as int)] + more_alternatives(s@, first_end as int),
            alternatives_of(alternatives@) + more_alternatives(s@, end as int) == all,
            more_alternatives_end(s@, end as int) == more_alternatives_end(s@, first_end as int),
        decreases s.len() - end,
    {
        match pipe(s, end) {
            Some(k) => {
                let (next, next_end) = symbol_names(input, s, k);
                let ghost before = alternatives_of(alternatives@);
                alternatives.push(next);
                assert(alternatives_of(alternatives@) =~= before.push(symbol_list(s@, k as int)));
                assert(before + (seq![symbol_list(s@, k as int)] + more_alternatives(
                    s@,
                    next_end as int,
                )) =~= alternatives_of(alternatives@) + more_alternatives(s@, next_end as int));
                end = next_end;
            },
            None => {
                assert(alternatives_of(alternatives@) + Seq::<Seq<Seq<char>>>::empty()
                    =~= alternatives_of(alternatives@));
                return Some((ParsedProduction { name, alternatives }, end));
            },
        }
    }
}

/// The grammar that the text describes.
pub fn full_grammar<'a>(input: &'a str, s: &Vec<char>) -> (parsed: Result<
    ParsedGrammar<'a>,
    GrammarSyntaxError,
>)
    requires
        s@ == input@,
    ensures
        match parsed {
            Ok(g) => grammar_of(s@) == Ok::<GrammarModel, (Expected, int)>(g@),
            Err(e) => grammar_of(s@) == Err::<GrammarModel, (Expected, int)>(
                (e.expected, e.position as int),
            ),
        },
{
    let i0 = space_comment_lines(s, 0);
    let (nonterminals, e1) = match symbols(input, s, i0, "Nonterminals:") {
        Some(found) => found,
        None => {
            return Err(GrammarSyntaxError { expected: Expected::Nonterminals, position: i0 });
        },
    };
    let i1 = space_comment_lines(s, e1);
    if i1 == e1 {
        return Err(GrammarSyntaxError { expected: Expected::LineEnd, position: e1 });
    }
    let (terminals, e2) = match symbols(input, s, i1, "Terminals:") {
        Some(found) => found,
        None => {
            return Err(GrammarSyntaxError { expected: Expected::Terminals, position: i1 });
        },
    };
    let i2 = space_comment_lines(s, e2);
    if i2 == e2 {
        return Err(GrammarSyntaxError { expected: Expected::LineEnd, position: e2 });
    }
    let (start, e3) = match symbol(input, s, i2, "Start:") {
        Some(found) => found,
        None => {
            return Err(GrammarSyntaxError { expected: Expected::Start, position: i2 });
        },
    };
    let i3 = space_comment_lines(s, e3);
    if i3 == e3 {
        return Err(GrammarSyntaxError { expected: Expected::LineEnd, position: e3 });
    }
    let mut productions: Vec<ParsedProduction<'a>> = Vec::new();
    let mut end: usize = match production(input, s, i3) {
        Some((first, first_end)) => {
            productions.push(first);
            first_end
        },
        None => {
            return Err(GrammarSyntaxError { expected: Expected::Production, position: i3 });
        },
    };
    let ghost first_end = end as int;
    let ghost all = seq![production_at(s@, i3 as int).unwrap()] + more_productions(s@, first_end);
    assert(productions_of(productions@) =~= seq![production_at(s@, i3 as int).unwrap()]);
    loop
        invariant
            s@ == input@,
            end <= s.len(),
            productions_of(productions@) + more_productions(s@, end as int) == all,
            more_productions_end(s@, end as int) == more_productions_end(s@, first_end),
        ensures
            productions_of(productions@) == all,
            end == more_productions_end(s@, first_end),
            end <= s.len(),
        decreases s.len() - end,
    {
        let j = space_comment_lines(s, end);
        if j <= end {
            assert(productions_of(productions@) + Seq::<ProductionModel>::empty()
                =~= productions_of(productions@));
            break ;
        }
        match production(input, s, j) {
            Some((next, next_end)) => {
                let ghost before = productions_of(productions@);
                productions.push(next);
                assert(productions_of(productions@) =~= before.push(next@));
                assert(before + (seq![next@] + more_productions(s@, next_end as int))
                    =~= productions_of(productions@) + more_productions(s@, next_end as int));
                end = next_end;
            },
            None => {
                assert(productions_of(productions@) + Seq::<ProductionModel>::empty()
                    =~= productions_of(productions@));
                break ;
            },
        }
    }
    let i4 = space_comment_lines(s, end);
    if i4 != s.len() {
        return Err(GrammarSyntaxError { expected: Expected::End, position: i4 });
    }
    let parsed = ParsedGrammar { nonterminals, terminals, start, productions };
    Ok(parsed)
}

} // verus!
