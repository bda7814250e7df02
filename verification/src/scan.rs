//! Scanning text by characters: blanks, comments, line ends and symbols.

use vstd::prelude::*;

verus! {

/// A space or a tab: what separates the words of a line.
pub open spec fn is_blank(c: char) -> bool {
    c == ' ' || c == '\t'
}

/// A character of white space: one of the characters to which Unicode gives
/// the property of that name.
pub open spec fn is_whitespace(c: char) -> bool {
    let code = c as int;
    ||| 0x09 <= code <= 0x0d
    ||| code == 0x20
    ||| code == 0x85
    ||| code == 0xa0
    ||| code == 0x1680
    ||| 0x2000 <= code <= 0x200a
    ||| code == 0x2028
    ||| code == 0x2029
    ||| code == 0x202f
    ||| code == 0x205f
    ||| code == 0x3000
}

/// Whether `c` is a space or a tab.
pub fn blank(c: char) -> (yes: bool)
    ensures
        yes == is_blank(c),
{
    c == ' ' || c == '\t'
}

/// Whether `c` is a character of white space.
pub fn whitespace(c: char) -> (yes: bool)
    ensures
        yes == is_whitespace(c),
{
    let code: u32 = c as u32;
    (0x09 <= code && code <= 0x0d) || code == 0x20 || code == 0x85 || code == 0xa0 || code
        == 0x1680 || (0x2000 <= code && code <= 0x200a) || code == 0x2028 || code == 0x2029
        || code == 0x202f || code == 0x205f || code == 0x3000
}

/// The first position from `i` on that holds no blank; the length of the
/// text if there is none.
pub open spec fn blanks_end(s: Seq<char>, i: int) -> int
    decreases s.len() - i,
{
    if 0 <= i < s.len() && is_blank(s[i]) {
        blanks_end(s, i + 1)
    } else {
        i
    }
}

/// The first position from `i` on that holds a line feed or a carriage
/// return; the length of the text if there is none.
pub open spec fn line_rest_end(s: Seq<char>, i: int) -> int
    decreases s.len() - i,
{
    if 0 <= i < s.len() && s[i] != '\n' && s[i] != '\r' {
        line_rest_end(s, i + 1)
    } else {
        i
    }
}

/// Whether a symbol can hold `c`: any character but white space and the
/// sign that opens a comment.
pub open spec fn is_symbol_char(c: char) -> bool {
    !is_whitespace(c) && c != '#'
}

/// The first position from `i` on that holds no character of a symbol; the
/// length of the text if there is none.
pub open spec fn symbol_chars_end(s: Seq<char>, i: int) -> int
    decreases s.len() - i,
{
    if 0 <= i < s.len() && is_symbol_char(s[i]) {
        symbol_chars_end(s, i + 1)
    } else {
        i
    }
}

/// The scans move forward and stay inside the text.
pub proof fn lemma_scan_bounds(s: Seq<char>, i: int)
    requires
        0 <= i <= s.len(),
    ensures
        i <= blanks_end(s, i) <= s.len(),
        i <= line_rest_end(s, i) <= s.len(),
        i <= symbol_chars_end(s, i) <= s.len(),
    decreases s.len() - i,
{
    if i < s.len() {
        lemma_scan_bounds(s, i + 1);
    }
}

/// Skips the blanks from `i` on.
pub fn skip_blanks(s: &Vec<char>, i: usize) -> (end: usize)
    requires
        i <= s.len(),
    ensures
        end == blanks_end(s@, i as int),
        i <= end <= s.len(),
{
    let mut end: usize = i;
    while end < s.len() && blank(s[end])
        invariant
            i <= end <= s.len(),
            blanks_end(s@, i as int) == blanks_end(s@, end as int),
        decreases s.len() - end,
    {
        end += 1;
    }
    end
}

/// Skips to the end of the line that holds position `i`.
pub fn skip_line_rest(s: &Vec<char>, i: usize) -> (end: usize)
    requires
        i <= s.len(),
    ensures
        end == line_rest_end(s@, i as int),
        i <= end <= s.len(),
{
    let mut end: usize = i;
    while end < s.len() && s[end] != '\n' && s[end] != '\r'
        invariant
            i <= end <= s.len(),
            line_rest_end(s@, i as int) == line_rest_end(s@, end as int),
        decreases s.len() - end,
    {
        end += 1;
    }
    end
}

/// Skips the characters of a symbol from `i` on.
pub fn skip_symbol_chars(s: &Vec<char>, i: usize) -> (end: usize)
    requires
        i <= s.len(),
    ensures
        end == symbol_chars_end(s@, i as int),
        i <= end <= s.len(),
{
    let mut end: usize = i;
    while end < s.len() && !whitespace(s[end]) && s[end] != '#'
        invariant
            i <= end <= s.len(),
            symbol_chars_end(s@, i as int) == symbol_chars_end(s@, end as int),
        decreases s.len() - end,
    {
        end += 1;
    }
    end
}

} // verus!
