//! Regular expressions: their syntax, and how they are written and read.

pub mod alt;
pub mod concat;
pub mod laws;
pub mod matching;
pub mod star;
pub mod thompson;

use vstd::prelude::*;
use crate::error::{Error, ErrorModel};
use crate::text::chars_of;

verus! {

broadcast use vstd::std_specs::vec::axiom_vec_index_decreases;

/// What a regular expression is.
pub enum RegexModel {
    /// The expression that matches the empty word only.
    Empty,
    /// The expression that matches nothing.
    Zero,
    /// The expression that matches the word of one symbol.
    Literal(char),
    /// The expressions one after the other.
    Concat(Seq<RegexModel>),
    /// One of the expressions.
    Alt(Seq<RegexModel>),
    /// The expression any number of times.
    Star(Box<RegexModel>),
    /// The expression at least once.
    Plus(Box<RegexModel>),
}

/// A regular expression.
#[derive(Debug, PartialEq, Eq)]
pub enum Regex {
    /// The expression that matches the empty word only.
    Empty,
    /// The expression that matches nothing.
    Zero,
    /// The expression that matches the word of one symbol.
    Literal(char),
    /// The expressions one after the other.
    Concat(Vec<Regex>),
    /// One of the expressions.
    Alt(Vec<Regex>),
    /// The expression any number of times.
    Star(Box<Regex>),
    /// The expression at least once.
    Plus(Box<Regex>),
}

/// What a regular expression holds.
pub open spec fn regex_model(r: Regex) -> RegexModel
    decreases r,
{
    match r {
        Regex::Empty => RegexModel::Empty,
        Regex::Zero => RegexModel::Zero,
        Regex::Literal(c) => RegexModel::Literal(c),
        Regex::Concat(list) => RegexModel::Concat(
            Seq::new(
                list.len() as nat,
                |i: int|
                    if 0 <= i < list.len() {
                        regex_model(list[i])
                    } else {
                        RegexModel::Empty
                    },
            ),
        ),
        Regex::Alt(list) => RegexModel::Alt(
            Seq::new(
                list.len() as nat,
                |i: int|
                    if 0 <= i < list.len() {
                        regex_model(list[i])
                    } else {
                        RegexModel::Empty
                    },
            ),
        ),
        Regex::Star(inner) => RegexModel::Star(Box::new(regex_model(*inner))),
        Regex::Plus(inner) => RegexModel::Plus(Box::new(regex_model(*inner))),
    }
}

impl View for Regex {
    type V = RegexModel;

    open spec fn view(&self) -> RegexModel {
        regex_model(*self)
    }
}

/// The expressions that a list of expressions stands for.
pub open spec fn models_of(list: Seq<Regex>) -> Seq<RegexModel> {
    Seq::new(list.len(), |i: int| list[i]@)
}

/// The characters that are no symbols: the signs of the operators, and the
/// signs for the empty word and for nothing.
pub open spec fn is_sign(c: char) -> bool {
    c == '|' || c == '*' || c == '+' || c == '(' || c == ')' || c == '\u{3b5}' || c == '\u{2205}'
}

/// What was read, and the text that is left.
pub struct Parsed {
    pub regex: RegexModel,
    pub rest: Seq<char>,
}

/// The expression with the stars and crosses that follow it.
pub open spec fn with_repeats(inner: RegexModel, t: Seq<char>) -> Parsed
    decreases t.len(),
{
    if t.len() > 0 && t[0] == '*' {
        with_repeats(RegexModel::Star(Box::new(inner)), t.drop_first())
    } else if t.len() > 0 && t[0] == '+' {
        with_repeats(RegexModel::Plus(Box::new(inner)), t.drop_first())
    } else {
        Parsed { regex: inner, rest: t }
    }
}

/// One expression that can be repeated: a symbol, the sign for the empty
/// word or for nothing, or an expression in brackets. An error gives the
/// number of characters that were left when it was found.
pub open spec fn read_atom(t: Seq<char>) -> Result<Parsed, int>
    decreases t.len(), 0nat,
{
    if t.len() == 0 {
        Err(0)
    } else if t[0] == '(' {
        match read_alternation(t.drop_first()) {
            Ok(inner) => if inner.rest.len() > 0 && inner.rest.len() < t.len() && inner.rest[0]
                == ')' {
                Ok(Parsed { regex: inner.regex, rest: inner.rest.drop_first() })
            } else {
                Err(inner.rest.len() as int)
            },
            Err(e) => Err(e),
        }
    } else if t[0] == '\u{3b5}' {
        Ok(Parsed { regex: RegexModel::Empty, rest: t.drop_first() })
    } else if t[0] == '\u{2205}' {
        Ok(Parsed { regex: RegexModel::Zero, rest: t.drop_first() })
    } else if is_sign(t[0]) {
        Err(t.len() as int)
    } else {
        Ok(Parsed { regex: RegexModel::Literal(t[0]), rest: t.drop_first() })
    }
}

/// One expression with the stars and crosses that follow it.
pub open spec fn read_repeated(t: Seq<char>) -> Result<Parsed, int>
    decreases t.len(), 1nat,
{
    match read_atom(t) {
        Ok(atom) => Ok(with_repeats(atom.regex, atom.rest)),
        Err(e) => Err(e),
    }
}

/// What a list of expressions was read as, and the text that is left.
pub struct ParsedList {
    pub items: Seq<RegexModel>,
    pub rest: Seq<char>,
}

/// The expressions that stand one after the other, up to a bar, a closing
/// bracket or the end of the text.
pub open spec fn read_items(t: Seq<char>) -> Result<ParsedList, int>
    decreases t.len(), 2nat,
{
    if t.len() == 0 || t[0] == '|' || t[0] == ')' {
        Ok(ParsedList { items: Seq::empty(), rest: t })
    } else {
        match read_repeated(t) {
            Ok(first) => if first.rest.len() < t.len() {
                match read_items(first.rest) {
                    Ok(more) => Ok(
                        ParsedList { items: seq![first.regex] + more.items, rest: more.rest },
                    ),
                    Err(e) => Err(e),
                }
            } else {
                Err(t.len() as int)
            },
            Err(e) => Err(e),
        }
    }
}

/// A sequence of expressions: the empty word where there is none.
pub open spec fn read_sequence(t: Seq<char>) -> Result<Parsed, int>
    decreases t.len(), 3nat,
{
    match read_items(t) {
        Ok(list) => Ok(
            Parsed {
                regex: if list.items.len() == 0 {
                    RegexModel::Empty
                } else {
                    RegexModel::Concat(list.items)
                },
                rest: list.rest,
            },
        ),
        Err(e) => Err(e),
    }
}

/// The sequences that follow, each after a bar.
pub open spec fn read_alternatives(t: Seq<char>) -> Result<ParsedList, int>
    decreases t.len(), 4nat,
{
    if t.len() > 0 && t[0] == '|' {
        match read_sequence(t.drop_first()) {
            Ok(first) => if first.rest.len() < t.len() {
                match read_alternatives(first.rest) {
                    Ok(more) => Ok(
                        ParsedList { items: seq![first.regex] + more.items, rest: more.rest },
                    ),
                    Err(e) => Err(e),
                }
            } else {
                Err(t.len() as int)
            },
            Err(e) => Err(e),
        }
    } else {
        Ok(ParsedList { items: Seq::empty(), rest: t })
    }
}

/// Sequences separated by bars: the sequence where there is no bar.
pub open spec fn read_alternation(t: Seq<char>) -> Result<Parsed, int>
    decreases t.len(), 5nat,
{
    match read_sequence(t) {
        Ok(first) => if first.rest.len() <= t.len() {
            match read_alternatives(first.rest) {
                Ok(more) => Ok(
                    Parsed {
                        regex: if more.items.len() == 0 {
                            first.regex
                        } else {
                            RegexModel::Alt(seq![first.regex] + more.items)
                        },
                        rest: more.rest,
                    },
                ),
                Err(e) => Err(e),
            }
        } else {
            Err(t.len() as int)
        },
        Err(e) => Err(e),
    }
}

/// The expression that a text spells, or the place, counted in characters,
/// at which the text ceases to spell one.
pub open spec fn regex_of(text: Seq<char>) -> Result<RegexModel, ErrorModel> {
    match read_alternation(text) {
        Ok(all) => if all.rest.len() == 0 {
            Ok(all.regex)
        } else {
            Err(ErrorModel::Lex(text.len() - all.rest.len()))
        },
        Err(left) => Err(ErrorModel::Lex(text.len() - left)),
    }
}

/// What reading from position `i` of `s` gave: the expression and the
/// position after it, or the position of the error.
pub open spec fn reads_as(s: Seq<char>, i: int, got: Result<(Regex, usize), usize>, want: Result<
    Parsed,
    int,
>) -> bool {
    match want {
        Ok(p) => got matches Ok((regex, next)) && regex@ == p.regex && i <= next <= s.len()
            && p.rest == s.skip(next as int),
        Err(left) => got matches Err(at) && at == s.len() - left,
    }
}

/// What reading a list from position `i` of `s` gave.
pub open spec fn reads_list_as(
    s: Seq<char>,
    i: int,
    got: Result<(Vec<Regex>, usize), usize>,
    want: Result<ParsedList, int>,
) -> bool {
    match want {
        Ok(p) => got matches Ok((list, next)) && models_of(list@) == p.items && i <= next
            <= s.len() && p.rest == s.skip(next as int),
        Err(left) => got matches Err(at) && at == s.len() - left,
    }
}

/// The expression with the stars and crosses that stand at `i`.
fn repeats(s: &Vec<char>, i: usize, inner: Regex) -> (got: (Regex, usize))
    requires
        i <= s.len(),
    ensures
        got.0@ == with_repeats(inner@, s@.skip(i as int)).regex,
        i <= got.1 <= s.len(),
        with_repeats(inner@, s@.skip(i as int)).rest == s@.skip(got.1 as int),
    decreases s.len() - i,
{
    let ghost t = s@.skip(i as int);
    if i < s.len() {
        assert(t[0] == s@[i as int]);
        assert(t.drop_first() =~= s@.skip(i + 1));
        if s[i] == '*' {
            return repeats(s, i + 1, Regex::Star(Box::new(inner)));
        }
        if s[i] == '+' {
            return repeats(s, i + 1, Regex::Plus(Box::new(inner)));
        }
    }
    (inner, i)
}

/// The character at position `i`.
fn char_at(s: &Vec<char>, i: usize) -> (c: char)
    requires
        i < s.len(),
    ensures
        c == s@[i as int],
{
    s[i]
}

/// One expression that can be repeated, read from position `i`.
fn parse_atom(s: &Vec<char>, i: usize) -> (got: Result<(Regex, usize), usize>)
    requires
        i <= s.len(),
    ensures
        reads_as(s@, i as int, got, read_atom(s@.skip(i as int))),
        got matches Ok((_, next)) ==> i < next,
    decreases s.len() - i, 0nat,
{
    let ghost t = s@.skip(i as int);
    if i >= s.len() {
        return Err(i);
    }
    assert(t[0] == s@[i as int]);
    assert(t.drop_first() =~= s@.skip(i + 1));
    let c = char_at(s, i);
    if c == '(' {
        match parse_alternation(s, i + 1) {
            Ok((inner, next)) => {
                if next < s.len() && s[next] == ')' {
                    assert(s@.skip(next as int)[0] == s@[next as int]);
                    assert(s@.skip(next as int).drop_first() =~= s@.skip(next + 1));
                    Ok((inner, next + 1))
                } else {
                    proof {
                        if next < s.len() {
                            assert(s@.skip(next as int)[0] == s@[next as int]);
                        }
                    }
                    Err(next)
                }
            },
            Err(at) => Err(at),
        }
    } else if c == '\u{3b5}' {
        Ok((Regex::Empty, i + 1))
    } else if c == '\u{2205}' {
        Ok((Regex::Zero, i + 1))
    } else if c == '|' || c == '*' || c == '+' || c == ')' {
        Err(i)
    } else {
        Ok((Regex::Literal(c), i + 1))
    }
}

/// One expression with its stars and crosses, read from position `i`.
fn parse_repeated(s: &Vec<char>, i: usize) -> (got: Result<(Regex, usize), usize>)
    requires
        i <= s.len(),
    ensures
        reads_as(s@, i as int, got, read_repeated(s@.skip(i as int))),
        got matches Ok((_, next)) ==> i < next,
    decreases s.len() - i, 1nat,
{
    match parse_atom(s, i) {
        Ok((atom, next)) => Ok(repeats(s, next, atom)),
        Err(at) => Err(at),
    }
}

/// The expressions that stand one after the other from position `i` on.
fn parse_items(s: &Vec<char>, i: usize) -> (got: Result<(Vec<Regex>, usize), usize>)
    requires
        i <= s.len(),
    ensures
        reads_list_as(s@, i as int, got, read_items(s@.skip(i as int))),
    decreases s.len() - i, 2nat,
{
    let ghost t = s@.skip(i as int);
    if i < s.len() {
        assert(t[0] == s@[i as int]);
    }
    if i >= s.len() || s[i] == '|' || s[i] == ')' {
        let list: Vec<Regex> = Vec::new();
        assert(models_of(list@) =~= Seq::<RegexModel>::empty());
        return Ok((list, i));
    }
    match parse_repeated(s, i) {
        Ok((first, next)) => {
            match parse_items(s, next) {
                Ok((more, end)) => {
                    let mut list = more;
                    let ghost before = models_of(list@);
                    list.insert(0, first);
                    assert(models_of(list@) =~= seq![first@] + before);
                    Ok((list, end))
                },
                Err(at) => Err(at),
            }
        },
        Err(at) => Err(at),
    }
}

/// A sequence of expressions, read from position `i`.
fn parse_sequence(s: &Vec<char>, i: usize) -> (got: Result<(Regex, usize), usize>)
    requires
        i <= s.len(),
    ensures
        reads_as(s@, i as int, got, read_sequence(s@.skip(i as int))),
    decreases s.len() - i, 3nat,
{
    match parse_items(s, i) {
        Ok((list, next)) => {
            if list.len() == 0 {
                Ok((Regex::Empty, next))
            } else {
                let regex = Regex::Concat(list);
                assert(regex@ == RegexModel::Concat(models_of(list@))) by {
                    assert(regex@->Concat_0 =~= models_of(list@));
                }
                Ok((regex, next))
            }
        },
        Err(at) => Err(at),
    }
}

/// The sequences that stand after bars from position `i` on.
fn parse_alternatives(s: &Vec<char>, i: usize) -> (got: Result<(Vec<Regex>, usize), usize>)
    requires
        i <= s.len(),
    ensures
        reads_list_as(s@, i as int, got, read_alternatives(s@.skip(i as int))),
    decreases s.len() - i, 4nat,
{
    let ghost t = s@.skip(i as int);
    if i < s.len() && s[i] == '|' {
        assert(t[0] == s@[i as int]);
        assert(t.drop_first() =~= s@.skip(i + 1));
        match parse_sequence(s, i + 1) {
            Ok((first, next)) => {
                match parse_alternatives(s, next) {
                    Ok((more, end)) => {
                        let mut list = more;
                        let ghost before = models_of(list@);
                        list.insert(0, first);
                        assert(models_of(list@) =~= seq![first@] + before);
                        Ok((list, end))
                    },
                    Err(at) => Err(at),
                }
            },
            Err(at) => Err(at),
        }
    } else {
        proof {
            if i < s.len() {
                assert(t[0] == s@[i as int]);
            }
        }
        let list: Vec<Regex> = Vec::new();
        assert(models_of(list@) =~= Seq::<RegexModel>::empty());
        Ok((list, i))
    }
}

/// Sequences separated by bars, read from position `i`.
fn parse_alternation(s: &Vec<char>, i: usize) -> (got: Result<(Regex, usize), usize>)
    requires
        i <= s.len(),
    ensures
        reads_as(s@, i as int, got, read_alternation(s@.skip(i as int))),
    decreases s.len() - i, 5nat,
{
    match parse_sequence(s, i) {
        Ok((first, next)) => {
            match parse_alternatives(s, next) {
                Ok((more, end)) => {
                    if more.len() == 0 {
                        Ok((first, end))
                    } else {
                        let mut list = more;
                        let ghost before = models_of(list@);
                        list.insert(0, first);
                        assert(models_of(list@) =~= seq![first@] + before);
                        let regex = Regex::Alt(list);
                        assert(regex@ == RegexModel::Alt(models_of(list@))) by {
                            assert(regex@->Alt_0 =~= models_of(list@));
                        }
                        Ok((regex, end))
                    }
                },
                Err(at) => Err(at),
            }
        },
        Err(at) => Err(at),
    }
}

impl Regex {
    /// Reads a regular expression: bars separate alternatives, expressions
    /// that stand one after the other are read one after the other, a star
    /// or a cross repeats the expression before it, and brackets group.
    /// `ε` is the empty word and `∅` matches nothing; every other
    /// character is a symbol.
    pub fn parse(text: &str) -> (outcome: Result<Regex, Error>)
        ensures
            match outcome {
                Ok(r) => regex_of(text@) == Ok::<RegexModel, ErrorModel>(r@),
                Err(e) => regex_of(text@) == Err::<RegexModel, ErrorModel>(e@),
            },
    {
        let s = chars_of(text);
        assert(s@.skip(0) =~= s@);
        match parse_alternation(&s, 0) {
            Ok((regex, next)) => {
                if next == s.len() {
                    Ok(regex)
                } else {
                    Err(Error::Lex(next))
                }
            },
            Err(at) => Err(Error::Lex(at)),
        }
    }
}

/// An expression where it can be repeated: a symbol or a sign as it is,
/// a list of expressions in brackets.
pub open spec fn shown_atom(r: RegexModel) -> Seq<char>
    decreases r, 0nat,
{
    match r {
        RegexModel::Empty => seq!['\u{3b5}'],
        RegexModel::Zero => seq!['\u{2205}'],
        RegexModel::Literal(c) => seq![c],
        RegexModel::Concat(list) => seq!['('] + shown_items(list, 0) + seq![')'],
        RegexModel::Alt(list) => seq!['('] + shown_alternatives(list, 0) + seq![')'],
        RegexModel::Star(inner) => seq!['('] + shown_repeated(*inner) + seq!['*', ')'],
        RegexModel::Plus(inner) => seq!['('] + shown_repeated(*inner) + seq!['+', ')'],
    }
}

/// An expression with its stars and crosses behind it.
pub open spec fn shown_repeated(r: RegexModel) -> Seq<char>
    decreases r, 1nat,
{
    match r {
        RegexModel::Star(inner) => shown_repeated(*inner) + seq!['*'],
        RegexModel::Plus(inner) => shown_repeated(*inner) + seq!['+'],
        _ => shown_atom(r),
    }
}

/// The expressions of the list from `from` on, one after the other.
pub open spec fn shown_items(list: Seq<RegexModel>, from: int) -> Seq<char>
    decreases list, list.len() - from,
{
    if from < 0 || from >= list.len() {
        Seq::empty()
    } else {
        shown_repeated(list[from]) + shown_items(list, from + 1)
    }
}

/// An expression as a sequence: the expressions of a list one after the
/// other, and nothing for the empty word.
pub open spec fn shown_sequence(r: RegexModel) -> Seq<char>
    decreases r, 2nat,
{
    match r {
        RegexModel::Empty => Seq::empty(),
        RegexModel::Concat(list) => shown_items(list, 0),
        _ => shown_repeated(r),
    }
}

/// The expressions of the list from `from` on as sequences, with a bar
/// before each but the first of the list.
pub open spec fn shown_alternatives(list: Seq<RegexModel>, from: int) -> Seq<char>
    decreases list, list.len() - from,
{
    if from < 0 || from >= list.len() {
        Seq::empty()
    } else if from == 0 {
        shown_sequence(list[from]) + shown_alternatives(list, from + 1)
    } else {
        seq!['|'] + shown_sequence(list[from]) + shown_alternatives(list, from + 1)
    }
}

/// The text of an expression, with brackets only where expressions are
/// grouped.
pub open spec fn shown(r: RegexModel) -> Seq<char> {
    match r {
        RegexModel::Alt(list) => shown_alternatives(list, 0),
        _ => shown_sequence(r),
    }
}

impl Regex {
    /// Appends the expression where it can be repeated.
    fn push_atom(&self, text: &mut String)
        ensures
            final(text)@ == old(text)@ + shown_atom(self@),
        decreases self, 0nat,
    {
        let ghost before = text@;
        match self {
            Regex::Empty => {
                text.push('\u{3b5}');
            },
            Regex::Zero => {
                text.push('\u{2205}');
            },
            Regex::Literal(c) => {
                text.push(*c);
            },
            Regex::Concat(list) => {
                text.push('(');
                Regex::push_items(list, text);
                text.push(')');
                assert(self@->Concat_0 =~= models_of(list@));
            },
            Regex::Alt(list) => {
                text.push('(');
                Regex::push_alternatives(list, text);
                text.push(')');
                assert(self@->Alt_0 =~= models_of(list@));
            },
            Regex::Star(inner) => {
                text.push('(');
                inner.push_repeated(text);
                text.push('*');
                text.push(')');
            },
            Regex::Plus(inner) => {
                text.push('(');
                inner.push_repeated(text);
                text.push('+');
                text.push(')');
            },
        }
        assert(text@ =~= before + shown_atom(self@));
    }

    /// Appends the expression with its stars and crosses.
    fn push_repeated(&self, text: &mut String)
        ensures
            final(text)@ == old(text)@ + shown_repeated(self@),
        decreases self, 1nat,
    {
        let ghost before = text@;
        match self {
            Regex::Star(inner) => {
                inner.push_repeated(text);
                text.push('*');
                assert(text@ =~= before + shown_repeated(self@));
            },
            Regex::Plus(inner) => {
                inner.push_repeated(text);
                text.push('+');
                assert(text@ =~= before + shown_repeated(self@));
            },
            _ => {
                self.push_atom(text);
            },
        }
    }

    /// Appends the expressions of the list one after the other.
    fn push_items(list: &Vec<Regex>, text: &mut String)
        ensures
            final(text)@ == old(text)@ + shown_items(models_of(list@), 0),
        decreases list, 0nat,
    {
        let ghost before = text@;
        let ghost models = models_of(list@);
        let mut k: usize = 0;
        assert(text@ + shown_items(models, 0) =~= before + shown_items(models, 0));
        while k < list.len()
            invariant
                k <= list.len(),
                models == models_of(list@),
                text@ + shown_items(models, k as int) == before + shown_items(models, 0),
            decreases list.len() - k,
        {
            let ghost so_far = text@;
            list[k].push_repeated(text);
            assert(text@ + shown_items(models, k + 1) =~= so_far + shown_items(models, k as int));
            k += 1;
        }
        assert(text@ + shown_items(models, k as int) =~= text@);
    }

    /// Appends the expression as a sequence.
    fn push_sequence(&self, text: &mut String)
        ensures
            final(text)@ == old(text)@ + shown_sequence(self@),
        decreases self, 2nat,
    {
        let ghost before = text@;
        match self {
            Regex::Empty => {
                assert(text@ =~= before + shown_sequence(self@));
            },
            Regex::Concat(list) => {
                Regex::push_items(list, text);
                assert(self@->Concat_0 =~= models_of(list@));
            },
            _ => {
                self.push_repeated(text);
            },
        }
    }

    /// Appends the expressions of the list as sequences between bars.
    fn push_alternatives(list: &Vec<Regex>, text: &mut String)
        ensures
            final(text)@ == old(text)@ + shown_alternatives(models_of(list@), 0),
        decreases list, 0nat,
    {
        let ghost before = text@;
        let ghost models = models_of(list@);
        let mut k: usize = 0;
        assert(text@ + shown_alternatives(models, 0) =~= before + shown_alternatives(models, 0));
        while k < list.len()
            invariant
                k <= list.len(),
                models == models_of(list@),
                text@ + shown_alternatives(models, k as int) == before + shown_alternatives(
                    models,
                    0,
                ),
            decreases list.len() - k,
        {
            let ghost so_far = text@;
            if k > 0 {
                text.push('|');
            }
            list[k].push_sequence(text);
            assert(text@ + shown_alternatives(models, k + 1) =~= so_far + shown_alternatives(
                models,
                k as int,
            ));
            k += 1;
        }
        assert(text@ + shown_alternatives(models, k as int) =~= text@);
    }

    /// The text of the expression, with brackets only where expressions
    /// are grouped. An expression that was read is read back from its text.
    pub fn to_string(&self) -> (text: String)
        ensures
            text@ == shown(self@),
    {
        let mut text: String = String::new();
        match self {
            Regex::Alt(list) => {
                Regex::push_alternatives(list, &mut text);
                assert(self@->Alt_0 =~= models_of(list@));
            },
            _ => {
                self.push_sequence(&mut text);
            },
        }
        assert(text@ =~= shown(self@));
        text
    }
}

} // verus!
