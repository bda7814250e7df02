//! A regular expression that was read is read back from its text.

use vstd::prelude::*;
use crate::error::ErrorModel;
use crate::regex::{
    RegexModel,
    Parsed,
    ParsedList,
    is_sign,
    with_repeats,
    read_atom,
    read_repeated,
    read_items,
    read_sequence,
    read_alternatives,
    read_alternation,
    regex_of,
    shown_atom,
    shown_repeated,
    shown_items,
    shown_sequence,
    shown_alternatives,
    shown,
};

verus! {

/// The expressions that are read where an expression can be repeated: a
/// symbol, a sign, or a group, which is a list of at least one expression
/// or of at least two alternatives.
pub open spec fn normal_atom(r: RegexModel) -> bool
    decreases r, 0nat,
{
    match r {
        RegexModel::Empty => true,
        RegexModel::Zero => true,
        RegexModel::Literal(c) => !is_sign(c),
        RegexModel::Concat(list) => list.len() >= 1 && normal_items(list, 0),
        RegexModel::Alt(list) => list.len() >= 2 && normal_alternatives(list, 0),
        RegexModel::Star(_) => false,
        RegexModel::Plus(_) => false,
    }
}

/// The expressions that are read with their stars and crosses.
pub open spec fn normal_repeated(r: RegexModel) -> bool
    decreases r, 1nat,
{
    match r {
        RegexModel::Star(inner) => normal_repeated(*inner),
        RegexModel::Plus(inner) => normal_repeated(*inner),
        _ => normal_atom(r),
    }
}

/// Whether the expressions from `from` on are such as are read one after
/// the other.
pub open spec fn normal_items(list: Seq<RegexModel>, from: int) -> bool
    decreases list, list.len() - from,
{
    if from < 0 || from >= list.len() {
        true
    } else {
        normal_repeated(list[from]) && normal_items(list, from + 1)
    }
}

/// The expressions that are read as sequences: the empty word, or a list
/// of at least one expression.
pub open spec fn normal_sequence(r: RegexModel) -> bool
    decreases r, 2nat,
{
    match r {
        RegexModel::Empty => true,
        RegexModel::Concat(list) => list.len() >= 1 && normal_items(list, 0),
        _ => false,
    }
}

/// Whether the expressions from `from` on are such as are read between
/// bars.
pub open spec fn normal_alternatives(list: Seq<RegexModel>, from: int) -> bool
    decreases list, list.len() - from,
{
    if from < 0 || from >= list.len() {
        true
    } else {
        normal_sequence(list[from]) && normal_alternatives(list, from + 1)
    }
}

/// The expressions that are read: a sequence, or at least two sequences
/// between bars.
pub open spec fn normal(r: RegexModel) -> bool {
    match r {
        RegexModel::Alt(list) => list.len() >= 2 && normal_alternatives(list, 0),
        _ => normal_sequence(r),
    }
}

/// Whether a text ends a sequence: it is empty, or begins with a bar or a
/// closing bracket.
pub open spec fn ends_sequence(t: Seq<char>) -> bool {
    t.len() == 0 || t[0] == '|' || t[0] == ')'
}

/// Whether a text ends a list of alternatives: it is empty, or begins
/// with a closing bracket.
pub open spec fn ends_alternation(t: Seq<char>) -> bool {
    t.len() == 0 || t[0] == ')'
}

/// Whether a text goes on with a star or a cross.
pub open spec fn repeats_more(t: Seq<char>) -> bool {
    t.len() > 0 && (t[0] == '*' || t[0] == '+')
}

/// The text of an expression with its stars and crosses begins with a
/// bracket, a symbol or a sign for an expression.
pub proof fn lemma_first_char(r: RegexModel)
    requires
        normal_repeated(r),
    ensures
        shown_repeated(r).len() > 0,
        shown_repeated(r)[0] != '|',
        shown_repeated(r)[0] != ')',
        shown_repeated(r)[0] != '*',
        shown_repeated(r)[0] != '+',
    decreases r,
{
    match r {
        RegexModel::Star(inner) => {
            lemma_first_char(*inner);
            assert(shown_repeated(r)[0] == shown_repeated(*inner)[0]);
            assert(shown_repeated(r)[0] != '|');
        },
        RegexModel::Plus(inner) => {
            lemma_first_char(*inner);
            assert(shown_repeated(r)[0] == shown_repeated(*inner)[0]);
            assert(shown_repeated(r)[0] != '|');
        },
        RegexModel::Concat(list) => {
            assert(shown_atom(r)[0] == '(');
            assert(shown_repeated(r)[0] != '|');
        },
        RegexModel::Alt(list) => {
            assert(shown_atom(r)[0] == '(');
            assert(shown_repeated(r)[0] != '|');
        },
        RegexModel::Literal(c) => {
            assert(shown_atom(r)[0] == c);
            assert(normal_atom(r));
            assert(!is_sign(c));
            assert(shown_repeated(r)[0] != '|');
        },
        RegexModel::Empty => {
            assert(shown_atom(r)[0] == '\u{3b5}');
        },
        RegexModel::Zero => {
            assert(shown_atom(r)[0] == '\u{2205}');
        },
    }
}

/// An expression that can be repeated is read back from its text.
pub proof fn lemma_atom_back(r: RegexModel, rest: Seq<char>)
    requires
        normal_atom(r),
    ensures
        read_atom(shown_atom(r) + rest) == Ok::<Parsed, int>(Parsed { regex: r, rest }),
    decreases r, 0nat,
{
    let t = shown_atom(r) + rest;
    match r {
        RegexModel::Empty => {
            assert(t[0] == '\u{3b5}');
            assert(t.drop_first() =~= rest);
        },
        RegexModel::Zero => {
            assert(t[0] == '\u{2205}');
            assert(t.drop_first() =~= rest);
        },
        RegexModel::Literal(c) => {
            assert(t[0] == c);
            assert(t.drop_first() =~= rest);
        },
        RegexModel::Concat(list) => {
            let inner = shown_items(list, 0);
            let tail = seq![')'] + rest;
            assert(t[0] == '(');
            assert(t.drop_first() =~= inner + tail);
            assert(tail[0] == ')');
            lemma_items_back(list, 0, tail);
            assert(list.skip(0) =~= list);
            assert(tail.drop_first() =~= rest);
        },
        RegexModel::Alt(list) => {
            let inner = shown_alternatives(list, 0);
            let tail = seq![')'] + rest;
            assert(t[0] == '(');
            assert(t.drop_first() =~= inner + tail);
            assert(tail[0] == ')');
            let more = shown_alternatives(list, 1) + tail;
            lemma_alternatives_back(list, 1, tail);
            lemma_sequence_back(list[0], more);
            assert(inner + tail =~= shown_sequence(list[0]) + more);
            assert(seq![list[0]] + list.skip(1) =~= list);
            assert(list.skip(1).len() > 0);
            assert(tail.drop_first() =~= rest);
        },
        _ => {},
    }
}

/// An expression that is read back with whatever stars and crosses follow
/// its text.
pub proof fn lemma_repeated_back(r: RegexModel, rest: Seq<char>)
    requires
        normal_repeated(r),
    ensures
        read_repeated(shown_repeated(r) + rest) == Ok::<Parsed, int>(with_repeats(r, rest)),
    decreases r, 1nat,
{
    match r {
        RegexModel::Star(inner) => {
            let tail = seq!['*'] + rest;
            lemma_repeated_back(*inner, tail);
            assert(shown_repeated(r) + rest =~= shown_repeated(*inner) + tail);
            assert(tail[0] == '*');
            assert(tail.drop_first() =~= rest);
        },
        RegexModel::Plus(inner) => {
            let tail = seq!['+'] + rest;
            lemma_repeated_back(*inner, tail);
            assert(shown_repeated(r) + rest =~= shown_repeated(*inner) + tail);
            assert(tail[0] == '+');
            assert(tail.drop_first() =~= rest);
        },
        _ => {
            lemma_atom_back(r, rest);
        },
    }
}

/// The expressions of a list are read back from their texts.
pub proof fn lemma_items_back(list: Seq<RegexModel>, from: int, rest: Seq<char>)
    requires
        0 <= from <= list.len(),
        normal_items(list, from),
        ends_sequence(rest),
    ensures
        read_items(shown_items(list, from) + rest) == Ok::<ParsedList, int>(
            ParsedList { items: list.skip(from), rest },
        ),
        read_sequence(shown_items(list, from) + rest) == Ok::<Parsed, int>(
            Parsed {
                regex: if from < list.len() {
                    RegexModel::Concat(list.skip(from))
                } else {
                    RegexModel::Empty
                },
                rest,
            },
        ),
        !repeats_more(shown_items(list, from) + rest),
    decreases list, list.len() - from,
{
    let t = shown_items(list, from) + rest;
    if from < list.len() {
        let first = shown_repeated(list[from]);
        let more = shown_items(list, from + 1) + rest;
        lemma_first_char(list[from]);
        lemma_items_back(list, from + 1, rest);
        lemma_repeated_back(list[from], more);
        assert(t =~= first + more);
        assert(t[0] == first[0]);
        assert(list.skip(from) =~= seq![list[from]] + list.skip(from + 1));
    } else {
        assert(t =~= rest);
        assert(list.skip(from) =~= Seq::<RegexModel>::empty());
    }
}

/// A sequence is read back from its text.
pub proof fn lemma_sequence_back(r: RegexModel, rest: Seq<char>)
    requires
        normal_sequence(r),
        ends_sequence(rest),
    ensures
        read_sequence(shown_sequence(r) + rest) == Ok::<Parsed, int>(Parsed { regex: r, rest }),
    decreases r, 2nat,
{
    match r {
        RegexModel::Empty => {
            assert(shown_sequence(r) + rest =~= rest);
        },
        RegexModel::Concat(list) => {
            lemma_items_back(list, 0, rest);
            assert(list.skip(0) =~= list);
        },
        _ => {},
    }
}

/// The alternatives of a list are read back from their texts.
pub proof fn lemma_alternatives_back(list: Seq<RegexModel>, from: int, rest: Seq<char>)
    requires
        1 <= from <= list.len(),
        normal_alternatives(list, from),
        ends_alternation(rest),
    ensures
        read_alternatives(shown_alternatives(list, from) + rest) == Ok::<ParsedList, int>(
            ParsedList { items: list.skip(from), rest },
        ),
        ends_sequence(shown_alternatives(list, from) + rest),
    decreases list, list.len() - from,
{
    let t = shown_alternatives(list, from) + rest;
    if from < list.len() {
        let more = shown_alternatives(list, from + 1) + rest;
        lemma_alternatives_back(list, from + 1, rest);
        lemma_sequence_back(list[from], more);
        assert(t =~= seq!['|'] + (shown_sequence(list[from]) + more));
        assert(t[0] == '|');
        assert(t.drop_first() =~= shown_sequence(list[from]) + more);
        assert(list.skip(from) =~= seq![list[from]] + list.skip(from + 1));
    } else {
        assert(t =~= rest);
        assert(list.skip(from) =~= Seq::<RegexModel>::empty());
    }
}

/// An expression is read back from its text.
pub proof fn lemma_alternation_back(r: RegexModel, rest: Seq<char>)
    requires
        normal(r),
        ends_alternation(rest),
    ensures
        read_alternation(shown(r) + rest) == Ok::<Parsed, int>(Parsed { regex: r, rest }),
    decreases r, 3nat,
{
    match r {
        RegexModel::Alt(list) => {
            let more = shown_alternatives(list, 1) + rest;
            lemma_alternatives_back(list, 1, rest);
            lemma_sequence_back(list[0], more);
            assert(shown(r) + rest =~= shown_sequence(list[0]) + more);
            assert(seq![list[0]] + list.skip(1) =~= list);
            assert(list.skip(1).len() > 0);
        },
        _ => {
            lemma_sequence_back(r, rest);
        },
    }
}

/// Stars and crosses behind an expression give an expression that is read
/// with its stars and crosses.
pub proof fn lemma_repeats_normal(inner: RegexModel, t: Seq<char>)
    requires
        normal_repeated(inner),
    ensures
        normal_repeated(with_repeats(inner, t).regex),
        with_repeats(inner, t).rest.len() <= t.len(),
    decreases t.len(),
{
    if t.len() > 0 && t[0] == '*' {
        lemma_repeats_normal(RegexModel::Star(Box::new(inner)), t.drop_first());
    } else if t.len() > 0 && t[0] == '+' {
        lemma_repeats_normal(RegexModel::Plus(Box::new(inner)), t.drop_first());
    }
}

/// What is read where an expression can be repeated is such an
/// expression, and some text was read for it.
pub proof fn lemma_atom_normal(t: Seq<char>)
    ensures
        read_atom(t) matches Ok(p) ==> normal_atom(p.regex) && p.rest.len() < t.len(),
    decreases t.len(), 0nat,
{
    if t.len() > 0 && t[0] == '(' {
        lemma_alternation_normal(t.drop_first());
        if let Ok(inner) = read_alternation(t.drop_first()) {
            lemma_group(inner.regex);
        }
    }
}

/// What is read as an expression can stand in a group.
pub proof fn lemma_group(r: RegexModel)
    requires
        normal(r),
    ensures
        normal_atom(r),
{
}

/// What is read with stars and crosses is such an expression.
pub proof fn lemma_repeated_normal(t: Seq<char>)
    ensures
        read_repeated(t) matches Ok(p) ==> normal_repeated(p.regex) && p.rest.len() < t.len(),
    decreases t.len(), 1nat,
{
    lemma_atom_normal(t);
    if let Ok(atom) = read_atom(t) {
        lemma_repeats_normal(atom.regex, atom.rest);
    }
}

/// What is read one after the other are such expressions.
pub proof fn lemma_items_normal(t: Seq<char>)
    ensures
        read_items(t) matches Ok(p) ==> normal_items(p.items, 0) && p.rest.len() <= t.len(),
    decreases t.len(), 2nat,
{
    if !(t.len() == 0 || t[0] == '|' || t[0] == ')') {
        lemma_repeated_normal(t);
        if let Ok(first) = read_repeated(t) {
            lemma_items_normal(first.rest);
            if let Ok(more) = read_items(first.rest) {
                lemma_items_shift(first.regex, more.items, 0);
            }
        }
    }
}

/// A list with one more expression before it is one of such expressions.
pub proof fn lemma_items_shift(first: RegexModel, list: Seq<RegexModel>, from: int)
    requires
        0 <= from <= list.len(),
        normal_items(list, from),
    ensures
        normal_items(seq![first] + list, from + 1),
        from == 0 && normal_repeated(first) ==> normal_items(seq![first] + list, 0),
    decreases list.len() - from,
{
    let longer = seq![first] + list;
    if from < list.len() {
        lemma_items_shift(first, list, from + 1);
        assert(longer[from + 1] == list[from]);
    }
    if from == 0 {
        assert(longer[0] == first);
        assert(normal_items(longer, 0) == (normal_repeated(longer[0]) && normal_items(longer, 1)));
    }
}

/// A list with one more sequence before it is one of sequences.
pub proof fn lemma_alternatives_shift(first: RegexModel, list: Seq<RegexModel>, from: int)
    requires
        0 <= from <= list.len(),
        normal_alternatives(list, from),
    ensures
        normal_alternatives(seq![first] + list, from + 1),
        from == 0 && normal_sequence(first) ==> normal_alternatives(seq![first] + list, 0),
    decreases list.len() - from,
{
    let longer = seq![first] + list;
    if from < list.len() {
        lemma_alternatives_shift(first, list, from + 1);
        assert(longer[from + 1] == list[from]);
    }
    if from == 0 {
        assert(longer[0] == first);
        assert(normal_alternatives(longer, 0) == (normal_sequence(longer[0])
            && normal_alternatives(longer, 1)));
    }
}

/// What is read as a sequence is a sequence.
pub proof fn lemma_sequence_normal(t: Seq<char>)
    ensures
        read_sequence(t) matches Ok(p) ==> normal_sequence(p.regex) && p.rest.len() <= t.len(),
    decreases t.len(), 3nat,
{
    lemma_items_normal(t);
}

/// What is read between bars are sequences.
pub proof fn lemma_alternatives_normal(t: Seq<char>)
    ensures
        read_alternatives(t) matches Ok(p) ==> normal_alternatives(p.items, 0) && p.rest.len()
            <= t.len(),
    decreases t.len(), 4nat,
{
    if t.len() > 0 && t[0] == '|' {
        lemma_sequence_normal(t.drop_first());
        if let Ok(first) = read_sequence(t.drop_first()) {
            lemma_alternatives_normal(first.rest);
            if let Ok(more) = read_alternatives(first.rest) {
                lemma_alternatives_shift(first.regex, more.items, 0);
            }
        }
    }
}

/// What is read is an expression as it is read.
pub proof fn lemma_alternation_normal(t: Seq<char>)
    ensures
        read_alternation(t) matches Ok(p) ==> normal(p.regex) && p.rest.len() <= t.len(),
    decreases t.len(), 5nat,
{
    lemma_sequence_normal(t);
    if let Ok(first) = read_sequence(t) {
        lemma_alternatives_normal(first.rest);
        if let Ok(more) = read_alternatives(first.rest) {
            lemma_alternatives_shift(first.regex, more.items, 0);
        }
    }
}

/// The text of an expression that was read is read as the expression.
pub proof fn law_regex_round_trip(text: Seq<char>)
    ensures
        regex_of(text) matches Ok(r) ==> regex_of(shown(r)) == Ok::<RegexModel, ErrorModel>(r),
{
    lemma_alternation_normal(text);
    if let Ok(r) = regex_of(text) {
        lemma_alternation_back(r, Seq::empty());
        assert(shown(r) + Seq::<char>::empty() =~= shown(r));
    }
}

/// The text of an expression that was read is read as an expression whose
/// automaton accepts what the automaton of the expression accepts.
pub proof fn law_regex_display_round_trip(text: Seq<char>)
    ensures
        regex_of(text) matches Ok(r) ==> regex_of(shown(r)) matches Ok(back)
            && crate::regex::thompson::thompson(back).equivalent(crate::regex::thompson::thompson(r)),
{
    law_regex_round_trip(text);
}

} // verus!
