//! The words that a regular expression matches, and that the automaton
//! built from it accepts exactly these.

use vstd::prelude::*;
use crate::nfa::NfaModel;
use crate::nfa::blocks::{accepts_at, lemma_run_inside};
use crate::nfa::convert::lemma_no_epsilon_closure;
use crate::nfa::run::lemma_outside;
use crate::nfa::words::{run_indices, tokens_at, lemma_run_indices};
use crate::regex::RegexModel;
use crate::regex::thompson::{
    part_wf,
    part_empty,
    part_zero,
    part_literal,
    part_star,
    part_of,
    part_of_items,
    part_of_alternatives,
    place_of,
    with_symbols_of,
    with_symbols_of_list,
    symbols_of,
    nfa_of_part,
    symbol_tokens,
    thompson,
    lemma_concat_wf,
    lemma_alt_wf,
    lemma_star_wf,
};
use crate::regex::alt::lemma_alt_accepts;
use crate::regex::concat::{lemma_part_nfa, lemma_concat_accepts};
use crate::regex::star::{star_at, lemma_star_accepts};

verus! {

/// Distinct symbols are distinct as tokens.
pub proof fn lemma_symbol_tokens(symbols: Seq<char>)
    requires
        symbols.no_duplicates(),
    ensures
        symbol_tokens(symbols).no_duplicates(),
        symbol_tokens(symbols).len() == symbols.len(),
{
    let tokens = symbol_tokens(symbols);
    assert forall|i: int, j: int|
        0 <= i < tokens.len() && 0 <= j < tokens.len() && i != j implies tokens[i]
        != tokens[j] by {
        assert(tokens[i][0] == symbols[i]);
        assert(tokens[j][0] == symbols[j]);
    }
}

/// Whether the expression matches the word.
pub open spec fn matches(r: RegexModel, word: Seq<char>) -> bool
    decreases r, word.len(), 0nat,
{
    match r {
        RegexModel::Empty => word.len() == 0,
        RegexModel::Zero => false,
        RegexModel::Literal(c) => word == seq![c],
        RegexModel::Concat(list) => items_match(list, list.len() as int, word),
        RegexModel::Alt(list) => alternatives_match(list, list.len() as int, word),
        RegexModel::Star(inner) => star_matches(*inner, word),
        RegexModel::Plus(inner) => exists|j: int|
            0 <= j <= word.len() && matches(*inner, #[trigger] word.take(j)) && star_matches(
                *inner,
                word.skip(j),
            ),
    }
}

/// Whether the word is made of words that the first `upto` expressions of
/// the list match, one after the other: the empty word where there is no
/// expression.
pub open spec fn items_match(list: Seq<RegexModel>, upto: int, word: Seq<char>) -> bool
    decreases list, upto, 0nat,
{
    if upto <= 0 || upto > list.len() {
        word.len() == 0
    } else if upto == 1 {
        matches(list[0], word)
    } else {
        exists|j: int|
            0 <= j <= word.len() && items_match(list, upto - 1, #[trigger] word.take(j))
                && matches(list[upto - 1], word.skip(j))
    }
}

/// Whether one of the first `upto` expressions of the list matches the
/// word.
pub open spec fn alternatives_match(list: Seq<RegexModel>, upto: int, word: Seq<char>) -> bool
    decreases list, upto, 0nat,
{
    if upto <= 0 || upto > list.len() {
        false
    } else if upto == 1 {
        matches(list[0], word)
    } else {
        alternatives_match(list, upto - 1, word) || matches(list[upto - 1], word)
    }
}

/// Whether the word is made of words that the expression matches, one
/// after the other, each of at least one symbol.
pub open spec fn star_matches(inner: RegexModel, word: Seq<char>) -> bool
    decreases inner, word.len(), 1nat,
{
    word.len() == 0 || exists|j: int|
        1 <= j <= word.len() && matches(inner, #[trigger] word.take(j)) && star_matches(
            inner,
            word.skip(j),
        )
}

/// The symbols at the positions of a word.
pub open spec fn chars_at(symbols: Seq<char>, word: Seq<int>) -> Seq<char> {
    word.map_values(|x: int| symbols[x])
}

/// Whether the positions are positions of symbols.
pub open spec fn over(symbols: Seq<char>, word: Seq<int>) -> bool {
    forall|i: int| 0 <= i < word.len() ==> 0 <= #[trigger] word[i] < symbols.len()
}

/// From no state, no state is reached.
pub proof fn lemma_run_indices_none(m: NfaModel, word: Seq<int>)
    ensures
        run_indices(m, Set::empty(), word) == Set::<int>::empty(),
    decreases word.len(),
{
    let none = Set::<int>::empty();
    if word.len() > 0 {
        assert(m.moved(none, word[0]) =~= none);
        assert(m.closure(none) =~= none);
        lemma_run_indices_none(m, word.drop_first());
    }
}

/// The part for the empty word accepts the empty word only.
pub proof fn lemma_empty_accepts(symbols: Seq<char>, word: Seq<int>)
    requires
        symbols.no_duplicates(),
        over(symbols, word),
    ensures
        part_wf(part_empty(symbols.len() as int), symbols.len() as int),
        accepts_at(nfa_of_part(part_empty(symbols.len() as int), symbol_tokens(symbols)), word) == (word.len()
            == 0),
{
    let p = part_empty(symbols.len() as int);
    let n = nfa_of_part(p, symbol_tokens(symbols));
    assert(part_wf(p, symbols.len() as int));
    lemma_symbol_tokens(symbols);
    lemma_part_nfa(p, symbol_tokens(symbols));
    assert(!n.has_epsilon_moves());
    lemma_no_epsilon_closure(n, set![0int]);
    if word.len() == 0 {
        assert(n.start().contains(0));
        assert(n.states[0].accepting);
    } else {
        let moved = n.moved(n.start(), word[0]);
        assert(moved =~= Set::<int>::empty()) by {
            assert forall|q: int| !moved.contains(q) by {
                if moved.contains(q) {
                    let from = choose|from: int|
                        0 <= from < n.states.len() && n.start().contains(from)
                            && n.states[from].transitions[word[0]].contains(q);
                    assert(n.states[0].transitions[word[0]].len() == 0);
                }
            }
        }
        lemma_no_epsilon_closure(n, moved);
        lemma_run_indices_none(n, word.drop_first());
        assert(!n.accepting_set(Set::<int>::empty()));
    }
}

/// The part that matches nothing accepts no word.
pub proof fn lemma_zero_accepts(symbols: Seq<char>, word: Seq<int>)
    requires
        symbols.no_duplicates(),
        over(symbols, word),
    ensures
        part_wf(part_zero(symbols.len() as int), symbols.len() as int),
        !accepts_at(nfa_of_part(part_zero(symbols.len() as int), symbol_tokens(symbols)), word),
{
    let p = part_zero(symbols.len() as int);
    let n = nfa_of_part(p, symbol_tokens(symbols));
    assert(part_wf(p, symbols.len() as int));
    lemma_symbol_tokens(symbols);
    lemma_part_nfa(p, symbol_tokens(symbols));
    lemma_run_inside(n, word);
}

/// What the part for a symbol does: it starts in its first state, the
/// symbol leads from there to the second state, which accepts, and no
/// other move is made.
pub proof fn lemma_literal_moves(symbols: Seq<char>, x: int, y: int)
    requires
        symbols.no_duplicates(),
        0 <= x < symbols.len(),
        0 <= y < symbols.len(),
    ensures
        part_wf(part_literal(symbols.len() as int, x), symbols.len() as int),
        nfa_of_part(part_literal(symbols.len() as int, x), symbol_tokens(symbols)).wf(),
        nfa_of_part(part_literal(symbols.len() as int, x), symbol_tokens(symbols)).start() == set![0int],
        nfa_of_part(part_literal(symbols.len() as int, x), symbol_tokens(symbols)).closure(
            nfa_of_part(part_literal(symbols.len() as int, x), symbol_tokens(symbols)).moved(set![0int], y),
        ) == (if y == x {
            set![1int]
        } else {
            Set::<int>::empty()
        }),
        nfa_of_part(part_literal(symbols.len() as int, x), symbol_tokens(symbols)).closure(
            nfa_of_part(part_literal(symbols.len() as int, x), symbol_tokens(symbols)).moved(set![1int], y),
        ) == Set::<int>::empty(),
        !nfa_of_part(part_literal(symbols.len() as int, x), symbol_tokens(symbols)).accepting_set(set![0int]),
        nfa_of_part(part_literal(symbols.len() as int, x), symbol_tokens(symbols)).accepting_set(set![1int]),
        !nfa_of_part(part_literal(symbols.len() as int, x), symbol_tokens(symbols)).accepting_set(
            Set::<int>::empty(),
        ),
{
    let count = symbols.len() as int;
    let p = part_literal(count, x);
    let n = nfa_of_part(p, symbol_tokens(symbols));
    let none = Set::<int>::empty();
    assert(part_wf(p, count)) by {
        assert forall|q: int, z: int, k: int|
            0 <= q < p.states.len() && 0 <= z < count && 0 <= k
                < p.states[q].moves[z].len() implies 0 <= #[trigger] p.states[q].moves[z][k]
            < p.states.len() by {
            if q == 0 && z == x {
                assert(p.states[q].moves[z] == seq![1int]);
            }
        }
    }
    lemma_symbol_tokens(symbols);
    lemma_part_nfa(p, symbol_tokens(symbols));
    assert(!n.has_epsilon_moves());
    lemma_no_epsilon_closure(n, set![0int]);
    let first = n.moved(set![0int], y);
    let want = if y == x {
        set![1int]
    } else {
        none
    };
    assert(first =~= want) by {
        assert forall|q: int| first.contains(q) implies want.contains(q) by {
            let list = n.states[0].transitions[y];
            let k = choose|k: int| 0 <= k < list.len() && list[k] == q;
            if y == x {
                assert(list == seq![1int]);
            } else {
                assert(list.len() == 0);
            }
        }
        if y == x {
            assert(n.states[0].transitions[x] == seq![1int]);
            assert(seq![1int][0] == 1);
            assert(n.states[0].transitions[x].contains(1));
            assert(set![0int].contains(0));
        }
    }
    lemma_no_epsilon_closure(n, first);
    let second = n.moved(set![1int], y);
    assert(second =~= none) by {
        assert forall|q: int| !second.contains(q) by {
            assert(n.states[1].transitions[y].len() == 0);
        }
    }
    lemma_no_epsilon_closure(n, second);
    assert(set![1int].contains(1));
    assert(n.states[1].accepting);
}

/// The part for a symbol accepts the word of that symbol only.
pub proof fn lemma_literal_accepts(symbols: Seq<char>, x: int, word: Seq<int>)
    requires
        symbols.no_duplicates(),
        0 <= x < symbols.len(),
        over(symbols, word),
    ensures
        part_wf(part_literal(symbols.len() as int, x), symbols.len() as int),
        accepts_at(nfa_of_part(part_literal(symbols.len() as int, x), symbol_tokens(symbols)), word) == (word
            == seq![x]),
{
    let n = nfa_of_part(part_literal(symbols.len() as int, x), symbol_tokens(symbols));
    let none = Set::<int>::empty();
    lemma_literal_moves(symbols, x, x);
    assert(seq![x].len() == 1);
    assert(seq![x][0] == x);
    let end = run_indices(n, n.start(), word);
    if word.len() == 0 {
        assert(end == set![0int]);
    } else {
        lemma_literal_moves(symbols, x, word[0]);
        let rest = word.drop_first();
        let after = n.closure(n.moved(set![0int], word[0]));
        assert(end == run_indices(n, after, rest));
        if word[0] != x {
            lemma_run_indices_none(n, rest);
            assert(end == none);
        } else if rest.len() == 0 {
            assert(word =~= seq![x]);
            assert(end == set![1int]);
        } else {
            assert(rest[0] == word[1]);
            assert(0 <= rest[0] < symbols.len());
            lemma_literal_moves(symbols, x, rest[0]);
            let last = n.closure(n.moved(set![1int], rest[0]));
            assert(run_indices(n, after, rest) == run_indices(n, last, rest.drop_first()));
            lemma_run_indices_none(n, rest.drop_first());
            assert(end == none);
            assert(word.len() >= 2);
        }
    }
}

/// The place of a symbol among the symbols is its only place.
pub proof fn lemma_place_of(symbols: Seq<char>, c: char, from: int)
    requires
        0 <= from <= symbols.len(),
    ensures
        from <= place_of(symbols, c, from) <= symbols.len(),
        place_of(symbols, c, from) < symbols.len() ==> symbols[place_of(symbols, c, from)] == c,
        forall|i: int| from <= i < place_of(symbols, c, from) ==> symbols[i] != c,
    decreases symbols.len() - from,
{
    if from < symbols.len() && symbols[from] != c {
        lemma_place_of(symbols, c, from + 1);
    }
}

/// The part for an expression is well formed.
pub proof fn lemma_part_of_wf(r: RegexModel, symbols: Seq<char>)
    ensures
        part_wf(part_of(r, symbols), symbols.len() as int),
    decreases r, 0nat,
{
    let count = symbols.len() as int;
    match r {
        RegexModel::Empty => {
            assert(part_wf(part_empty(count), count));
        },
        RegexModel::Zero => {
            assert(part_wf(part_zero(count), count));
        },
        RegexModel::Literal(c) => {
            let x = place_of(symbols, c, 0);
            lemma_place_of(symbols, c, 0);
            if x < count {
                let p = part_literal(count, x);
                assert forall|q: int, y: int, k: int|
                    0 <= q < p.states.len() && 0 <= y < count && 0 <= k
                        < p.states[q].moves[y].len() implies 0
                    <= #[trigger] p.states[q].moves[y][k] < p.states.len() by {
                    if q == 0 && y == x {
                        assert(p.states[q].moves[y] == seq![1int]);
                    }
                }
            } else {
                assert(part_wf(part_zero(count), count));
            }
        },
        RegexModel::Concat(list) => {
            lemma_items_wf(list, symbols, list.len() as int);
        },
        RegexModel::Alt(list) => {
            lemma_alternatives_wf(list, symbols, list.len() as int);
        },
        RegexModel::Star(inner) => {
            lemma_part_of_wf(*inner, symbols);
            lemma_star_wf(part_of(*inner, symbols), count);
        },
        RegexModel::Plus(inner) => {
            lemma_part_of_wf(*inner, symbols);
            lemma_star_wf(part_of(*inner, symbols), count);
            lemma_concat_wf(
                part_of(*inner, symbols),
                part_star(part_of(*inner, symbols), count),
                count,
            );
        },
    }
}

/// The part for a list of expressions, one after the other, is well
/// formed.
pub proof fn lemma_items_wf(list: Seq<RegexModel>, symbols: Seq<char>, upto: int)
    ensures
        part_wf(part_of_items(list, symbols, upto), symbols.len() as int),
    decreases list, upto,
{
    let count = symbols.len() as int;
    if upto <= 0 || upto > list.len() {
        assert(part_wf(part_empty(count), count));
    } else if upto == 1 {
        lemma_part_of_wf(list[0], symbols);
    } else {
        lemma_items_wf(list, symbols, upto - 1);
        lemma_part_of_wf(list[upto - 1], symbols);
        lemma_concat_wf(
            part_of_items(list, symbols, upto - 1),
            part_of(list[upto - 1], symbols),
            count,
        );
    }
}

/// The part for one of a list of expressions is well formed.
pub proof fn lemma_alternatives_wf(list: Seq<RegexModel>, symbols: Seq<char>, upto: int)
    ensures
        part_wf(part_of_alternatives(list, symbols, upto), symbols.len() as int),
    decreases list, upto,
{
    let count = symbols.len() as int;
    if upto <= 0 || upto > list.len() {
        assert(part_wf(part_zero(count), count));
    } else if upto == 1 {
        lemma_part_of_wf(list[0], symbols);
    } else {
        lemma_alternatives_wf(list, symbols, upto - 1);
        lemma_part_of_wf(list[upto - 1], symbols);
        lemma_alt_wf(
            part_of_alternatives(list, symbols, upto - 1),
            part_of(list[upto - 1], symbols),
            count,
        );
    }
}

/// The beginning and the end of a word over the symbols are words over the
/// symbols, and their symbols are the beginning and the end of its
/// symbols.
pub proof fn lemma_split(symbols: Seq<char>, word: Seq<int>, j: int)
    requires
        over(symbols, word),
        0 <= j <= word.len(),
    ensures
        over(symbols, word.take(j)),
        over(symbols, word.skip(j)),
        chars_at(symbols, word.take(j)) == chars_at(symbols, word).take(j),
        chars_at(symbols, word.skip(j)) == chars_at(symbols, word).skip(j),
{
    assert forall|i: int| 0 <= i < word.take(j).len() implies 0 <= #[trigger] word.take(j)[i]
        < symbols.len() by {
        assert(word.take(j)[i] == word[i]);
    }
    assert forall|i: int| 0 <= i < word.skip(j).len() implies 0 <= #[trigger] word.skip(j)[i]
        < symbols.len() by {
        assert(word.skip(j)[i] == word[i + j]);
    }
    assert(chars_at(symbols, word.take(j)) =~= chars_at(symbols, word).take(j));
    assert(chars_at(symbols, word.skip(j)) =~= chars_at(symbols, word).skip(j));
}

/// The automaton of the part for an expression accepts the words over the
/// symbols that the expression matches.
pub proof fn lemma_part_matches(r: RegexModel, symbols: Seq<char>, word: Seq<int>)
    requires
        symbols.no_duplicates(),
        over(symbols, word),
    ensures
        accepts_at(nfa_of_part(part_of(r, symbols), symbol_tokens(symbols)), word) == matches(
            r,
            chars_at(symbols, word),
        ),
    decreases r, word.len(), 0nat,
{
    let count = symbols.len() as int;
    let chars = chars_at(symbols, word);
    match r {
        RegexModel::Empty => {
            lemma_empty_accepts(symbols, word);
        },
        RegexModel::Zero => {
            lemma_zero_accepts(symbols, word);
        },
        RegexModel::Literal(c) => {
            let x = place_of(symbols, c, 0);
            lemma_place_of(symbols, c, 0);
            if x < count {
                lemma_literal_accepts(symbols, x, word);
                if word == seq![x] {
                    assert(chars =~= seq![c]);
                }
                if chars == seq![c] {
                    assert(seq![c].len() == 1);
                    assert(seq![c][0] == c);
                    assert(chars[0] == symbols[word[0]]);
                    assert(symbols[word[0]] == c);
                    assert(word =~= seq![x]);
                }
            } else {
                lemma_zero_accepts(symbols, word);
                if chars == seq![c] {
                    assert(seq![c].len() == 1);
                    assert(seq![c][0] == c);
                    assert(chars[0] == symbols[word[0]]);
                    assert(symbols[word[0]] == c);
                }
            }
        },
        RegexModel::Concat(list) => {
            lemma_items_matches(list, symbols, list.len() as int, word);
        },
        RegexModel::Alt(list) => {
            lemma_alternatives_matches(list, symbols, list.len() as int, word);
        },
        RegexModel::Star(inner) => {
            lemma_part_of_wf(*inner, symbols);
            lemma_symbol_tokens(symbols);
            lemma_star_accepts(part_of(*inner, symbols), symbol_tokens(symbols), word);
            lemma_star_matches(*inner, symbols, word);
        },
        RegexModel::Plus(inner) => {
            let a = part_of(*inner, symbols);
            let s = part_star(a, count);
            lemma_part_of_wf(*inner, symbols);
            lemma_star_wf(a, count);
            lemma_symbol_tokens(symbols);
            lemma_concat_accepts(a, s, symbol_tokens(symbols), word);
            assert forall|j: int| 0 <= j <= word.len() implies (accepts_at(
                nfa_of_part(a, symbol_tokens(symbols)),
                #[trigger] word.take(j),
            ) && accepts_at(nfa_of_part(s, symbol_tokens(symbols)), word.skip(j))) == (matches(
                *inner,
                chars.take(j),
            ) && star_matches(*inner, chars.skip(j))) by {
                lemma_split(symbols, word, j);
                lemma_part_matches(*inner, symbols, word.take(j));
                lemma_star_accepts(a, symbol_tokens(symbols), word.skip(j));
                lemma_star_matches(*inner, symbols, word.skip(j));
            }
            if accepts_at(nfa_of_part(part_of(r, symbols), symbol_tokens(symbols)), word) {
                let j = choose|j: int|
                    0 <= j <= word.len() && accepts_at(
                        nfa_of_part(a, symbol_tokens(symbols)),
                        #[trigger] word.take(j),
                    ) && accepts_at(nfa_of_part(s, symbol_tokens(symbols)), word.skip(j));
                assert(matches(*inner, chars.take(j)));
            }
            if matches(r, chars) {
                let j = choose|j: int|
                    0 <= j <= chars.len() && matches(*inner, #[trigger] chars.take(j))
                        && star_matches(*inner, chars.skip(j));
                assert(accepts_at(nfa_of_part(a, symbol_tokens(symbols)), word.take(j)));
            }
        },
    }
}

/// The words made of accepted words are the words made of matched words.
pub proof fn lemma_star_matches(inner: RegexModel, symbols: Seq<char>, word: Seq<int>)
    requires
        symbols.no_duplicates(),
        over(symbols, word),
    ensures
        star_at(nfa_of_part(part_of(inner, symbols), symbol_tokens(symbols)), word) == star_matches(
            inner,
            chars_at(symbols, word),
        ),
    decreases inner, word.len(), 1nat,
{
    let n = nfa_of_part(part_of(inner, symbols), symbol_tokens(symbols));
    let chars = chars_at(symbols, word);
    if word.len() > 0 {
        assert forall|j: int| 1 <= j <= word.len() implies (accepts_at(n, #[trigger] word.take(j))
            && star_at(n, word.skip(j))) == (matches(inner, chars.take(j)) && star_matches(
            inner,
            chars.skip(j),
        )) by {
            lemma_split(symbols, word, j);
            lemma_part_matches(inner, symbols, word.take(j));
            lemma_star_matches(inner, symbols, word.skip(j));
        }
        if star_at(n, word) {
            let j = choose|j: int|
                1 <= j <= word.len() && accepts_at(n, #[trigger] word.take(j)) && star_at(
                    n,
                    word.skip(j),
                );
            assert(matches(inner, chars.take(j)));
        }
        if star_matches(inner, chars) {
            let j = choose|j: int|
                1 <= j <= chars.len() && matches(inner, #[trigger] chars.take(j)) && star_matches(
                    inner,
                    chars.skip(j),
                );
            assert(accepts_at(n, word.take(j)));
        }
    }
}

/// The part for the expressions of a list, one after the other, accepts
/// the words made of words that they match, one after the other.
pub proof fn lemma_items_matches(
    list: Seq<RegexModel>,
    symbols: Seq<char>,
    upto: int,
    word: Seq<int>,
)
    requires
        symbols.no_duplicates(),
        over(symbols, word),
    ensures
        accepts_at(nfa_of_part(part_of_items(list, symbols, upto), symbol_tokens(symbols)), word) == items_match(
            list,
            upto,
            chars_at(symbols, word),
        ),
    decreases list, upto, 0nat,
{
    let chars = chars_at(symbols, word);
    if upto <= 0 || upto > list.len() {
        lemma_empty_accepts(symbols, word);
    } else if upto == 1 {
        lemma_part_matches(list[0], symbols, word);
    } else {
        let a = part_of_items(list, symbols, upto - 1);
        let b = part_of(list[upto - 1], symbols);
        lemma_items_wf(list, symbols, upto - 1);
        lemma_part_of_wf(list[upto - 1], symbols);
        lemma_symbol_tokens(symbols);
        lemma_concat_accepts(a, b, symbol_tokens(symbols), word);
        assert forall|j: int| 0 <= j <= word.len() implies (accepts_at(
            nfa_of_part(a, symbol_tokens(symbols)),
            #[trigger] word.take(j),
        ) && accepts_at(nfa_of_part(b, symbol_tokens(symbols)), word.skip(j))) == (items_match(
            list,
            upto - 1,
            chars.take(j),
        ) && matches(list[upto - 1], chars.skip(j))) by {
            lemma_split(symbols, word, j);
            lemma_items_matches(list, symbols, upto - 1, word.take(j));
            lemma_part_matches(list[upto - 1], symbols, word.skip(j));
        }
        if accepts_at(nfa_of_part(part_of_items(list, symbols, upto), symbol_tokens(symbols)), word) {
            let j = choose|j: int|
                0 <= j <= word.len() && accepts_at(nfa_of_part(a, symbol_tokens(symbols)), #[trigger] word.take(j))
                    && accepts_at(nfa_of_part(b, symbol_tokens(symbols)), word.skip(j));
            assert(items_match(list, upto - 1, chars.take(j)));
        }
        if items_match(list, upto, chars) {
            let j = choose|j: int|
                0 <= j <= chars.len() && items_match(list, upto - 1, #[trigger] chars.take(j))
                    && matches(list[upto - 1], chars.skip(j));
            assert(accepts_at(nfa_of_part(a, symbol_tokens(symbols)), word.take(j)));
        }
    }
}

/// The part for one of the expressions of a list accepts the words that
/// one of them matches.
pub proof fn lemma_alternatives_matches(
    list: Seq<RegexModel>,
    symbols: Seq<char>,
    upto: int,
    word: Seq<int>,
)
    requires
        symbols.no_duplicates(),
        over(symbols, word),
    ensures
        accepts_at(nfa_of_part(part_of_alternatives(list, symbols, upto), symbol_tokens(symbols)), word)
            == alternatives_match(list, upto, chars_at(symbols, word)),
    decreases list, upto, 0nat,
{
    if upto <= 0 || upto > list.len() {
        lemma_zero_accepts(symbols, word);
    } else if upto == 1 {
        lemma_part_matches(list[0], symbols, word);
    } else {
        let a = part_of_alternatives(list, symbols, upto - 1);
        let b = part_of(list[upto - 1], symbols);
        lemma_alternatives_wf(list, symbols, upto - 1);
        lemma_part_of_wf(list[upto - 1], symbols);
        lemma_symbol_tokens(symbols);
        lemma_alt_accepts(a, b, symbol_tokens(symbols), word);
        lemma_alternatives_matches(list, symbols, upto - 1, word);
        lemma_part_matches(list[upto - 1], symbols, word);
    }
}

/// Whether the symbols of the expression are among `symbols`.
pub open spec fn symbols_in(r: RegexModel, symbols: Seq<char>) -> bool
    decreases r, 0nat,
{
    match r {
        RegexModel::Empty => true,
        RegexModel::Zero => true,
        RegexModel::Literal(c) => symbols.contains(c),
        RegexModel::Concat(list) => symbols_in_list(list, symbols, list.len() as int),
        RegexModel::Alt(list) => symbols_in_list(list, symbols, list.len() as int),
        RegexModel::Star(inner) => symbols_in(*inner, symbols),
        RegexModel::Plus(inner) => symbols_in(*inner, symbols),
    }
}

/// Whether the symbols of the first `upto` expressions of the list are
/// among `symbols`.
pub open spec fn symbols_in_list(list: Seq<RegexModel>, symbols: Seq<char>, upto: int) -> bool
    decreases list, upto,
{
    if upto <= 0 || upto > list.len() {
        true
    } else {
        symbols_in_list(list, symbols, upto - 1) && symbols_in(list[upto - 1], symbols)
    }
}

/// Whether every symbol of `few` is among `many`.
pub open spec fn among(few: Seq<char>, many: Seq<char>) -> bool {
    forall|i: int| 0 <= i < few.len() ==> many.contains(#[trigger] few[i])
}

/// Symbols that are among some symbols are among more symbols.
pub proof fn lemma_symbols_in_more(r: RegexModel, few: Seq<char>, many: Seq<char>)
    requires
        symbols_in(r, few),
        among(few, many),
    ensures
        symbols_in(r, many),
    decreases r, 0nat,
{
    match r {
        RegexModel::Literal(c) => {
            let i = choose|i: int| 0 <= i < few.len() && few[i] == c;
            assert(many.contains(few[i]));
        },
        RegexModel::Concat(list) => {
            lemma_symbols_in_list_more(list, few, many, list.len() as int);
        },
        RegexModel::Alt(list) => {
            lemma_symbols_in_list_more(list, few, many, list.len() as int);
        },
        RegexModel::Star(inner) => {
            lemma_symbols_in_more(*inner, few, many);
        },
        RegexModel::Plus(inner) => {
            lemma_symbols_in_more(*inner, few, many);
        },
        _ => {},
    }
}

/// Symbols of a list that are among some symbols are among more symbols.
pub proof fn lemma_symbols_in_list_more(
    list: Seq<RegexModel>,
    few: Seq<char>,
    many: Seq<char>,
    upto: int,
)
    requires
        symbols_in_list(list, few, upto),
        among(few, many),
    ensures
        symbols_in_list(list, many, upto),
    decreases list, upto,
{
    if 0 < upto <= list.len() {
        lemma_symbols_in_list_more(list, few, many, upto - 1);
        lemma_symbols_in_more(list[upto - 1], few, many);
    }
}

/// The symbols that were gathered hold no symbol twice, hold the symbols
/// that were there before, and hold the symbols of the expression.
pub proof fn lemma_gathered(r: RegexModel, symbols: Seq<char>)
    requires
        symbols.no_duplicates(),
    ensures
        with_symbols_of(r, symbols).no_duplicates(),
        among(symbols, with_symbols_of(r, symbols)),
        symbols_in(r, with_symbols_of(r, symbols)),
    decreases r, 0nat,
{
    let after = with_symbols_of(r, symbols);
    match r {
        RegexModel::Literal(c) => {
            lemma_place_of(symbols, c, 0);
            if place_of(symbols, c, 0) < symbols.len() {
                assert(symbols.contains(c));
                assert forall|i: int| 0 <= i < symbols.len() implies after.contains(
                    #[trigger] symbols[i],
                ) by {}
            } else {
                assert(after == symbols.push(c));
                assert(after[symbols.len() as int] == c);
                assert forall|i: int| 0 <= i < symbols.len() implies after.contains(
                    #[trigger] symbols[i],
                ) by {
                    assert(after[i] == symbols[i]);
                }
                assert forall|i: int, j: int|
                    0 <= i < after.len() && 0 <= j < after.len() && i != j implies after[i]
                    != after[j] by {}
            }
        },
        RegexModel::Concat(list) => {
            lemma_gathered_list(list, symbols, list.len() as int);
        },
        RegexModel::Alt(list) => {
            lemma_gathered_list(list, symbols, list.len() as int);
        },
        RegexModel::Star(inner) => {
            lemma_gathered(*inner, symbols);
        },
        RegexModel::Plus(inner) => {
            lemma_gathered(*inner, symbols);
        },
        _ => {
            assert forall|i: int| 0 <= i < symbols.len() implies after.contains(
                #[trigger] symbols[i],
            ) by {}
        },
    }
}

/// The symbols that were gathered from a list hold no symbol twice, hold
/// the symbols that were there before, and hold the symbols of the list.
pub proof fn lemma_gathered_list(list: Seq<RegexModel>, symbols: Seq<char>, upto: int)
    requires
        symbols.no_duplicates(),
    ensures
        with_symbols_of_list(list, symbols, upto).no_duplicates(),
        among(symbols, with_symbols_of_list(list, symbols, upto)),
        symbols_in_list(list, with_symbols_of_list(list, symbols, upto), upto),
    decreases list, upto,
{
    let after = with_symbols_of_list(list, symbols, upto);
    if 0 < upto <= list.len() {
        let before = with_symbols_of_list(list, symbols, upto - 1);
        lemma_gathered_list(list, symbols, upto - 1);
        lemma_gathered(list[upto - 1], before);
        lemma_symbols_in_list_more(list, before, after, upto - 1);
        assert forall|i: int| 0 <= i < symbols.len() implies after.contains(
            #[trigger] symbols[i],
        ) by {
            assert(before.contains(symbols[i]));
            let k = choose|k: int| 0 <= k < before.len() && before[k] == symbols[i];
            assert(after.contains(before[k]));
        }
    } else {
        assert forall|i: int| 0 <= i < symbols.len() implies after.contains(
            #[trigger] symbols[i],
        ) by {}
    }
}

/// A word that the expression matches is made of symbols of the
/// expression.
pub proof fn lemma_matched_symbols(r: RegexModel, symbols: Seq<char>, word: Seq<char>)
    requires
        matches(r, word),
        symbols_in(r, symbols),
    ensures
        among(word, symbols),
    decreases r, word.len(), 0nat,
{
    match r {
        RegexModel::Literal(c) => {
            assert(seq![c].len() == 1);
            assert(seq![c][0] == c);
        },
        RegexModel::Concat(list) => {
            lemma_matched_items(list, symbols, list.len() as int, word);
        },
        RegexModel::Alt(list) => {
            lemma_matched_alternatives(list, symbols, list.len() as int, word);
        },
        RegexModel::Star(inner) => {
            lemma_matched_star(*inner, symbols, word);
        },
        RegexModel::Plus(inner) => {
            let j = choose|j: int|
                0 <= j <= word.len() && matches(*inner, #[trigger] word.take(j)) && star_matches(
                    *inner,
                    word.skip(j),
                );
            lemma_matched_symbols(*inner, symbols, word.take(j));
            lemma_matched_star(*inner, symbols, word.skip(j));
            lemma_joined(symbols, word, j);
        },
        _ => {},
    }
}

/// A word whose beginning and end are made of the symbols is made of the
/// symbols.
pub proof fn lemma_joined(symbols: Seq<char>, word: Seq<char>, j: int)
    requires
        0 <= j <= word.len(),
        among(word.take(j), symbols),
        among(word.skip(j), symbols),
    ensures
        among(word, symbols),
{
    assert forall|i: int| 0 <= i < word.len() implies symbols.contains(#[trigger] word[i]) by {
        if i < j {
            assert(word.take(j)[i] == word[i]);
        } else {
            assert(word.skip(j)[i - j] == word[i]);
        }
    }
}

/// A word made of matched words is made of symbols of the expression.
pub proof fn lemma_matched_star(inner: RegexModel, symbols: Seq<char>, word: Seq<char>)
    requires
        star_matches(inner, word),
        symbols_in(inner, symbols),
    ensures
        among(word, symbols),
    decreases inner, word.len(), 1nat,
{
    if word.len() > 0 {
        let j = choose|j: int|
            1 <= j <= word.len() && matches(inner, #[trigger] word.take(j)) && star_matches(
                inner,
                word.skip(j),
            );
        lemma_matched_symbols(inner, symbols, word.take(j));
        lemma_matched_star(inner, symbols, word.skip(j));
        lemma_joined(symbols, word, j);
    }
}

/// A word that the expressions of a list match one after the other is made
/// of their symbols.
pub proof fn lemma_matched_items(
    list: Seq<RegexModel>,
    symbols: Seq<char>,
    upto: int,
    word: Seq<char>,
)
    requires
        items_match(list, upto, word),
        symbols_in_list(list, symbols, upto),
    ensures
        among(word, symbols),
    decreases list, upto, 0nat,
{
    if upto <= 0 || upto > list.len() {
    } else if upto == 1 {
        lemma_matched_symbols(list[0], symbols, word);
    } else {
        let j = choose|j: int|
            0 <= j <= word.len() && items_match(list, upto - 1, #[trigger] word.take(j))
                && matches(list[upto - 1], word.skip(j));
        lemma_matched_items(list, symbols, upto - 1, word.take(j));
        lemma_matched_symbols(list[upto - 1], symbols, word.skip(j));
        lemma_joined(symbols, word, j);
    }
}

/// A word that one of the expressions of a list matches is made of their
/// symbols.
pub proof fn lemma_matched_alternatives(
    list: Seq<RegexModel>,
    symbols: Seq<char>,
    upto: int,
    word: Seq<char>,
)
    requires
        alternatives_match(list, upto, word),
        symbols_in_list(list, symbols, upto),
    ensures
        among(word, symbols),
    decreases list, upto, 0nat,
{
    if upto <= 0 || upto > list.len() {
    } else if upto == 1 {
        lemma_matched_symbols(list[0], symbols, word);
    } else if alternatives_match(list, upto - 1, word) {
        lemma_matched_alternatives(list, symbols, upto - 1, word);
    } else {
        lemma_matched_symbols(list[upto - 1], symbols, word);
    }
}

/// The word of tokens of one character each that a word of characters is.
pub open spec fn as_tokens(word: Seq<char>) -> Seq<Seq<char>> {
    word.map_values(|c: char| seq![c])
}

/// The automaton for an expression accepts exactly the words that the
/// expression matches, each symbol taken as a token.
pub proof fn law_thompson(r: RegexModel, word: Seq<char>)
    ensures
        thompson(r).wf(),
        thompson(r).accepts(as_tokens(word)) == matches(r, word),
{
    let symbols = symbols_of(r);
    let n = thompson(r);
    let tokens = as_tokens(word);
    lemma_gathered(r, Seq::empty());
    lemma_part_of_wf(r, symbols);
    lemma_symbol_tokens(symbols);
    lemma_part_nfa(part_of(r, symbols), symbol_tokens(symbols));
    if among(word, symbols) {
        let places = word.map_values(|c: char| place_of(symbols, c, 0));
        assert(over(symbols, places) && chars_at(symbols, places) =~= word) by {
            assert forall|i: int| 0 <= i < word.len() implies 0 <= #[trigger] places[i]
                < symbols.len() && symbols[places[i]] == word[i] by {
                lemma_place_of(symbols, word[i], 0);
                assert(symbols.contains(word[i]));
                let k = choose|k: int| 0 <= k < symbols.len() && symbols[k] == word[i];
            }
        }
        assert(tokens_at(n, places) =~= tokens);
        lemma_run_indices(n, n.start(), places);
        lemma_part_matches(r, symbols, places);
    } else {
        if matches(r, word) {
            lemma_matched_symbols(r, symbols, word);
        }
        let i = choose|i: int| 0 <= i < word.len() && !symbols.contains(#[trigger] word[i]);
        assert(!n.alphabet.contains(tokens[i])) by {
            if n.alphabet.contains(tokens[i]) {
                let k = choose|k: int| 0 <= k < n.alphabet.len() && n.alphabet[k] == tokens[i];
                assert(n.alphabet[k][0] == symbols[k]);
                assert(tokens[i][0] == word[i]);
            }
        }
        lemma_outside(n, n.start(), tokens, i);
        assert(!n.accepting_set(Set::<int>::empty()));
    }
}

} // verus!
