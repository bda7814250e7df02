//! Combining two deterministic automata: the automaton of the pairs of
//! their states, with the four combinations of their languages, and the
//! test whether two automata accept the same words.

use vstd::prelude::*;
use crate::alphabet::{
    tokens_of,
    symbol_position,
    lemma_symbol_position,
    find_symbol,
    clone_strings,
};
use crate::counting::{
    table_marks,
    flags_of,
    lemma_table_marks_bound,
    lemma_table_marks_none,
    clear_table,
    set_flag,
};
use crate::dfa::{Dfa, DfaModel, DfaState, DfaStateModel, dfa_model, lemma_run_in_range};
use crate::dfa::reach::lemma_run_one_more;
use crate::error::{Error, ErrorModel};

verus! {

/// Whether `big` is `small` over a larger alphabet: it has one state more,
/// which it never leaves and which does not accept, and to which every symbol
/// leads that `small` does not know.
pub open spec fn extends(big: DfaModel, small: DfaModel) -> bool {
    let n = small.states.len() as int;
    &&& big.states.len() == n + 1
    &&& big.initial == small.initial
    &&& forall|i: int|
        0 <= i < small.alphabet.len() ==> big.alphabet.contains(#[trigger] small.alphabet[i])
    &&& forall|q: int|
        0 <= q < n ==> (#[trigger] big.states[q]).accepting == small.states[q].accepting
    &&& !big.states[n].accepting
    &&& forall|u: int|
        0 <= u < big.alphabet.len() ==> #[trigger] big.states[n].transitions[u] == n
    &&& forall|q: int, u: int|
        0 <= q < n && 0 <= u < big.alphabet.len() ==> #[trigger] big.states[q].transitions[u]
            == (match symbol_position(small.alphabet, big.alphabet[u]) {
            Some(i) => small.states[q].transitions[i],
            None => n,
        })
}

/// No word leads out of a state that every symbol leads back to.
pub proof fn lemma_trap(m: DfaModel, trap: int, word: Seq<Seq<char>>)
    requires
        m.wf(),
        0 <= trap < m.states.len(),
        forall|u: int|
            0 <= u < m.alphabet.len() ==> #[trigger] m.states[trap].transitions[u] == trap,
    ensures
        m.run(trap, word) is None || m.run(trap, word) == Some(trap),
    decreases word.len(),
{
    if word.len() > 0 {
        if let Some(u) = symbol_position(m.alphabet, word[0]) {
            lemma_symbol_position(m.alphabet, word[0], u);
            lemma_trap(m, trap, word.drop_first());
        }
    }
}

/// An automaton over a larger alphabet accepts from each state what the
/// automaton that it extends accepts from it.
pub proof fn lemma_extends_accepts(big: DfaModel, small: DfaModel, q: int, word: Seq<Seq<char>>)
    requires
        big.wf(),
        small.wf(),
        extends(big, small),
        0 <= q < small.states.len(),
    ensures
        big.accepts_from(q, word) == small.accepts_from(q, word),
    decreases word.len(),
{
    if word.len() > 0 {
        let token = word[0];
        let rest = word.drop_first();
        let n = small.states.len() as int;
        match symbol_position(big.alphabet, token) {
            None => {
                if let Some(i) = symbol_position(small.alphabet, token) {
                    lemma_symbol_position(small.alphabet, token, i);
                    assert(big.alphabet.contains(small.alphabet[i]));
                }
            },
            Some(u) => {
                lemma_symbol_position(big.alphabet, token, u);
                match symbol_position(small.alphabet, token) {
                    Some(i) => {
                        lemma_symbol_position(small.alphabet, token, i);
                        assert(big.states[q].transitions[u] == small.states[q].transitions[i]);
                        lemma_extends_accepts(big, small, small.states[q].transitions[i], rest);
                    },
                    None => {
                        assert(big.states[q].transitions[u] == n);
                        lemma_trap(big, n, rest);
                    },
                }
            },
        }
    }
}

/// Where the smaller automaton knows every symbol of the larger alphabet,
/// no run of the larger automaton leaves the states of the smaller one.
pub proof fn lemma_extends_stays(big: DfaModel, small: DfaModel, q: int, word: Seq<Seq<char>>)
    requires
        big.wf(),
        small.wf(),
        extends(big, small),
        forall|u: int|
            0 <= u < big.alphabet.len() ==> small.alphabet.contains(#[trigger] big.alphabet[u]),
        0 <= q < small.states.len(),
    ensures
        big.run(q, word) matches Some(p) ==> 0 <= p < small.states.len(),
    decreases word.len(),
{
    if word.len() > 0 {
        if let Some(u) = symbol_position(big.alphabet, word[0]) {
            lemma_symbol_position(big.alphabet, word[0], u);
            assert(small.alphabet.contains(big.alphabet[u]));
            let i = symbol_position(small.alphabet, big.alphabet[u]).unwrap();
            lemma_symbol_position(small.alphabet, big.alphabet[u], i);
            assert(big.states[q].transitions[u] == small.states[q].transitions[i]);
            lemma_extends_stays(big, small, small.states[q].transitions[i], word.drop_first());
        }
    }
}

/// Whether state `k` of `p` is a pair of a state of `a` and a state of
/// `b`: it bears the names of the two in brackets, and its accepting flag
/// is the combination of theirs.
pub open spec fn is_pair_of(p: DfaModel, a: DfaModel, b: DfaModel, how: Combination, k: int)
    -> bool {
    exists|i: int, j: int|
        0 <= i < a.states.len() && 0 <= j < b.states.len() && #[trigger] pair_state(
            a.states[i],
            b.states[j],
            how,
            p.states[k],
        )
}

impl Dfa {
    /// The automaton over `alphabet`, which holds every symbol of this one:
    /// it accepts the same words.
    pub(crate) fn with_alphabet(&self, alphabet: &[String]) -> (big: Dfa)
        requires
            tokens_of(alphabet@).no_duplicates(),
            forall|i: int|
                0 <= i < self@.alphabet.len() ==> tokens_of(alphabet@).contains(
                    #[trigger] self@.alphabet[i],
                ),
        ensures
            big@.wf(),
            self@.wf(),
            big@.alphabet == tokens_of(alphabet@),
            extends(big@, self@),
            big@.equivalent(self@),
            forall|q: int|
                0 <= q < self@.states.len() ==> (#[trigger] big@.states[q]).name
                    == self@.states[q].name,
    {
        let count = self.state_count();
        let own = self.alphabet();
        let states = self.states();
        let ghost m = self@;
        let ghost symbols = tokens_of(alphabet@);
        let mut positions: Vec<Option<usize>> = Vec::new();
        let mut u: usize = 0;
        while u < alphabet.len()
            invariant
                m == self@,
                m.wf(),
                symbols == tokens_of(alphabet@),
                tokens_of(own@) == m.alphabet,
                u <= alphabet.len(),
                positions.len() == u,
                forall|v: int|
                    0 <= v < u ==> match #[trigger] positions[v] {
                        Some(i) => symbol_position(m.alphabet, symbols[v]) == Some(i as int) && i
                            < m.alphabet.len(),
                        None => symbol_position(m.alphabet, symbols[v]) is None,
                    },
            decreases alphabet.len() - u,
        {
            let found = find_symbol(own, &alphabet[u]);
            proof {
                assert(symbols[u as int] == alphabet[u as int]@);
                if let Some(i) = found {
                    lemma_symbol_position(m.alphabet, symbols[u as int], i as int);
                }
            }
            positions.push(found);
            u += 1;
        }
        let mut built: Vec<DfaState> = Vec::new();
        let mut q: usize = 0;
        while q < count
            invariant
                m == self@,
                m.wf(),
                count == m.states.len(),
                symbols == tokens_of(alphabet@),
                states@.map_values(|s: DfaState| s@) == m.states,
                positions.len() == alphabet.len(),
                forall|v: int|
                    0 <= v < positions.len() ==> match #[trigger] positions[v] {
                        Some(i) => symbol_position(m.alphabet, symbols[v]) == Some(i as int) && i
                            < m.alphabet.len(),
                        None => symbol_position(m.alphabet, symbols[v]) is None,
                    },
                q <= count,
                built.len() == q,
                forall|p: int|
                    0 <= p < q ==> {
                        &&& (#[trigger] built[p])@.accepting == m.states[p].accepting
                        &&& built[p]@.initial == m.states[p].initial
                        &&& built[p]@.name == m.states[p].name
                        &&& built[p]@.transitions.len() == symbols.len()
                        &&& forall|v: int|
                            0 <= v < symbols.len() ==> #[trigger] built[p]@.transitions[v]
                                == (match symbol_position(m.alphabet, symbols[v]) {
                                Some(i) => m.states[p].transitions[i],
                                None => count as int,
                            })
                    },
            decreases count - q,
        {
            let mut row: Vec<usize> = Vec::new();
            let mut v: usize = 0;
            while v < positions.len()
                invariant
                    m == self@,
                    m.wf(),
                    count == m.states.len(),
                    q < count,
                    positions.len() == alphabet.len(),
                    symbols.len() == alphabet.len(),
                    forall|v: int|
                        0 <= v < positions.len() ==> match #[trigger] positions[v] {
                            Some(i) => symbol_position(m.alphabet, symbols[v]) == Some(i as int)
                                && i < m.alphabet.len(),
                            None => symbol_position(m.alphabet, symbols[v]) is None,
                        },
                    v <= positions.len(),
                    row.len() == v,
                    forall|w: int|
                        0 <= w < v ==> #[trigger] row[w] == (match symbol_position(
                            m.alphabet,
                            symbols[w],
                        ) {
                            Some(i) => m.states[q as int].transitions[i],
                            None => count as int,
                        }),
                decreases positions.len() - v,
            {
                let target = match positions[v] {
                    Some(i) => self.target(q, i),
                    None => count,
                };
                row.push(target);
                v += 1;
            }
            assert(m.states[q as int] == states[q as int]@);
            let state = DfaState::from_parts(
                states[q].name().to_owned(),
                states[q].is_initial(),
                states[q].is_accepting(),
                row,
            );
            built.push(state);
            q += 1;
        }
        let mut trap_row: Vec<usize> = Vec::new();
        let mut v: usize = 0;
        while v < alphabet.len()
            invariant
                v <= alphabet.len(),
                trap_row.len() == v,
                forall|w: int| 0 <= w < v ==> #[trigger] trap_row[w] == count,
            decreases alphabet.len() - v,
        {
            trap_row.push(count);
            v += 1;
        }
        built.push(DfaState::from_parts(String::new(), false, false, trap_row));
        let initial = self.initial_state_index();
        let letters = clone_strings(alphabet);
        proof {
            let big = dfa_model(letters@, built@, initial);
            assert(big.alphabet == symbols);
            assert forall|p: int| 0 <= p < big.states.len() implies (#[trigger] big.states[p]).initial
                == (p == big.initial) by {
                assert(big.states[p] == built[p]@);
            }
            assert forall|p: int|
                0 <= p < big.states.len() implies (#[trigger] big.states[p]).transitions.len()
                == big.alphabet.len() by {
                assert(big.states[p] == built[p]@);
            }
            assert forall|p: int, x: int|
                0 <= p < big.states.len() && 0 <= x < big.alphabet.len() implies 0
                <= #[trigger] big.states[p].transitions[x] < big.states.len() by {
                assert(big.states[p] == built[p]@);
                if p < count {
                    if let Some(i) = symbol_position(m.alphabet, symbols[x]) {
                        lemma_symbol_position(m.alphabet, symbols[x], i);
                    }
                }
            }
            assert(big.wf());
            assert(extends(big, m)) by {
                assert forall|p: int| 0 <= p < count implies (#[trigger] big.states[p]).accepting
                    == m.states[p].accepting by {
                    assert(big.states[p] == built[p]@);
                }
                assert(big.states[count as int] == built[count as int]@);
                assert forall|p: int, x: int|
                    0 <= p < count && 0 <= x < big.alphabet.len() implies #[trigger] big.states[p].transitions[x]
                    == (match symbol_position(m.alphabet, big.alphabet[x]) {
                    Some(i) => m.states[p].transitions[i],
                    None => count as int,
                }) by {
                    assert(big.states[p] == built[p]@);
                }
            }
            assert forall|word: Seq<Seq<char>>| big.accepts(word) == m.accepts(word) by {
                lemma_extends_accepts(big, m, m.initial, word);
            }
            assert forall|p: int| 0 <= p < count implies (#[trigger] big.states[p]).name
                == m.states[p].name by {
                assert(big.states[p] == built[p]@);
            }
        }
        Dfa::from_parts(letters, built, initial)
    }
}

/// The ways to combine the languages of two automata.
#[derive(Clone, Copy, Debug, PartialEq, Eq, Structural)]
pub enum Combination {
    /// The words that one of the two accepts.
    Union,
    /// The words that both accept.
    Intersection,
    /// The words that the first accepts and the second does not.
    Difference,
    /// The words that exactly one of the two accepts.
    SymmetricDifference,
}

impl Combination {
    /// Whether the combination holds a word, given whether the first and
    /// the second language hold it.
    pub open spec fn combine(self, first: bool, second: bool) -> bool {
        match self {
            Combination::Union => first || second,
            Combination::Intersection => first && second,
            Combination::Difference => first && !second,
            Combination::SymmetricDifference => first != second,
        }
    }

    /// Whether the combination holds a word, given whether the first and
    /// the second language hold it.
    pub fn apply(self, first: bool, second: bool) -> (held: bool)
        ensures
            held == self.combine(first, second),
    {
        match self {
            Combination::Union => first || second,
            Combination::Intersection => first && second,
            Combination::Difference => first && !second,
            Combination::SymmetricDifference => first != second,
        }
    }
}

/// The name of the pair of two states.
pub open spec fn pair_name(first: Seq<char>, second: Seq<char>) -> Seq<char> {
    seq!['('] + first + seq![','] + second + seq![')']
}

/// Whether `p` is the automaton of the pairs `pairs` of states of `a` and
/// `b`: its initial state is the pair of theirs, and its transitions go
/// from pair to pair as theirs go from state to state.
pub open spec fn is_product(p: DfaModel, a: DfaModel, b: DfaModel, pairs: Seq<(int, int)>) -> bool {
    &&& p.alphabet == a.alphabet
    &&& a.alphabet == b.alphabet
    &&& pairs.len() == p.states.len()
    &&& pairs[p.initial] == (a.initial, b.initial)
    &&& forall|k: int|
        0 <= k < pairs.len() ==> 0 <= (#[trigger] pairs[k]).0 < a.states.len() && 0 <= pairs[k].1
            < b.states.len()
    &&& forall|k: int, x: int|
        0 <= k < pairs.len() && 0 <= x < p.alphabet.len()
            ==> pairs[#[trigger] p.states[k].transitions[x]] == (
            a.states[pairs[k].0].transitions[x],
            b.states[pairs[k].1].transitions[x],
        )
}

/// A run of the automaton of pairs is a run of each of the two automata.
pub proof fn lemma_product_run(
    p: DfaModel,
    a: DfaModel,
    b: DfaModel,
    pairs: Seq<(int, int)>,
    k: int,
    word: Seq<Seq<char>>,
)
    requires
        p.wf(),
        a.wf(),
        b.wf(),
        is_product(p, a, b, pairs),
        0 <= k < pairs.len(),
    ensures
        match p.run(k, word) {
            Some(end) => 0 <= end < pairs.len() && a.run(pairs[k].0, word) == Some(pairs[end].0)
                && b.run(pairs[k].1, word) == Some(pairs[end].1),
            None => a.run(pairs[k].0, word) is None && b.run(pairs[k].1, word) is None,
        },
    decreases word.len(),
{
    if word.len() > 0 {
        if let Some(x) = symbol_position(p.alphabet, word[0]) {
            lemma_symbol_position(p.alphabet, word[0], x);
            let next = p.states[k].transitions[x];
            assert(pairs[next] == (
                a.states[pairs[k].0].transitions[x],
                b.states[pairs[k].1].transitions[x],
            ));
            lemma_product_run(p, a, b, pairs, next, word.drop_first());
        }
    }
}

/// Whether the automaton `p` accepts the combination of what `a` and `b`
/// accept.
pub open spec fn accepts_combination(p: DfaModel, a: DfaModel, b: DfaModel, how: Combination)
    -> bool {
    forall|word: Seq<Seq<char>>|
        #[trigger] p.accepts(word) == how.combine(a.accepts(word), b.accepts(word))
}

/// Whether the two alphabets hold the same symbols, in whatever order.
pub open spec fn same_symbols(first: Seq<Seq<char>>, second: Seq<Seq<char>>) -> bool {
    &&& forall|i: int| 0 <= i < first.len() ==> second.contains(#[trigger] first[i])
    &&& forall|j: int| 0 <= j < second.len() ==> first.contains(#[trigger] second[j])
}

/// Whether every symbol of `first` is among `second`.
pub(crate) fn all_among(first: &[String], second: &[String]) -> (yes: bool)
    requires
        tokens_of(second@).no_duplicates(),
    ensures
        yes == (forall|i: int|
            0 <= i < first.len() ==> tokens_of(second@).contains(#[trigger] tokens_of(first@)[i])),
{
    let mut i: usize = 0;
    while i < first.len()
        invariant
            i <= first.len(),
            tokens_of(second@).no_duplicates(),
            forall|j: int|
                0 <= j < i ==> tokens_of(second@).contains(#[trigger] tokens_of(first@)[j]),
        decreases first.len() - i,
    {
        let found = find_symbol(second, &first[i]);
        assert(tokens_of(first@)[i as int] == first[i as int]@);
        if found.is_none() {
            return false;
        }
        proof {
            lemma_symbol_position(tokens_of(second@), first[i as int]@, found.unwrap() as int);
        }
        i += 1;
    }
    true
}

/// The name of the pair of two states.
pub(crate) fn name_pair(first: &str, second: &str) -> (name: String)
    ensures
        name@ == pair_name(first@, second@),
{
    proof {
        reveal_strlit("(");
        reveal_strlit(",");
        reveal_strlit(")");
    }
    let mut name: String = String::new();
    name.append("(");
    name.append(first);
    name.append(",");
    name.append(second);
    name.append(")");
    assert(name@ =~= pair_name(first@, second@));
    name
}

/// What the automaton of pairs holds of each pair: the name and the flags.
pub open spec fn pair_state(
    a: DfaStateModel,
    b: DfaStateModel,
    how: Combination,
    state: DfaStateModel,
) -> bool {
    &&& state.name == pair_name(a.name, b.name)
    &&& state.accepting == how.combine(a.accepting, b.accepting)
}

/// The automaton of the pairs of states that the pair of the initial states
/// reaches, for two automata over the same alphabet in the same order.
fn product(a: &Dfa, b: &Dfa, how: Combination) -> (made: (Dfa, Ghost<Seq<(int, int)>>))
    requires
        a@.alphabet == b@.alphabet,
    ensures
        made.0@.wf(),
        a@.wf(),
        b@.wf(),
        is_product(made.0@, a@, b@, made.1@),
        made.0@.initial == 0,
        forall|k: int|
            0 <= k < made.1@.len() ==> pair_state(
                a@.states[made.1@[k].0],
                b@.states[made.1@[k].1],
                how,
                #[trigger] made.0@.states[k],
            ),
        forall|k: int| 0 <= k < made.1@.len() ==> made.0@.reachable(k),
{
    let count_a = a.state_count();
    let count_b = b.state_count();
    let symbols = a.symbol_count();
    let same = b.symbol_count();
    let states_a = a.states();
    let states_b = b.states();
    let ghost ma = a@;
    let ghost mb = b@;
    let mut seen = clear_table(count_a, count_b);
    let mut index = Vec::<Vec<usize>>::new();
    let mut r: usize = 0;
    while r < count_a
        invariant
            r <= count_a,
            index.len() == r,
            forall|i: int| 0 <= i < r ==> (#[trigger] index[i]).len() == count_b,
            forall|i: int, j: int| 0 <= i < r && 0 <= j < count_b ==> #[trigger] index[i][j] == 0,
        decreases count_a - r,
    {
        let mut row: Vec<usize> = Vec::new();
        let mut c: usize = 0;
        while c < count_b
            invariant
                c <= count_b,
                row.len() == c,
                forall|j: int| 0 <= j < c ==> #[trigger] row[j] == 0,
            decreases count_b - c,
        {
            row.push(0);
            c += 1;
        }
        index.push(row);
        r += 1;
    }
    let initial_a = a.initial_state_index();
    let initial_b = b.initial_state_index();
    let mut pairs: Vec<(usize, usize)> = Vec::new();
    let ghost mut words: Seq<Seq<Seq<char>>> = Seq::empty();
    proof {
        lemma_table_marks_none(flags_of(seen@));
    }
    let ghost unseen = seen@;
    set_flag(&mut seen, initial_a, initial_b);
    proof {
        assert forall|i: int, j: int|
            0 <= i < count_a && 0 <= j < count_b && #[trigger] seen[i][j] implies i == initial_a
            && j == initial_b by {
            if i != initial_a {
                assert(seen[i] == unseen[i]);
            }
        }
    }
    pairs.push((initial_a, initial_b));
    proof {
        words = words.push(Seq::empty());
        assert(ma.run(ma.initial, Seq::<Seq<char>>::empty()) == Some(ma.initial));
        assert(mb.run(mb.initial, Seq::<Seq<char>>::empty()) == Some(mb.initial));
    }
    let mut built: Vec<DfaState> = Vec::new();
    let mut head: usize = 0;
    while head < pairs.len()
        invariant
            ma == a@,
            mb == b@,
            ma.wf(),
            mb.wf(),
            ma.alphabet == mb.alphabet,
            count_a == ma.states.len(),
            count_b == mb.states.len(),
            symbols == ma.alphabet.len(),
            states_a@.map_values(|s: DfaState| s@) == ma.states,
            states_b@.map_values(|s: DfaState| s@) == mb.states,
            seen.len() == count_a,
            index.len() == count_a,
            forall|i: int| 0 <= i < count_a ==> (#[trigger] seen[i]).len() == count_b,
            forall|i: int| 0 <= i < count_a ==> (#[trigger] index[i]).len() == count_b,
            pairs.len() == table_marks(flags_of(seen@)),
            pairs.len() >= 1,
            pairs[0] == (initial_a, initial_b),
            initial_a == ma.initial,
            initial_b == mb.initial,
            words.len() == pairs.len(),
            head <= pairs.len(),
            built.len() == head,
            forall|k: int|
                0 <= k < pairs.len() ==> {
                    &&& (#[trigger] pairs[k]).0 < count_a
                    &&& pairs[k].1 < count_b
                    &&& seen[pairs[k].0 as int][pairs[k].1 as int]
                    &&& index[pairs[k].0 as int][pairs[k].1 as int] == k
                    &&& ma.run(ma.initial, words[k]) == Some(pairs[k].0 as int)
                    &&& mb.run(mb.initial, words[k]) == Some(pairs[k].1 as int)
                },
            forall|i: int, j: int|
                0 <= i < count_a && 0 <= j < count_b && #[trigger] seen[i][j] ==> index[i][j]
                    < pairs.len() && pairs[index[i][j] as int] == (i as usize, j as usize),
            forall|k: int|
                0 <= k < head ==> {
                    &&& pair_state(
                        ma.states[pairs[k].0 as int],
                        mb.states[pairs[k].1 as int],
                        how,
                        (#[trigger] built[k])@,
                    )
                    &&& built[k]@.initial == (k == 0)
                    &&& built[k]@.transitions.len() == symbols
                    &&& forall|x: int|
                        0 <= x < symbols ==> {
                            &&& 0 <= #[trigger] built[k]@.transitions[x] < pairs.len()
                            &&& pairs[built[k]@.transitions[x]] == (
                                ma.states[pairs[k].0 as int].transitions[x] as usize,
                                mb.states[pairs[k].1 as int].transitions[x] as usize,
                            )
                        }
                },
        decreases count_a * count_b - head,
    {
        proof {
            lemma_table_marks_bound(flags_of(seen@), count_b as nat);
        }
        let (from_a, from_b) = pairs[head];
        let ghost word = words[head as int];
        let mut row: Vec<usize> = Vec::new();
        let mut x: usize = 0;
        while x < symbols
            invariant
                ma == a@,
                mb == b@,
                ma.wf(),
                mb.wf(),
                ma.alphabet == mb.alphabet,
                count_a == ma.states.len(),
                count_b == mb.states.len(),
                symbols == ma.alphabet.len(),
                seen.len() == count_a,
                index.len() == count_a,
                forall|i: int| 0 <= i < count_a ==> (#[trigger] seen[i]).len() == count_b,
                forall|i: int| 0 <= i < count_a ==> (#[trigger] index[i]).len() == count_b,
                pairs.len() == table_marks(flags_of(seen@)),
                pairs.len() >= 1,
                pairs[0] == (initial_a, initial_b),
                words.len() == pairs.len(),
                head < pairs.len(),
                (from_a, from_b) == pairs[head as int],
                from_a < count_a,
                from_b < count_b,
                ma.run(ma.initial, word) == Some(from_a as int),
                mb.run(mb.initial, word) == Some(from_b as int),
                built.len() == head,
                forall|k: int|
                    0 <= k < pairs.len() ==> {
                        &&& (#[trigger] pairs[k]).0 < count_a
                        &&& pairs[k].1 < count_b
                        &&& seen[pairs[k].0 as int][pairs[k].1 as int]
                        &&& index[pairs[k].0 as int][pairs[k].1 as int] == k
                        &&& ma.run(ma.initial, words[k]) == Some(pairs[k].0 as int)
                        &&& mb.run(mb.initial, words[k]) == Some(pairs[k].1 as int)
                    },
                forall|i: int, j: int|
                    0 <= i < count_a && 0 <= j < count_b && #[trigger] seen[i][j] ==> index[i][j]
                        < pairs.len() && pairs[index[i][j] as int] == (i as usize, j as usize),
                forall|k: int|
                    0 <= k < head ==> {
                        &&& pair_state(
                            ma.states[pairs[k].0 as int],
                            mb.states[pairs[k].1 as int],
                            how,
                            (#[trigger] built[k])@,
                        )
                        &&& built[k]@.initial == (k == 0)
                        &&& built[k]@.transitions.len() == symbols
                        &&& forall|x: int|
                            0 <= x < symbols ==> {
                                &&& 0 <= #[trigger] built[k]@.transitions[x] < pairs.len()
                                &&& pairs[built[k]@.transitions[x]] == (
                                    ma.states[pairs[k].0 as int].transitions[x] as usize,
                                    mb.states[pairs[k].1 as int].transitions[x] as usize,
                                )
                            }
                    },
                x <= symbols,
                row.len() == x,
                forall|y: int|
                    0 <= y < x ==> {
                        &&& (#[trigger] row[y]) < pairs.len()
                        &&& pairs[row[y] as int] == (
                            ma.states[from_a as int].transitions[y] as usize,
                            mb.states[from_b as int].transitions[y] as usize,
                        )
                    },
            decreases symbols - x,
        {
            let to_a = a.target(from_a, x);
            let to_b = b.target(from_b, x);
            if !seen[to_a][to_b] {
                let ghost old_seen = seen@;
                let ghost old_index = index@;
                let ghost old_pairs = pairs@;
                let at = pairs.len();
                set_flag(&mut seen, to_a, to_b);
                index[to_a][to_b] = at;
                pairs.push((to_a, to_b));
                proof {
                    lemma_run_one_more(ma, ma.initial, word, from_a as int, x as int);
                    lemma_run_one_more(mb, mb.initial, word, from_b as int, x as int);
                    words = words.push(word.push(ma.alphabet[x as int]));
                    assert forall|k: int| 0 <= k < pairs.len() implies {
                        &&& (#[trigger] pairs[k]).0 < count_a
                        &&& pairs[k].1 < count_b
                        &&& seen[pairs[k].0 as int][pairs[k].1 as int]
                        &&& index[pairs[k].0 as int][pairs[k].1 as int] == k
                        &&& ma.run(ma.initial, words[k]) == Some(pairs[k].0 as int)
                        &&& mb.run(mb.initial, words[k]) == Some(pairs[k].1 as int)
                    } by {
                        if k < at {
                            assert(pairs[k] == old_pairs[k]);
                            assert(old_seen[old_pairs[k].0 as int][old_pairs[k].1 as int]);
                        }
                    }
                    assert forall|i: int, j: int|
                        0 <= i < count_a && 0 <= j < count_b
                            && #[trigger] seen[i][j] implies index[i][j] < pairs.len()
                        && pairs[index[i][j] as int] == (i as usize, j as usize) by {
                        if i == to_a && j == to_b {
                        } else {
                            assert(old_seen[i][j]);
                            assert(index[i][j] == old_index[i][j]);
                            assert(pairs[index[i][j] as int] == old_pairs[old_index[i][j] as int]);
                        }
                    }
                }
            }
            row.push(index[to_a][to_b]);
            x += 1;
        }
        assert(ma.states[from_a as int] == states_a[from_a as int]@);
        assert(mb.states[from_b as int] == states_b[from_b as int]@);
        let state = DfaState::from_parts(
            name_pair(states_a[from_a].name(), states_b[from_b].name()),
            head == 0,
            how.apply(states_a[from_a].is_accepting(), states_b[from_b].is_accepting()),
            row,
        );
        built.push(state);
        head += 1;
    }
    let letters = clone_strings(a.alphabet());
    let ghost spans = pairs@.map_values(|p: (usize, usize)| (p.0 as int, p.1 as int));
    proof {
        let p = dfa_model(letters@, built@, 0);
        assert forall|k: int| 0 <= k < p.states.len() implies (#[trigger] p.states[k]).initial == (k
            == p.initial) by {
            assert(p.states[k] == built[k]@);
        }
        assert forall|k: int|
            0 <= k < p.states.len() implies (#[trigger] p.states[k]).transitions.len()
            == p.alphabet.len() by {
            assert(p.states[k] == built[k]@);
        }
        assert forall|k: int, x: int|
            0 <= k < p.states.len() && 0 <= x < p.alphabet.len() implies 0
            <= #[trigger] p.states[k].transitions[x] < p.states.len() by {
            assert(p.states[k] == built[k]@);
        }
        assert(p.wf());
        assert(is_product(p, ma, mb, spans)) by {
            assert forall|k: int, x: int|
                0 <= k < spans.len() && 0 <= x < p.alphabet.len()
                    implies spans[#[trigger] p.states[k].transitions[x]] == (
                ma.states[spans[k].0].transitions[x],
                mb.states[spans[k].1].transitions[x],
            ) by {
                assert(p.states[k] == built[k]@);
                assert(pairs[built[k]@.transitions[x]] == (
                    ma.states[pairs[k].0 as int].transitions[x] as usize,
                    mb.states[pairs[k].1 as int].transitions[x] as usize,
                ));
            }
        }
        assert forall|k: int| 0 <= k < spans.len() implies pair_state(
            ma.states[spans[k].0],
            mb.states[spans[k].1],
            how,
            #[trigger] p.states[k],
        ) by {
            assert(p.states[k] == built[k]@);
        }
        assert forall|k: int| 0 <= k < spans.len() implies p.reachable(k) by {
            lemma_product_run(p, ma, mb, spans, 0, words[k]);
            assert(spans[0] == (ma.initial, mb.initial));
            assert(pairs[k].0 < count_a);
            assert(ma.run(ma.initial, words[k]) is Some);
            assert(p.run(0, words[k]) is Some);
            let end = p.run(0, words[k]).unwrap();
            assert(spans[end] == spans[k]);
            assert(index[pairs[end].0 as int][pairs[end].1 as int] == end);
            assert(index[pairs[k].0 as int][pairs[k].1 as int] == k);
        }
    }
    (Dfa::from_parts(letters, built, 0), Ghost(spans))
}

/// The symbols of `first`, followed by those of `second` that `first` does
/// not hold.
fn merged(first: &[String], second: &[String]) -> (all: Vec<String>)
    requires
        tokens_of(first@).no_duplicates(),
        tokens_of(second@).no_duplicates(),
    ensures
        tokens_of(all@).no_duplicates(),
        forall|i: int|
            0 <= i < first.len() ==> tokens_of(all@).contains(#[trigger] tokens_of(first@)[i]),
        forall|j: int|
            0 <= j < second.len() ==> tokens_of(all@).contains(#[trigger] tokens_of(second@)[j]),
{
    let mut all = clone_strings(first);
    let ghost a = tokens_of(first@);
    let ghost b = tokens_of(second@);
    let ghost mut origin: Seq<int> = Seq::empty();
    let mut j: usize = 0;
    assert(tokens_of(all@) =~= a);
    while j < second.len()
        invariant
            a == tokens_of(first@),
            b == tokens_of(second@),
            a.no_duplicates(),
            b.no_duplicates(),
            j <= second.len(),
            all.len() == first.len() + origin.len(),
            forall|i: int| 0 <= i < first.len() ==> #[trigger] tokens_of(all@)[i] == a[i],
            forall|k: int|
                0 <= k < origin.len() ==> 0 <= #[trigger] origin[k] < j && tokens_of(
                    all@,
                )[first.len() + k] == b[origin[k]] && !a.contains(b[origin[k]]),
            forall|k: int, l: int| 0 <= k < l < origin.len() ==> origin[k] < origin[l],
            forall|i: int| 0 <= i < j ==> tokens_of(all@).contains(#[trigger] b[i]),
        decreases second.len() - j,
    {
        let ghost before = tokens_of(all@);
        let found = find_symbol(first, &second[j]);
        assert(b[j as int] == second[j as int]@);
        match found {
            Some(i) => {
                proof {
                    lemma_symbol_position(a, b[j as int], i as int);
                    assert(before[i as int] == b[j as int]);
                }
            },
            None => {
                all.push(second[j].clone());
                proof {
                    origin = origin.push(j as int);
                    assert(tokens_of(all@) =~= before.push(b[j as int]));
                    assert(tokens_of(all@)[all.len() - 1] == b[j as int]);
                    assert forall|i: int| 0 <= i < j implies tokens_of(all@).contains(
                        #[trigger] b[i],
                    ) by {
                        let at = choose|at: int| 0 <= at < before.len() && before[at] == b[i];
                        assert(tokens_of(all@)[at] == b[i]);
                    }
                }
            },
        }
        j += 1;
    }
    proof {
        let t = tokens_of(all@);
        assert forall|x: int, y: int| 0 <= x < t.len() && 0 <= y < t.len() && x != y implies t[x]
            != t[y] by {
            let n = first.len() as int;
            if x < n && y < n {
            } else if x < n {
                assert(t[y] == b[origin[y - n]]);
                if t[x] == t[y] {
                    assert(a[x] == b[origin[y - n]]);
                }
            } else if y < n {
                assert(t[x] == b[origin[x - n]]);
                if t[x] == t[y] {
                    assert(a[y] == b[origin[x - n]]);
                }
            } else {
                assert(t[x] == b[origin[x - n]]);
                assert(t[y] == b[origin[y - n]]);
                if x < y {
                    assert(origin[x - n] < origin[y - n]);
                } else {
                    assert(origin[y - n] < origin[x - n]);
                }
            }
        }
        assert forall|i: int| 0 <= i < first.len() implies t.contains(#[trigger] a[i]) by {
            assert(t[i] == a[i]);
        }
    }
    all
}

impl Dfa {
    /// The automaton of the pairs of states of the two automata that the
    /// pair of their initial states reaches. It accepts a word where the
    /// combination says so of the two: see `Combination`. The two alphabets
    /// must hold the same symbols; their order may differ, and the result
    /// has the order of this automaton.
    pub fn product_construction(&self, other: &Dfa, how: Combination) -> (made: Result<Dfa, Error>)
        ensures
            match made {
                Ok(p) => {
                    &&& same_symbols(self@.alphabet, other@.alphabet)
                    &&& p@.wf()
                    &&& p@.alphabet == self@.alphabet
                    &&& accepts_combination(p@, self@, other@, how)
                    &&& forall|q: int| 0 <= q < p@.states.len() ==> p@.reachable(q)
                    &&& forall|q: int|
                        0 <= q < p@.states.len() ==> #[trigger] is_pair_of(
                            p@,
                            self@,
                            other@,
                            how,
                            q,
                        )
                },
                Err(e) => e@ == ErrorModel::AlphabetMismatch && !same_symbols(
                    self@.alphabet,
                    other@.alphabet,
                ),
            },
    {
        let own = self.alphabet();
        let others = other.alphabet();
        let count = self.state_count();
        let other_count = other.state_count();
        let forth = all_among(own, others);
        let back = all_among(others, own);
        if !(forth && back) {
            return Err(Error::AlphabetMismatch);
        }
        let lifted = other.with_alphabet(own);
        let (made, Ghost(pairs)) = product(self, &lifted, how);
        proof {
            let p = made@;
            assert forall|word: Seq<Seq<char>>| #[trigger]
                p.accepts(word) == how.combine(self@.accepts(word), other@.accepts(word)) by {
                lemma_product_run(p, self@, lifted@, pairs, 0, word);
                assert(lifted@.accepts(word) == other@.accepts(word));
            }
            assert forall|q: int| 0 <= q < p.states.len() implies #[trigger] is_pair_of(
                p,
                self@,
                other@,
                how,
                q,
            ) by {
                assert(p.reachable(q));
                let word = choose|word: Seq<Seq<char>>| p.run(p.initial, word) == Some(q);
                lemma_product_run(p, self@, lifted@, pairs, 0, word);
                assert forall|u: int| 0 <= u < lifted@.alphabet.len() implies other@.alphabet.contains(
                    #[trigger] lifted@.alphabet[u],
                ) by {
                    assert(lifted@.alphabet[u] == tokens_of(own@)[u]);
                }
                lemma_extends_stays(lifted@, other@, other@.initial, word);
                let i = pairs[q].0;
                let j = pairs[q].1;
                assert(pair_state(self@.states[i], lifted@.states[j], how, p.states[q]));
                assert(lifted@.states[j].accepting == other@.states[j].accepting);
                assert(pair_state(self@.states[i], other@.states[j], how, p.states[q]));
            }
        }
        Ok(made)
    }

    /// The automaton that accepts the words that one of the two accepts.
    pub fn union(&self, other: &Dfa) -> (made: Result<Dfa, Error>)
        ensures
            match made {
                Ok(p) => {
                    &&& same_symbols(self@.alphabet, other@.alphabet)
                    &&& p@.wf()
                    &&& p@.alphabet == self@.alphabet
                    &&& forall|q: int| 0 <= q < p@.states.len() ==> p@.reachable(q)
                    &&& forall|q: int|
                        0 <= q < p@.states.len() ==> #[trigger] is_pair_of(
                            p@,
                            self@,
                            other@,
                            Combination::Union,
                            q,
                        )
                    &&& forall|word: Seq<Seq<char>>|
                        #[trigger] p@.accepts(word) == (self@.accepts(word) || other@.accepts(word))
                },
                Err(e) => e@ == ErrorModel::AlphabetMismatch && !same_symbols(
                    self@.alphabet,
                    other@.alphabet,
                ),
            },
    {
        self.product_construction(other, Combination::Union)
    }

    /// The automaton that accepts the words that both accept.
    pub fn intersection(&self, other: &Dfa) -> (made: Result<Dfa, Error>)
        ensures
            match made {
                Ok(p) => {
                    &&& same_symbols(self@.alphabet, other@.alphabet)
                    &&& p@.wf()
                    &&& p@.alphabet == self@.alphabet
                    &&& forall|q: int| 0 <= q < p@.states.len() ==> p@.reachable(q)
                    &&& forall|q: int|
                        0 <= q < p@.states.len() ==> #[trigger] is_pair_of(
                            p@,
                            self@,
                            other@,
                            Combination::Intersection,
                            q,
                        )
                    &&& forall|word: Seq<Seq<char>>|
                        #[trigger] p@.accepts(word) == (self@.accepts(word) && other@.accepts(word))
                },
                Err(e) => e@ == ErrorModel::AlphabetMismatch && !same_symbols(
                    self@.alphabet,
                    other@.alphabet,
                ),
            },
    {
        self.product_construction(other, Combination::Intersection)
    }

    /// The automaton that accepts the words that this automaton accepts and
    /// the other does not.
    pub fn difference(&self, other: &Dfa) -> (made: Result<Dfa, Error>)
        ensures
            match made {
                Ok(p) => {
                    &&& same_symbols(self@.alphabet, other@.alphabet)
                    &&& p@.wf()
                    &&& p@.alphabet == self@.alphabet
                    &&& forall|q: int| 0 <= q < p@.states.len() ==> p@.reachable(q)
                    &&& forall|q: int|
                        0 <= q < p@.states.len() ==> #[trigger] is_pair_of(
                            p@,
                            self@,
                            other@,
                            Combination::Difference,
                            q,
                        )
                    &&& forall|word: Seq<Seq<char>>|
                        #[trigger] p@.accepts(word) == (self@.accepts(word) && !other@.accepts(
                            word,
                        ))
                },
                Err(e) => e@ == ErrorModel::AlphabetMismatch && !same_symbols(
                    self@.alphabet,
                    other@.alphabet,
                ),
            },
    {
        self.product_construction(other, Combination::Difference)
    }

    /// The automaton that accepts the words that exactly one of the two
    /// accepts.
    pub fn symmetric_difference(&self, other: &Dfa) -> (made: Result<Dfa, Error>)
        ensures
            match made {
                Ok(p) => {
                    &&& same_symbols(self@.alphabet, other@.alphabet)
                    &&& p@.wf()
                    &&& p@.alphabet == self@.alphabet
                    &&& forall|q: int| 0 <= q < p@.states.len() ==> p@.reachable(q)
                    &&& forall|q: int|
                        0 <= q < p@.states.len() ==> #[trigger] is_pair_of(
                            p@,
                            self@,
                            other@,
                            Combination::SymmetricDifference,
                            q,
                        )
                    &&& forall|word: Seq<Seq<char>>|
                        #[trigger] p@.accepts(word) == (self@.accepts(word) != other@.accepts(word))
                },
                Err(e) => e@ == ErrorModel::AlphabetMismatch && !same_symbols(
                    self@.alphabet,
                    other@.alphabet,
                ),
            },
    {
        self.product_construction(other, Combination::SymmetricDifference)
    }

    /// Whether the two automata accept the same words. Their alphabets may
    /// differ: a word with a symbol that an automaton does not know is a
    /// word that it rejects.
    pub fn equivalent_to(&self, other: &Dfa) -> (same: bool)
        ensures
            same == self@.equivalent(other@),
    {
        let count = self.state_count();
        let other_count = other.state_count();
        let all = merged(self.alphabet(), other.alphabet());
        let first = self.with_alphabet(all.as_slice());
        let second = other.with_alphabet(all.as_slice());
        let (made, Ghost(pairs)) = product(&first, &second, Combination::SymmetricDifference);
        let differ = made.has_reachable_accepting_state();
        proof {
            let p = made@;
            assert forall|word: Seq<Seq<char>>| #[trigger]
                p.accepts(word) == (self@.accepts(word) != other@.accepts(word)) by {
                lemma_product_run(p, first@, second@, pairs, 0, word);
                assert(first@.accepts(word) == self@.accepts(word));
                assert(second@.accepts(word) == other@.accepts(word));
            }
            if differ {
                let word = choose|word: Seq<Seq<char>>| p.accepts(word);
                assert(self@.accepts(word) != other@.accepts(word));
            } else {
                assert forall|word: Seq<Seq<char>>|
                    self@.accepts(word) == other@.accepts(word) by {
                    assert(!p.accepts(word));
                }
            }
        }
        !differ
    }
}

/// The words of an inverted automaton are the words over its alphabet that
/// the automaton rejects.
pub proof fn lemma_inverted_run(m: DfaModel, q: int, word: Seq<Seq<char>>)
    requires
        m.wf(),
        0 <= q < m.states.len(),
    ensures
        m.inverted().run(q, word) == m.run(q, word),
        m.inverted().wf(),
    decreases word.len(),
{
    let inv = m.inverted();
    assert(inv.wf());
    if word.len() > 0 {
        if let Some(x) = symbol_position(m.alphabet, word[0]) {
            lemma_symbol_position(m.alphabet, word[0], x);
            lemma_inverted_run(m, m.states[q].transitions[x], word.drop_first());
        }
    }
}

/// Whether every token of the word is a symbol of the alphabet.
pub open spec fn word_over(alphabet: Seq<Seq<char>>, word: Seq<Seq<char>>) -> bool {
    forall|i: int| 0 <= i < word.len() ==> alphabet.contains(#[trigger] word[i])
}

/// A run reads a word to its end exactly when the word is over the
/// alphabet.
pub proof fn lemma_run_over(m: DfaModel, q: int, word: Seq<Seq<char>>)
    requires
        m.wf(),
        0 <= q < m.states.len(),
    ensures
        m.run(q, word) is Some <==> word_over(m.alphabet, word),
    decreases word.len(),
{
    if word.len() > 0 {
        let rest = word.drop_first();
        match symbol_position(m.alphabet, word[0]) {
            Some(x) => {
                lemma_symbol_position(m.alphabet, word[0], x);
                lemma_run_over(m, m.states[q].transitions[x], rest);
                if word_over(m.alphabet, rest) {
                    assert forall|i: int| 0 <= i < word.len() implies m.alphabet.contains(
                        #[trigger] word[i],
                    ) by {
                        if i > 0 {
                            assert(word[i] == rest[i - 1]);
                        }
                    }
                } else if word_over(m.alphabet, word) {
                    assert forall|i: int| 0 <= i < rest.len() implies m.alphabet.contains(
                        #[trigger] rest[i],
                    ) by {
                        assert(rest[i] == word[i + 1]);
                    }
                }
            },
            None => {
                assert(!m.alphabet.contains(word[0]));
            },
        }
    }
}

/// An inverted automaton accepts exactly the words over its alphabet that
/// the automaton rejects.
pub proof fn law_inverted_accepts(m: DfaModel, word: Seq<Seq<char>>)
    requires
        m.wf(),
    ensures
        m.inverted().accepts(word) == (word_over(m.alphabet, word) && !m.accepts(word)),
{
    lemma_inverted_run(m, m.initial, word);
    lemma_run_over(m, m.initial, word);
    lemma_run_in_range(m, m.initial, word);
}

/// The combination of an automaton with itself, as union or as
/// intersection, accepts what the automaton accepts.
pub proof fn law_self_combination(a: DfaModel, both: DfaModel, either: DfaModel)
    requires
        accepts_combination(both, a, a, Combination::Intersection),
        accepts_combination(either, a, a, Combination::Union),
    ensures
        both.equivalent(a),
        either.equivalent(a),
{
    assert forall|word: Seq<Seq<char>>| both.accepts(word) == a.accepts(word) by {
        assert(both.accepts(word) == Combination::Intersection.combine(
            a.accepts(word),
            a.accepts(word),
        ));
    }
    assert forall|word: Seq<Seq<char>>| either.accepts(word) == a.accepts(word) by {
        assert(either.accepts(word) == Combination::Union.combine(
            a.accepts(word),
            a.accepts(word),
        ));
    }
}

/// An automaton and its inverse: a word over the alphabet is accepted by
/// exactly one of them, their intersection accepts no word, and their union
/// accepts every word over the alphabet.
pub proof fn law_complement(a: DfaModel, both: DfaModel, either: DfaModel, word: Seq<Seq<char>>)
    requires
        a.wf(),
        accepts_combination(both, a, a.inverted(), Combination::Intersection),
        accepts_combination(either, a, a.inverted(), Combination::Union),
    ensures
        word_over(a.alphabet, word) ==> a.accepts(word) != a.inverted().accepts(word),
        !both.accepts(word),
        either.accepts(word) == word_over(a.alphabet, word),
{
    law_inverted_accepts(a, word);
    lemma_run_over(a, a.initial, word);
    assert(both.accepts(word) == Combination::Intersection.combine(
        a.accepts(word),
        a.inverted().accepts(word),
    ));
    assert(either.accepts(word) == Combination::Union.combine(
        a.accepts(word),
        a.inverted().accepts(word),
    ));
}

} // verus!
