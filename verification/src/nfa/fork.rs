//! The automaton that accepts what one of two automata accepts: a new
//! initial state with moves that read nothing to the initial states of
//! the two.

use vstd::prelude::*;
use crate::alphabet::{clone_strings, find_symbol, lemma_symbol_position, symbol_position, tokens_of};
use crate::dfa::product::{all_among, same_symbols, word_over};
use crate::error::{Error, ErrorModel};
use crate::nfa::run::lemma_outside;
use crate::nfa::words::{lemma_run_indices, tokens_at};
use crate::nfa::{Nfa, NfaModel, targets_of};
use crate::regex::alt::lemma_alt_accepts;
use crate::regex::concat::lemma_part_nfa;
use crate::regex::thompson::{
    Part,
    PartModel,
    lemma_alt_wf,
    nfa_of_part,
    part_alt,
    part_of_nfa,
    part_wf,
};

verus! {

/// For each symbol of `alphabet`, its position in `from`.
pub open spec fn places_in(from: Seq<Seq<char>>, alphabet: Seq<Seq<char>>) -> Seq<int> {
    Seq::new(
        alphabet.len(),
        |u: int|
            match symbol_position(from, alphabet[u]) {
                Some(x) => x,
                None => 0,
            },
    )
}

/// The part that an automaton is with its symbols in the order of
/// `alphabet`.
pub open spec fn part_over(m: NfaModel, alphabet: Seq<Seq<char>>) -> PartModel {
    part_of_nfa(m, places_in(m.alphabet, alphabet))
}

/// The automaton of the two with a new initial state, over the alphabet of
/// the first: the new state comes first, then the states of the first
/// automaton and then those of the second, each named by its place.
pub open spec fn forked(a: NfaModel, b: NfaModel) -> NfaModel {
    nfa_of_part(
        part_alt(part_over(a, a.alphabet), part_over(b, a.alphabet), a.alphabet.len() as int),
        a.alphabet,
    )
}

/// An automaton with its symbols in another order is well formed as a part.
pub proof fn lemma_part_over_wf(m: NfaModel, alphabet: Seq<Seq<char>>)
    requires
        m.wf(),
        same_symbols(m.alphabet, alphabet),
    ensures
        part_wf(part_over(m, alphabet), alphabet.len() as int),
{
    let p = part_over(m, alphabet);
    let places = places_in(m.alphabet, alphabet);
    assert forall|u: int| 0 <= u < alphabet.len() implies 0 <= #[trigger] places[u]
        < m.alphabet.len() by {
        assert(m.alphabet.contains(alphabet[u]));
        lemma_symbol_position(m.alphabet, alphabet[u], places[u]);
    }
    assert forall|q: int, x: int, k: int|
        0 <= q < p.states.len() && 0 <= x < alphabet.len() && 0 <= k
            < p.states[q].moves[x].len() implies 0 <= #[trigger] p.states[q].moves[x][k]
        < p.states.len() by {
        assert(p.states[q].moves[x] == m.states[q].transitions[places[x]]);
        assert(0 <= places[x] < m.alphabet.len());
    }
}

/// With its symbols in another order an automaton still reads a word to
/// the same states.
pub proof fn lemma_part_over_run(
    m: NfaModel,
    alphabet: Seq<Seq<char>>,
    set: Set<int>,
    word: Seq<Seq<char>>,
)
    requires
        m.wf(),
        alphabet.no_duplicates(),
        same_symbols(m.alphabet, alphabet),
    ensures
        nfa_of_part(part_over(m, alphabet), alphabet).run(set, word) == m.run(set, word),
    decreases word.len(),
{
    let n = nfa_of_part(part_over(m, alphabet), alphabet);
    let places = places_in(m.alphabet, alphabet);
    if word.len() > 0 {
        assert(n.epsilon_graph() =~= m.epsilon_graph());
        match symbol_position(alphabet, word[0]) {
            Some(u) => {
                lemma_symbol_position(alphabet, word[0], u);
                assert(m.alphabet.contains(alphabet[u]));
                lemma_symbol_position(m.alphabet, word[0], places[u]);
                assert(n.moved(set, u) =~= m.moved(set, places[u])) by {
                    assert forall|p: int| 0 <= p < m.states.len() implies n.states[p].transitions[u]
                        == m.states[p].transitions[places[u]] by {}
                }
                assert(n.step(set, word[0]) == m.step(set, word[0]));
            },
            None => {
                if m.alphabet.contains(word[0]) {
                    let j = choose|j: int| 0 <= j < m.alphabet.len() && m.alphabet[j] == word[0];
                    assert(alphabet.contains(m.alphabet[j]));
                }
            },
        }
        lemma_part_over_run(m, alphabet, m.step(set, word[0]), word.drop_first());
    }
}

/// With its symbols in another order an automaton accepts the same words.
pub proof fn lemma_part_over_accepts(m: NfaModel, alphabet: Seq<Seq<char>>, word: Seq<Seq<char>>)
    requires
        m.wf(),
        alphabet.no_duplicates(),
        same_symbols(m.alphabet, alphabet),
    ensures
        nfa_of_part(part_over(m, alphabet), alphabet).accepts(word) == m.accepts(word),
{
    let n = nfa_of_part(part_over(m, alphabet), alphabet);
    assert(n.epsilon_graph() =~= m.epsilon_graph());
    lemma_part_over_run(m, alphabet, m.start(), word);
    let end = m.run(m.start(), word);
    if n.accepting_set(end) {
        let q = choose|q: int| 0 <= q < n.states.len() && end.contains(q) && n.states[q].accepting;
        assert(m.states[q].accepting);
    }
    if m.accepting_set(end) {
        let q = choose|q: int| 0 <= q < m.states.len() && end.contains(q) && m.states[q].accepting;
        assert(n.states[q].accepting);
    }
}

/// The positions in the alphabet of the tokens of a word over it.
pub open spec fn positions_of(alphabet: Seq<Seq<char>>, word: Seq<Seq<char>>) -> Seq<int> {
    word.map_values(
        |token: Seq<char>|
            match symbol_position(alphabet, token) {
                Some(x) => x,
                None => 0,
            },
    )
}

/// The automaton of two automata with a new initial state accepts a word
/// exactly where one of the two accepts it.
pub proof fn law_forked(a: NfaModel, b: NfaModel, word: Seq<Seq<char>>)
    requires
        a.wf(),
        b.wf(),
        same_symbols(a.alphabet, b.alphabet),
    ensures
        forked(a, b).wf(),
        forked(a, b).accepts(word) == (a.accepts(word) || b.accepts(word)),
{
    let alphabet = a.alphabet;
    let pa = part_over(a, alphabet);
    let pb = part_over(b, alphabet);
    let na = nfa_of_part(pa, alphabet);
    let nb = nfa_of_part(pb, alphabet);
    let whole = forked(a, b);
    lemma_part_over_wf(a, alphabet);
    lemma_part_over_wf(b, alphabet);
    lemma_alt_wf(pa, pb, alphabet.len() as int);
    lemma_part_nfa(part_alt(pa, pb, alphabet.len() as int), alphabet);
    lemma_part_nfa(pa, alphabet);
    lemma_part_nfa(pb, alphabet);
    lemma_part_over_accepts(a, alphabet, word);
    lemma_part_over_accepts(b, alphabet, word);
    if word_over(alphabet, word) {
        let places = positions_of(alphabet, word);
        assert forall|i: int| 0 <= i < places.len() implies 0 <= #[trigger] places[i]
            < alphabet.len() && alphabet[places[i]] == word[i] by {
            assert(alphabet.contains(word[i]));
            lemma_symbol_position(alphabet, word[i], places[i]);
        }
        assert(tokens_at(whole, places) =~= word);
        assert(tokens_at(na, places) =~= word);
        assert(tokens_at(nb, places) =~= word);
        lemma_run_indices(whole, whole.start(), places);
        lemma_run_indices(na, na.start(), places);
        lemma_run_indices(nb, nb.start(), places);
        lemma_alt_accepts(pa, pb, alphabet, places);
    } else {
        let i = choose|i: int| 0 <= i < word.len() && !alphabet.contains(#[trigger] word[i]);
        lemma_outside(whole, whole.start(), word, i);
        lemma_outside(na, na.start(), word, i);
        lemma_outside(nb, nb.start(), word, i);
    }
}

/// For each symbol of `alphabet`, its position in `from`.
pub(crate) fn places_of(from: &[String], alphabet: &[String]) -> (places: Vec<usize>)
    requires
        tokens_of(from@).no_duplicates(),
        forall|u: int|
            0 <= u < alphabet.len() ==> tokens_of(from@).contains(#[trigger] tokens_of(alphabet@)[u]),
    ensures
        targets_of(places@) == places_in(tokens_of(from@), tokens_of(alphabet@)),
        places.len() == alphabet.len(),
        forall|u: int| 0 <= u < places.len() ==> #[trigger] places[u] < from.len(),
{
    let ghost want = places_in(tokens_of(from@), tokens_of(alphabet@));
    let mut places: Vec<usize> = Vec::new();
    let mut u: usize = 0;
    while u < alphabet.len()
        invariant
            u <= alphabet.len(),
            places.len() == u,
            tokens_of(from@).no_duplicates(),
            want == places_in(tokens_of(from@), tokens_of(alphabet@)),
            forall|u: int|
                0 <= u < alphabet.len() ==> tokens_of(from@).contains(
                    #[trigger] tokens_of(alphabet@)[u],
                ),
            forall|v: int| 0 <= v < u ==> (#[trigger] places[v]) as int == want[v],
            forall|v: int| 0 <= v < u ==> #[trigger] places[v] < from.len(),
        decreases alphabet.len() - u,
    {
        let found = find_symbol(from, &alphabet[u]);
        assert(tokens_of(alphabet@)[u as int] == alphabet[u as int]@);
        assert(tokens_of(from@).contains(tokens_of(alphabet@)[u as int]));
        let x = match found {
            Some(x) => x,
            None => 0,
        };
        proof {
            lemma_symbol_position(tokens_of(from@), alphabet[u as int]@, x as int);
        }
        places.push(x);
        u += 1;
    }
    assert(targets_of(places@) =~= want);
    places
}

impl Nfa {
    /// The automaton that accepts the words that one of the two accepts: a
    /// new initial state has a move that reads nothing to the initial
    /// state of each, and the states of the two follow it. The two
    /// alphabets must hold the same symbols; the automaton has the
    /// alphabet of the first.
    pub fn union(self, other: Nfa) -> (made: Result<Nfa, Error>)
        requires
            self@.states.len() + other@.states.len() < usize::MAX,
        ensures
            match made {
                Ok(p) => {
                    &&& same_symbols(self@.alphabet, other@.alphabet)
                    &&& p@ == forked(self@, other@)
                    &&& p@.wf()
                    &&& p@.alphabet == self@.alphabet
                    &&& forall|word: Seq<Seq<char>>|
                        #[trigger] p@.accepts(word) == (self@.accepts(word) || other@.accepts(word))
                },
                Err(e) => e@ == ErrorModel::AlphabetMismatch && !same_symbols(
                    self@.alphabet,
                    other@.alphabet,
                ),
            },
    {
        let symbols = self.symbol_count();
        let _ = other.symbol_count();
        let _ = self.state_count();
        let _ = other.state_count();
        let forth = all_among(self.alphabet(), other.alphabet());
        let back = all_among(other.alphabet(), self.alphabet());
        if !forth || !back {
            return Err(Error::AlphabetMismatch);
        }
        let own = places_of(self.alphabet(), self.alphabet());
        let others = places_of(other.alphabet(), self.alphabet());
        let first = Part::of_nfa(&self, &own);
        let second = Part::of_nfa(&other, &others);
        proof {
            assert forall|word: Seq<Seq<char>>|
                #[trigger] forked(self@, other@).accepts(word) == (self@.accepts(word)
                    || other@.accepts(word)) by {
                law_forked(self@, other@, word);
            }
            law_forked(self@, other@, Seq::empty());
        }
        let whole = Part::alt(first, second, symbols);
        Ok(whole.into_nfa(clone_strings(self.alphabet())))
    }
}

} // verus!
