//! The words that a nondeterministic automaton accepts, shorter words
//! before longer ones, and words of one length in the order that the
//! alphabet gives.

use vstd::prelude::*;
use crate::alphabet::lemma_symbol_position;
use crate::graph::{graph_of, graph_wf, marked, reach};
use crate::nfa::{Nfa, NfaModel};

verus! {

/// A word given by the positions of its symbols in the alphabet.
pub open spec fn is_index_word(m: NfaModel, word: Seq<int>) -> bool {
    forall|i: int| 0 <= i < word.len() ==> 0 <= #[trigger] word[i] < m.alphabet.len()
}

/// The tokens of a word that is given by positions.
pub open spec fn tokens_at(m: NfaModel, word: Seq<int>) -> Seq<Seq<char>> {
    word.map_values(|x: int| m.alphabet[x])
}

/// The states in which the automaton can be after it has read the symbols
/// at the positions of `word` in a state of `set`.
pub open spec fn run_indices(m: NfaModel, set: Set<int>, word: Seq<int>) -> Set<int>
    decreases word.len(),
{
    if word.len() == 0 {
        set
    } else {
        run_indices(m, m.closure(m.moved(set, word[0])), word.drop_first())
    }
}

/// Reading the symbols at positions is reading their tokens.
pub proof fn lemma_run_indices(m: NfaModel, set: Set<int>, word: Seq<int>)
    requires
        m.wf(),
        is_index_word(m, word),
    ensures
        run_indices(m, set, word) == m.run(set, tokens_at(m, word)),
    decreases word.len(),
{
    if word.len() > 0 {
        let tokens = tokens_at(m, word);
        lemma_symbol_position(m.alphabet, tokens[0], word[0]);
        assert(tokens.drop_first() =~= tokens_at(m, word.drop_first()));
        assert forall|i: int| 0 <= i < word.drop_first().len() implies 0
            <= #[trigger] word.drop_first()[i] < m.alphabet.len() by {
            assert(word.drop_first()[i] == word[i + 1]);
        }
        lemma_run_indices(m, m.closure(m.moved(set, word[0])), word.drop_first());
    }
}

/// The words with `x` before each word of the list.
pub open spec fn each_after(x: int, words: Seq<Seq<int>>) -> Seq<Seq<int>> {
    words.map_values(|w: Seq<int>| seq![x] + w)
}

/// The words of `length` symbols that lead from a state of `set` to an
/// accepting state, in the order that the alphabet gives.
pub open spec fn words_from(m: NfaModel, set: Set<int>, length: nat) -> Seq<Seq<int>>
    decreases length, 1nat, 0nat,
{
    if length == 0 {
        if m.accepting_set(set) {
            seq![Seq::<int>::empty()]
        } else {
            Seq::empty()
        }
    } else {
        words_with(m, set, length, 0)
    }
}

/// The words of `length` symbols that begin with a symbol from position
/// `x` on and lead from a state of `set` to an accepting state.
pub open spec fn words_with(m: NfaModel, set: Set<int>, length: nat, x: int) -> Seq<Seq<int>>
    decreases length, 0nat, m.alphabet.len() - x,
{
    if length == 0 || x < 0 || x >= m.alphabet.len() {
        Seq::empty()
    } else {
        each_after(x, words_from(m, m.closure(m.moved(set, x)), (length - 1) as nat))
            + words_with(m, set, length, x + 1)
    }
}

/// The accepted words of fewer than `bound` symbols: shorter words stand
/// before longer ones.
pub open spec fn words_below(m: NfaModel, bound: int) -> Seq<Seq<int>>
    decreases bound,
{
    if bound <= 0 {
        Seq::empty()
    } else {
        words_below(m, bound - 1) + words_from(m, m.start(), (bound - 1) as nat)
    }
}

/// Whether `a` stands before `b` in the order of words of one length: at
/// the first position at which they differ, `a` has the smaller symbol.
pub open spec fn before(a: Seq<int>, b: Seq<int>) -> bool
    decreases a.len(),
{
    if a.len() == 0 || b.len() == 0 {
        false
    } else if a[0] != b[0] {
        a[0] < b[0]
    } else {
        before(a.drop_first(), b.drop_first())
    }
}

/// From no state, no word leads to an accepting state.
pub proof fn lemma_words_from_none(m: NfaModel, length: nat)
    ensures
        words_from(m, Set::empty(), length) == Seq::<Seq<int>>::empty(),
    decreases length, 1nat, 0nat,
{
    let none = Set::<int>::empty();
    if length == 0 {
        assert(!m.accepting_set(none));
    } else {
        lemma_words_with_none(m, length, 0);
    }
}

/// From no state, no word that begins with a symbol from `x` on leads to
/// an accepting state.
pub proof fn lemma_words_with_none(m: NfaModel, length: nat, x: int)
    requires
        length > 0,
        0 <= x,
    ensures
        words_with(m, Set::empty(), length, x) == Seq::<Seq<int>>::empty(),
    decreases length, 0nat, m.alphabet.len() - x,
{
    let none = Set::<int>::empty();
    if x < m.alphabet.len() {
        assert(m.moved(none, x) =~= none);
        assert(m.closure(none) =~= none);
        assert(m.closure(m.moved(none, x)) == none);
        lemma_words_from_none(m, (length - 1) as nat);
        lemma_words_with_none(m, length, x + 1);
        let shorter = words_from(m, none, (length - 1) as nat);
        assert(each_after(x, shorter) =~= Seq::<Seq<int>>::empty());
        assert(words_with(m, none, length, x) =~= Seq::<Seq<int>>::empty());
    }
}

/// The list holds exactly the words of its length that lead to an
/// accepting state.
pub proof fn lemma_words_from_holds(m: NfaModel, set: Set<int>, length: nat, word: Seq<int>)
    requires
        m.wf(),
    ensures
        words_from(m, set, length).contains(word) <==> (word.len() == length && is_index_word(
            m,
            word,
        ) && m.accepting_set(run_indices(m, set, word))),
    decreases length, 1nat, 0nat,
{
    let list = words_from(m, set, length);
    if length == 0 {
        if m.accepting_set(set) {
            assert(list[0] == Seq::<int>::empty());
            if word.len() == 0 {
                assert(word =~= Seq::<int>::empty());
            }
        }
        if list.contains(word) {
            let i = choose|i: int| 0 <= i < list.len() && list[i] == word;
        }
    } else {
        lemma_words_with_holds(m, set, length, 0, word);
    }
}

/// The list holds exactly the words of its length that begin with a symbol
/// from `x` on and lead to an accepting state.
pub proof fn lemma_words_with_holds(
    m: NfaModel,
    set: Set<int>,
    length: nat,
    x: int,
    word: Seq<int>,
)
    requires
        m.wf(),
        length > 0,
        0 <= x,
    ensures
        words_with(m, set, length, x).contains(word) <==> (word.len() == length && is_index_word(
            m,
            word,
        ) && x <= word[0] && m.accepting_set(run_indices(m, set, word))),
    decreases length, 0nat, m.alphabet.len() - x,
{
    let list = words_with(m, set, length, x);
    if x < m.alphabet.len() {
        let next = m.closure(m.moved(set, x));
        let shorter = words_from(m, next, (length - 1) as nat);
        let first = each_after(x, shorter);
        let more = words_with(m, set, length, x + 1);
        lemma_words_with_holds(m, set, length, x + 1, word);
        if word.len() > 0 {
            lemma_words_from_holds(m, next, (length - 1) as nat, word.drop_first());
        }
        if list.contains(word) {
            let i = choose|i: int| 0 <= i < list.len() && list[i] == word;
            if i < first.len() {
                let w = shorter[i];
                assert(word == seq![x] + w);
                assert(word.drop_first() =~= w);
                assert(shorter.contains(word.drop_first()));
                assert(is_index_word(m, word)) by {
                    assert forall|j: int| 0 <= j < word.len() implies 0 <= #[trigger] word[j]
                        < m.alphabet.len() by {
                        if j > 0 {
                            assert(word[j] == word.drop_first()[j - 1]);
                        }
                    }
                }
            } else {
                assert(more[i - first.len()] == word);
                assert(more.contains(word));
            }
        }
        if word.len() == length && is_index_word(m, word) && x <= word[0] && m.accepting_set(
            run_indices(m, set, word),
        ) {
            if word[0] == x {
                assert(is_index_word(m, word.drop_first())) by {
                    assert forall|j: int| 0 <= j < word.drop_first().len() implies 0
                        <= #[trigger] word.drop_first()[j] < m.alphabet.len() by {
                        assert(word.drop_first()[j] == word[j + 1]);
                    }
                }
                assert(shorter.contains(word.drop_first()));
                let i = choose|i: int| 0 <= i < shorter.len() && shorter[i] == word.drop_first();
                assert(first[i] =~= word);
                assert(list[i] == word);
            } else {
                assert(more.contains(word));
                let i = choose|i: int| 0 <= i < more.len() && more[i] == word;
                assert(list[first.len() + i] == word);
            }
        }
    } else {
        if word.len() == length && is_index_word(m, word) && x <= word[0] {
            assert(0 <= word[0] < m.alphabet.len());
        }
    }
}

/// The words of the list stand in rising order.
pub proof fn lemma_words_from_rise(m: NfaModel, set: Set<int>, length: nat, i: int, j: int)
    requires
        m.wf(),
        0 <= i < j < words_from(m, set, length).len(),
    ensures
        before(words_from(m, set, length)[i], words_from(m, set, length)[j]),
    decreases length, 1nat, 0nat,
{
    if length > 0 {
        lemma_words_with_rise(m, set, length, 0, i, j);
    }
}

/// The words of the list stand in rising order.
pub proof fn lemma_words_with_rise(
    m: NfaModel,
    set: Set<int>,
    length: nat,
    x: int,
    i: int,
    j: int,
)
    requires
        m.wf(),
        length > 0,
        0 <= x,
        0 <= i < j < words_with(m, set, length, x).len(),
    ensures
        before(words_with(m, set, length, x)[i], words_with(m, set, length, x)[j]),
    decreases length, 0nat, m.alphabet.len() - x,
{
    let list = words_with(m, set, length, x);
    if x < m.alphabet.len() {
        let next = m.closure(m.moved(set, x));
        let shorter = words_from(m, next, (length - 1) as nat);
        let first = each_after(x, shorter);
        let more = words_with(m, set, length, x + 1);
        if j < first.len() {
            lemma_words_from_rise(m, next, (length - 1) as nat, i, j);
            assert(list[i] == seq![x] + shorter[i]);
            assert(list[j] == seq![x] + shorter[j]);
            assert(list[i].drop_first() =~= shorter[i]);
            assert(list[j].drop_first() =~= shorter[j]);
        } else if i >= first.len() {
            lemma_words_with_rise(m, set, length, x + 1, i - first.len(), j - first.len());
        } else {
            assert(list[i] == seq![x] + shorter[i]);
            assert(more[j - first.len()] == list[j]);
            assert(more.contains(list[j]));
            lemma_words_with_holds(m, set, length, x + 1, list[j]);
            assert(list[i][0] == x);
        }
    }
}

/// What the lists of accepted words are: the list for one length holds
/// exactly the accepted words of that length, each once, in rising order.
pub proof fn law_words(m: NfaModel, length: nat, word: Seq<int>, i: int, j: int)
    requires
        m.wf(),
    ensures
        words_from(m, m.start(), length).contains(word) <==> (word.len() == length
            && is_index_word(m, word) && m.accepts(tokens_at(m, word))),
        0 <= i < j < words_from(m, m.start(), length).len() ==> before(
            words_from(m, m.start(), length)[i],
            words_from(m, m.start(), length)[j],
        ),
{
    lemma_words_from_holds(m, m.start(), length, word);
    if is_index_word(m, word) {
        lemma_run_indices(m, m.start(), word);
    }
    if 0 <= i < j < words_from(m, m.start(), length).len() {
        lemma_words_from_rise(m, m.start(), length, i, j);
    }
}

/// The words of an automaton and of one that accepts what the first
/// rejects: a word over the alphabet stands in exactly one of the two
/// lists for its length.
pub proof fn law_words_complete(a: NfaModel, b: NfaModel, word: Seq<int>)
    requires
        a.wf(),
        b.wf(),
        a.alphabet == b.alphabet,
        is_index_word(a, word),
        forall|w: Seq<Seq<char>>|
            crate::dfa::product::word_over(a.alphabet, w) ==> a.accepts(w) != #[trigger] b.accepts(
                w,
            ),
    ensures
        words_from(a, a.start(), word.len()).contains(word) != words_from(
            b,
            b.start(),
            word.len(),
        ).contains(word),
{
    law_words(a, word.len(), word, 0, 0);
    law_words(b, word.len(), word, 0, 0);
    let tokens = tokens_at(a, word);
    assert(tokens =~= tokens_at(b, word));
    assert(crate::dfa::product::word_over(a.alphabet, tokens)) by {
        assert forall|i: int| 0 <= i < tokens.len() implies a.alphabet.contains(
            #[trigger] tokens[i],
        ) by {
            assert(a.alphabet[word[i]] == tokens[i]);
        }
    }
    assert(a.accepts(tokens) != b.accepts(tokens));
}

/// The first `limit` items of the list; the list where it has no more.
pub open spec fn first_of(list: Seq<Seq<int>>, limit: int) -> Seq<Seq<int>> {
    if 0 <= limit < list.len() {
        list.take(limit)
    } else {
        list
    }
}

/// The words with `prefix` before each word of the list.
pub open spec fn each_behind(prefix: Seq<int>, words: Seq<Seq<int>>) -> Seq<Seq<int>> {
    words.map_values(|w: Seq<int>| prefix + w)
}

/// The words that lists of positions stand for.
pub open spec fn index_lists(words: Seq<Vec<usize>>) -> Seq<Seq<int>> {
    words.map_values(|w: Vec<usize>| w@.map_values(|x: usize| x as int))
}

/// Taking the first items of a list that was cut to as many items is
/// taking the first items of the whole list.
pub proof fn lemma_first_of(a: Seq<Seq<int>>, b: Seq<Seq<int>>, limit: int)
    requires
        0 <= limit,
    ensures
        first_of(first_of(a, limit) + b, limit) == first_of(a + b, limit),
{
    assert(first_of(first_of(a, limit) + b, limit) =~= first_of(a + b, limit));
}

/// The symbols of the first `upto` positions of a word, one after the
/// other.
pub open spec fn spelled(m: NfaModel, word: Seq<int>, upto: int) -> Seq<char>
    decreases upto,
{
    if upto <= 0 {
        Seq::empty()
    } else {
        spelled(m, word, upto - 1) + m.alphabet[word[upto - 1]]
    }
}

impl Nfa {
    /// Adds to `out` the accepted continuations of `prefix` by `length`
    /// symbols, as long as `out` holds fewer than `limit` words.
    #[verifier::loop_isolation(false)]
    #[verifier::rlimit(50)]
    fn collect_words(
        &self,
        epsilon: &Vec<Vec<usize>>,
        set: &Vec<bool>,
        length: usize,
        prefix: &mut Vec<usize>,
        out: &mut Vec<Vec<usize>>,
        limit: usize,
    )
        requires
            graph_of(epsilon@) == self@.epsilon_graph(),
            graph_wf(graph_of(epsilon@)),
            epsilon.len() == self@.states.len(),
            set.len() == self@.states.len(),
            old(out).len() <= limit,
        ensures
            final(prefix)@ == old(prefix)@,
            final(out).len() <= limit,
            index_lists(final(out)@) == first_of(
                index_lists(old(out)@) + each_behind(
                    old(prefix)@.map_values(|x: usize| x as int),
                    words_from(self@, marked(set@), length as nat),
                ),
                limit as int,
            ),
        decreases length,
    {
        let ghost m = self@;
        let ghost before = index_lists(out@);
        let ghost lead = prefix@.map_values(|x: usize| x as int);
        let ghost all = words_from(m, marked(set@), length as nat);
        let symbols = self.symbol_count();
        if out.len() >= limit {
            assert(first_of(before + each_behind(lead, all), limit as int) =~= before);
            return ;
        }
        if length == 0 {
            if self.any_accepting(set) {
                let word = crate::alphabet::clone_indices(prefix.as_slice());
                out.push(word);
                proof {
                    assert(lead + Seq::<int>::empty() =~= lead);
                    assert(each_behind(lead, all) =~= seq![lead]);
                    assert(index_lists(out@) =~= before + each_behind(lead, all));
                }
            } else {
                assert(before + each_behind(lead, all) =~= before);
            }
            return ;
        }
        let mut any: bool = false;
        let mut q: usize = 0;
        while q < set.len()
            invariant
                q <= set.len(),
                any == exists|p: int| 0 <= p < q && set[p],
            decreases set.len() - q,
        {
            if set[q] {
                any = true;
            }
            q += 1;
        }
        if !any {
            proof {
                assert(marked(set@) =~= Set::<int>::empty());
                lemma_words_from_none(m, length as nat);
                assert(before + each_behind(lead, all) =~= before);
            }
            return ;
        }
        let ghost mut done: Seq<Seq<int>> = Seq::empty();
        let mut x: usize = 0;
        assert(before + each_behind(lead, done) =~= before);
        while x < symbols
            invariant
                x <= symbols,
                prefix@ == old(prefix)@,
                out.len() <= limit,
                done + words_with(m, marked(set@), length as nat, x as int) == all,
                index_lists(out@) == first_of(before + each_behind(lead, done), limit as int),
            decreases symbols - x,
        {
            let after = self.moved(set, x);
            let next = reach(epsilon, &after);
            let ghost shorter = words_from(m, marked(next@), (length - 1) as nat);
            let ghost so_far = index_lists(out@);
            prefix.push(x);
            let ghost longer = prefix@.map_values(|y: usize| y as int);
            assert(longer =~= lead.push(x as int));
            self.collect_words(epsilon, &next, length - 1, prefix, out, limit);
            prefix.pop();
            assert(prefix@ =~= old(prefix)@);
            proof {
                let these = each_after(x as int, shorter);
                assert(each_behind(longer, shorter) =~= each_behind(lead, these)) by {
                    assert forall|i: int| 0 <= i < shorter.len() implies each_behind(
                        longer,
                        shorter,
                    )[i] == each_behind(lead, these)[i] by {
                        assert(longer + shorter[i] =~= lead + (seq![x as int] + shorter[i]));
                    }
                }
                lemma_first_of(before + each_behind(lead, done), each_behind(lead, these), limit as int);
                assert(before + each_behind(lead, done) + each_behind(lead, these) =~= before
                    + each_behind(lead, done + these));
                assert(done + (these + words_with(m, marked(set@), length as nat, x + 1))
                    =~= (done + these) + words_with(m, marked(set@), length as nat, x + 1));
                done = done + these;
            }
            x += 1;
        }
        assert(done + Seq::<Seq<int>>::empty() =~= done);
    }

    /// The first `limit` of the words of at most `max_length` symbols that
    /// the automaton accepts, each as the positions of its symbols in the
    /// alphabet. Shorter words stand before longer ones, and words of one
    /// length in the order that the alphabet gives.
    #[verifier::loop_isolation(false)]
    #[verifier::rlimit(50)]
    pub fn word_component_indices(&self, max_length: usize, limit: usize) -> (words: Vec<
        Vec<usize>,
    >)
        ensures
            index_lists(words@) == first_of(words_below(self@, max_length + 1), limit as int),
    {
        let epsilon = self.epsilon_lists();
        let start = self.start(&epsilon);
        let ghost m = self@;
        let mut words: Vec<Vec<usize>> = Vec::new();
        let mut prefix: Vec<usize> = Vec::new();
        let mut length: usize = 0;
        let mut finished: bool = false;
        assert(index_lists(words@) =~= first_of(words_below(m, 0), limit as int));
        while !finished
            invariant
                length <= max_length,
                prefix@.len() == 0,
                words.len() <= limit,
                !finished ==> index_lists(words@) == first_of(
                    words_below(m, length as int),
                    limit as int,
                ),
                finished ==> index_lists(words@) == first_of(
                    words_below(m, max_length + 1),
                    limit as int,
                ),
            decreases
                    max_length - length + if finished {
                        0int
                    } else {
                        1int
                    },
        {
            let ghost before = index_lists(words@);
            self.collect_words(&epsilon, &start, length, &mut prefix, &mut words, limit);
            proof {
                let these = words_from(m, m.start(), length as nat);
                let lead = prefix@.map_values(|x: usize| x as int);
                assert(each_behind(lead, these) =~= these) by {
                    assert forall|i: int| 0 <= i < these.len() implies each_behind(lead, these)[i]
                        == these[i] by {
                        assert(lead + these[i] =~= these[i]);
                    }
                }
                lemma_first_of(words_below(m, length as int), these, limit as int);
            }
            if length == max_length {
                finished = true;
            } else {
                length += 1;
            }
        }
        words
    }

    /// The first `limit` of the words of at most `max_length` symbols that
    /// the automaton accepts, each as the text of its symbols one after
    /// the other.
    #[verifier::loop_isolation(false)]
    #[verifier::rlimit(50)]
    pub fn words(&self, max_length: usize, limit: usize) -> (words: Vec<String>)
        ensures
            words.len() == first_of(words_below(self@, max_length + 1), limit as int).len(),
            forall|i: int|
                0 <= i < words.len() ==> (#[trigger] words[i])@ == spelled(
                    self@,
                    first_of(words_below(self@, max_length + 1), limit as int)[i],
                    first_of(words_below(self@, max_length + 1), limit as int)[i].len() as int,
                ),
    {
        let lists = self.word_component_indices(max_length, limit);
        let alphabet = self.alphabet();
        let symbols = self.symbol_count();
        let ghost m = self@;
        let ghost all = first_of(words_below(m, max_length + 1), limit as int);
        let mut words: Vec<String> = Vec::new();
        let mut i: usize = 0;
        while i < lists.len()
            invariant
                i <= lists.len(),
                words.len() == i,
                forall|j: int|
                    0 <= j < i ==> (#[trigger] words[j])@ == spelled(m, all[j], all[j].len() as int),
            decreases lists.len() - i,
        {
            let list = &lists[i];
            assert(all[i as int] == list@.map_values(|x: usize| x as int));
            let mut text: String = String::new();
            let mut k: usize = 0;
            while k < list.len()
                invariant
                    k <= list.len(),
                    text@ == spelled(m, all[i as int], k as int),
                decreases list.len() - k,
            {
                assert(all[i as int][k as int] == list[k as int]);
                if list[k] < symbols {
                    assert(m.alphabet[list[k as int] as int] == alphabet[list[k as int] as int]@);
                    text.append(alphabet[list[k]].as_str());
                } else {
                    proof {
                        lemma_below_are_words(m, max_length + 1, limit as int, i as int);
                    }
                }
                k += 1;
            }
            words.push(text);
            i += 1;
        }
        words
    }
}

/// The accepted words of fewer than `bound` symbols are words over the
/// alphabet.
pub proof fn lemma_below_are_words(m: NfaModel, bound: int, limit: int, i: int)
    requires
        m.wf(),
        0 <= i < first_of(words_below(m, bound), limit).len(),
    ensures
        is_index_word(m, first_of(words_below(m, bound), limit)[i]),
    decreases bound,
{
    let all = words_below(m, bound);
    assert(first_of(all, limit)[i] == all[i]);
    if bound > 0 {
        let shorter = words_below(m, bound - 1);
        let these = words_from(m, m.start(), (bound - 1) as nat);
        if i < shorter.len() {
            lemma_below_are_words(m, bound - 1, shorter.len() as int, i);
        } else {
            assert(all[i] == these[i - shorter.len()]);
            assert(these.contains(all[i]));
            lemma_words_from_holds(m, m.start(), (bound - 1) as nat, all[i]);
        }
    }
}

} // verus!
