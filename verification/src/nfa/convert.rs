//! From a nondeterministic automaton to a deterministic one and back.

use vstd::prelude::*;
use vstd::arithmetic::power2::pow2;
use crate::alphabet::{symbol_position, lemma_symbol_position, clone_strings};
use crate::counting::{flags_of, lemma_distinct_rows, rank};
use crate::dfa::{Dfa, DfaModel, DfaState, DfaStateModel, dfa_model, lemma_run_in_range};
use crate::graph::{graph_of, graph_wf, marked, reach, reaches, is_path};
use crate::nfa::{Nfa, NfaModel, NfaState, NfaStateModel, nfa_model, targets_of};
use crate::nfa::run::lemma_run_of_none;

verus! {

/// Reading `u` and then `v` is reading `u + v`.
pub proof fn lemma_nfa_run_concat(m: NfaModel, set: Set<int>, u: Seq<Seq<char>>, v: Seq<Seq<char>>)
    ensures
        m.run(set, u + v) == m.run(m.run(set, u), v),
    decreases u.len(),
{
    if u.len() == 0 {
        assert(u + v =~= v);
    } else {
        assert((u + v)[0] == u[0]);
        assert((u + v).drop_first() =~= u.drop_first() + v);
        lemma_nfa_run_concat(m, m.step(set, u[0]), u.drop_first(), v);
    }
}

/// Reading a word and then the symbol at position `x` leads to the states
/// that the symbol leads to from the states that the word leads to.
pub proof fn lemma_nfa_run_one_more(m: NfaModel, set: Set<int>, word: Seq<Seq<char>>, x: int)
    requires
        m.wf(),
        0 <= x < m.alphabet.len(),
    ensures
        m.run(set, word.push(m.alphabet[x])) == m.closure(m.moved(m.run(set, word), x)),
{
    let token = m.alphabet[x];
    lemma_nfa_run_concat(m, set, word, seq![token]);
    assert(word + seq![token] =~= word.push(token));
    lemma_symbol_position(m.alphabet, token, x);
    let after = m.run(set, word);
    assert(seq![token].drop_first() =~= Seq::<Seq<char>>::empty());
    assert(m.run(m.step(after, token), Seq::<Seq<char>>::empty()) == m.step(after, token));
    assert(m.run(after, seq![token]) == m.step(after, token));
}

/// The names of the marked states among the first `upto`, separated by
/// commas.
pub open spec fn joined_names(m: NfaModel, flags: Seq<bool>, upto: int) -> Seq<char>
    decreases upto,
{
    if upto <= 0 {
        Seq::empty()
    } else {
        let before = joined_names(m, flags, upto - 1);
        if !flags[upto - 1] {
            before
        } else if rank(flags, upto - 1) > 0 {
            before + seq![','] + m.states[upto - 1].name
        } else {
            before + m.states[upto - 1].name
        }
    }
}

/// The name of a set of states: the names of its states in the order of
/// the states, separated by commas, in braces.
pub open spec fn set_name(m: NfaModel, flags: Seq<bool>) -> Seq<char> {
    seq!['{'] + joined_names(m, flags, flags.len() as int) + seq!['}']
}

/// Whether `d` is the automaton of the sets `sets` of states of `n`: its
/// initial state is the set in which `n` starts, and each symbol leads
/// from a set to the set of the states that it leads to from the states of
/// the set. A set is accepting where it holds an accepting state.
pub open spec fn is_subset_automaton(d: DfaModel, n: NfaModel, sets: Seq<Seq<bool>>) -> bool {
    &&& d.alphabet == n.alphabet
    &&& sets.len() == d.states.len()
    &&& d.initial == 0
    &&& forall|k: int| 0 <= k < sets.len() ==> (#[trigger] sets[k]).len() == n.states.len()
    &&& marked(sets[0]) == n.start()
    &&& forall|j: int, k: int| 0 <= j < k < sets.len() ==> sets[j] != sets[k]
    &&& forall|k: int, x: int|
        0 <= k < sets.len() && 0 <= x < d.alphabet.len() ==> marked(
            sets[#[trigger] d.states[k].transitions[x]],
        ) == n.closure(n.moved(marked(sets[k]), x))
    &&& forall|k: int|
        0 <= k < sets.len() ==> (#[trigger] d.states[k]).accepting == n.accepting_set(
            marked(sets[k]),
        ) && d.states[k].name == set_name(n, sets[k])
}

/// A run of the automaton of sets ends in the set of the states in which
/// the runs of the nondeterministic automaton can end.
pub proof fn lemma_subset_run(
    d: DfaModel,
    n: NfaModel,
    sets: Seq<Seq<bool>>,
    k: int,
    word: Seq<Seq<char>>,
)
    requires
        d.wf(),
        n.wf(),
        is_subset_automaton(d, n, sets),
        0 <= k < sets.len(),
    ensures
        match d.run(k, word) {
            Some(end) => 0 <= end < sets.len() && marked(sets[end]) == n.run(
                marked(sets[k]),
                word,
            ),
            None => n.run(marked(sets[k]), word) == Set::<int>::empty(),
        },
    decreases word.len(),
{
    if word.len() > 0 {
        match symbol_position(d.alphabet, word[0]) {
            Some(x) => {
                lemma_symbol_position(d.alphabet, word[0], x);
                lemma_subset_run(d, n, sets, d.states[k].transitions[x], word.drop_first());
            },
            None => {
                lemma_run_of_none(n, word.drop_first());
            },
        }
    }
}

/// The automaton of sets accepts what the nondeterministic automaton
/// accepts.
pub proof fn lemma_subset_accepts(d: DfaModel, n: NfaModel, sets: Seq<Seq<bool>>)
    requires
        d.wf(),
        n.wf(),
        is_subset_automaton(d, n, sets),
    ensures
        forall|word: Seq<Seq<char>>| d.accepts(word) == n.accepts(word),
{
    assert forall|word: Seq<Seq<char>>| d.accepts(word) == n.accepts(word) by {
        lemma_subset_run(d, n, sets, 0, word);
        assert(!n.accepting_set(Set::<int>::empty()));
    }
}

/// Whether the two rows hold the same flags.
fn same_flags(a: &Vec<bool>, b: &Vec<bool>) -> (same: bool)
    ensures
        same == (a@ == b@),
{
    if a.len() != b.len() {
        return false;
    }
    let mut i: usize = 0;
    while i < a.len()
        invariant
            a.len() == b.len(),
            i <= a.len(),
            forall|j: int| 0 <= j < i ==> a[j] == b[j],
        decreases a.len() - i,
    {
        if a[i] != b[i] {
            return false;
        }
        i += 1;
    }
    assert(a@ =~= b@);
    true
}

/// The place of `row` among `rows`.
fn find_row(rows: &Vec<Vec<bool>>, row: &Vec<bool>) -> (found: Option<usize>)
    ensures
        found matches Some(at) ==> at < rows.len() && rows[at as int]@ == row@,
        found is None ==> forall|k: int| 0 <= k < rows.len() ==> (#[trigger] rows[k])@ != row@,
{
    let mut k: usize = 0;
    while k < rows.len()
        invariant
            k <= rows.len(),
            forall|j: int| 0 <= j < k ==> (#[trigger] rows[j])@ != row@,
        decreases rows.len() - k,
    {
        if same_flags(&rows[k], row) {
            return Some(k);
        }
        k += 1;
    }
    None
}

/// A copy of a row of flags.
fn clone_flags(row: &Vec<bool>) -> (copy: Vec<bool>)
    ensures
        copy@ == row@,
{
    let mut copy: Vec<bool> = Vec::new();
    let mut i: usize = 0;
    while i < row.len()
        invariant
            i <= row.len(),
            copy.len() == i,
            forall|j: int| 0 <= j < i ==> copy[j] == row[j],
        decreases row.len() - i,
    {
        copy.push(row[i]);
        i += 1;
    }
    assert(copy@ =~= row@);
    copy
}

impl Nfa {
    /// The name of a set of states.
    fn name_of_set(&self, set: &Vec<bool>) -> (name: String)
        requires
            set.len() == self@.states.len(),
        ensures
            name@ == set_name(self@, set@),
    {
        let states = self.states();
        let ghost m = self@;
        let mut name: String = String::new();
        proof {
            reveal_strlit("{");
            reveal_strlit(",");
            reveal_strlit("}");
        }
        name.append("{");
        let mut any: bool = false;
        let mut q: usize = 0;
        assert(set@.take(0) =~= Seq::<bool>::empty());
        while q < states.len()
            invariant
                m == self@,
                states@.map_values(|s: NfaState| s@) == m.states,
                set.len() == m.states.len(),
                q <= states.len(),
                any == (rank(set@, q as int) > 0),
                name@ == seq!['{'] + joined_names(m, set@, q as int),
            decreases states.len() - q,
        {
            assert(set@.take(q + 1).drop_last() =~= set@.take(q as int));
            proof {
                reveal_strlit(",");
            }
            if set[q] {
                let ghost before = name@;
                if any {
                    name.append(",");
                }
                assert(m.states[q as int] == states[q as int]@);
                name.append(states[q].name());
                any = true;
                assert(name@ =~= seq!['{'] + joined_names(m, set@, q + 1));
            }
            q += 1;
        }
        name.append("}");
        name
    }

    /// The deterministic automaton of the sets of states in which this
    /// automaton can be: it accepts the same words. Only the sets that are
    /// reached from the set in which the automaton starts are states.
    pub fn to_dfa(&self) -> (dfa: Dfa)
        ensures
            self@.wf(),
            dfa@.wf(),
            dfa@.alphabet == self@.alphabet,
            forall|word: Seq<Seq<char>>| dfa@.accepts(word) == self@.accepts(word),
            forall|k: int| 0 <= k < dfa@.states.len() ==> dfa@.reachable(k),
            exists|sets: Seq<Seq<bool>>| is_subset_automaton(dfa@, self@, sets),
    {
        let count = self.state_count();
        let symbols = self.symbol_count();
        let epsilon = self.epsilon_lists();
        let ghost m = self@;
        let start = self.start(&epsilon);
        let mut subsets: Vec<Vec<bool>> = Vec::new();
        subsets.push(start);
        let ghost mut words: Seq<Seq<Seq<char>>> = seq![Seq::empty()];
        assert(m.run(m.start(), Seq::<Seq<char>>::empty()) == m.start());
        let mut built: Vec<DfaState> = Vec::new();
        let mut head: usize = 0;
        while head < subsets.len()
            invariant
                m == self@,
                m.wf(),
                count == m.states.len(),
                symbols == m.alphabet.len(),
                graph_of(epsilon@) == m.epsilon_graph(),
                graph_wf(graph_of(epsilon@)),
                epsilon.len() == count,
                subsets.len() >= 1,
                marked(subsets[0]@) == m.start(),
                words.len() == subsets.len(),
                head <= subsets.len(),
                built.len() == head,
                forall|k: int|
                    0 <= k < subsets.len() ==> (#[trigger] subsets[k]).len() == count && marked(
                        subsets[k]@,
                    ) == m.run(m.start(), words[k]) && crate::dfa::product::word_over(
                        m.alphabet,
                        words[k],
                    ),
                forall|j: int, k: int|
                    0 <= j < k < subsets.len() ==> (#[trigger] subsets[j])@ != (
                    #[trigger] subsets[k])@,
                forall|k: int|
                    0 <= k < head ==> {
                        &&& (#[trigger] built[k])@.accepting == m.accepting_set(
                            marked(subsets[k]@),
                        )
                        &&& built[k]@.name == set_name(m, subsets[k]@)
                        &&& built[k]@.initial == (k == 0)
                        &&& built[k]@.transitions.len() == symbols
                        &&& forall|x: int|
                            0 <= x < symbols ==> 0 <= #[trigger] built[k]@.transitions[x]
                                < subsets.len() && marked(subsets[built[k]@.transitions[x]]@)
                                == m.closure(m.moved(marked(subsets[k]@), x))
                    },
            decreases pow2(count as nat) - head,
        {
            proof {
                let rows = flags_of(subsets@);
                assert forall|i: int| 0 <= i < rows.len() implies (#[trigger] rows[i]).len()
                    == count as nat by {
                    assert(rows[i] == subsets[i]@);
                }
                assert forall|i: int, j: int| 0 <= i < j < rows.len() implies rows[i]
                    != rows[j] by {
                    assert(rows[i] == subsets[i]@ && rows[j] == subsets[j]@);
                }
                lemma_distinct_rows(rows, count as nat);
            }
            let current = clone_flags(&subsets[head]);
            let ghost word = words[head as int];
            let mut row: Vec<usize> = Vec::new();
            let mut x: usize = 0;
            while x < symbols
                invariant
                    m == self@,
                    m.wf(),
                    count == m.states.len(),
                    symbols == m.alphabet.len(),
                    graph_of(epsilon@) == m.epsilon_graph(),
                    graph_wf(graph_of(epsilon@)),
                    epsilon.len() == count,
                    subsets.len() >= 1,
                    marked(subsets[0]@) == m.start(),
                    words.len() == subsets.len(),
                    head < subsets.len(),
                    current@ == subsets[head as int]@,
                    current.len() == count,
                    marked(current@) == m.run(m.start(), word),
                    built.len() == head,
                    crate::dfa::product::word_over(m.alphabet, word),
                    forall|k: int|
                        0 <= k < subsets.len() ==> (#[trigger] subsets[k]).len() == count
                            && marked(subsets[k]@) == m.run(m.start(), words[k])
                            && crate::dfa::product::word_over(m.alphabet, words[k]),
                    forall|j: int, k: int|
                        0 <= j < k < subsets.len() ==> (#[trigger] subsets[j])@ != (
                        #[trigger] subsets[k])@,
                    forall|k: int|
                        0 <= k < head ==> {
                            &&& (#[trigger] built[k])@.accepting == m.accepting_set(
                                marked(subsets[k]@),
                            )
                            &&& built[k]@.name == set_name(m, subsets[k]@)
                            &&& built[k]@.initial == (k == 0)
                            &&& built[k]@.transitions.len() == symbols
                            &&& forall|x: int|
                                0 <= x < symbols ==> 0 <= #[trigger] built[k]@.transitions[x]
                                    < subsets.len() && marked(subsets[built[k]@.transitions[x]]@)
                                    == m.closure(m.moved(marked(subsets[k]@), x))
                        },
                    x <= symbols,
                    row.len() == x,
                    forall|y: int|
                        0 <= y < x ==> (#[trigger] row[y]) < subsets.len() && marked(
                            subsets[row[y] as int]@,
                        ) == m.closure(m.moved(marked(current@), y)),
                decreases symbols - x,
            {
                let after = self.moved(&current, x);
                let closed = reach(&epsilon, &after);
                let at = match find_row(&subsets, &closed) {
                    Some(at) => at,
                    None => {
                        let ghost old_subsets = subsets@;
                        let at = subsets.len();
                        subsets.push(closed);
                        proof {
                            lemma_nfa_run_one_more(m, m.start(), word, x as int);
                            words = words.push(word.push(m.alphabet[x as int]));
                            assert(crate::dfa::product::word_over(
                                m.alphabet,
                                word.push(m.alphabet[x as int]),
                            )) by {
                                let longer = word.push(m.alphabet[x as int]);
                                assert forall|i: int| 0 <= i < longer.len() implies m.alphabet.contains(
                                    #[trigger] longer[i],
                                ) by {
                                    if i < word.len() {
                                        assert(longer[i] == word[i]);
                                    }
                                }
                            }
                            assert forall|k: int| 0 <= k < subsets.len() implies (
                            #[trigger] subsets[k]).len() == count && marked(subsets[k]@) == m.run(
                                m.start(),
                                words[k],
                            ) && crate::dfa::product::word_over(m.alphabet, words[k]) by {
                                if k < at {
                                    assert(subsets[k] == old_subsets[k]);
                                }
                            }
                            assert forall|j: int, k: int|
                                0 <= j < k < subsets.len() implies (#[trigger] subsets[j])@ != (
                            #[trigger] subsets[k])@ by {
                                if k < at {
                                    assert(subsets[j] == old_subsets[j]);
                                    assert(subsets[k] == old_subsets[k]);
                                } else {
                                    assert(subsets[j] == old_subsets[j]);
                                }
                            }
                            assert forall|k: int| 0 <= k < head implies {
                                &&& (#[trigger] built[k])@.accepting == m.accepting_set(
                                    marked(subsets[k]@),
                                )
                                &&& built[k]@.name == set_name(m, subsets[k]@)
                                &&& built[k]@.initial == (k == 0)
                                &&& built[k]@.transitions.len() == symbols
                                &&& forall|x: int|
                                    0 <= x < symbols ==> 0 <= #[trigger] built[k]@.transitions[x]
                                        < subsets.len() && marked(
                                        subsets[built[k]@.transitions[x]]@,
                                    ) == m.closure(m.moved(marked(subsets[k]@), x))
                            } by {
                                assert(subsets[k] == old_subsets[k]);
                                assert forall|x: int| 0 <= x < symbols implies 0
                                    <= #[trigger] built[k]@.transitions[x] < subsets.len()
                                    && marked(subsets[built[k]@.transitions[x]]@) == m.closure(
                                    m.moved(marked(subsets[k]@), x),
                                ) by {
                                    let t = built[k]@.transitions[x];
                                    assert(subsets[t] == old_subsets[t]);
                                }
                            }
                            assert forall|y: int| 0 <= y < x implies (#[trigger] row[y])
                                < subsets.len() && marked(subsets[row[y] as int]@) == m.closure(
                                m.moved(marked(current@), y),
                            ) by {
                                assert(subsets[row[y] as int] == old_subsets[row[y] as int]);
                            }
                        }
                        at
                    },
                };
                row.push(at);
                x += 1;
            }
            let state = DfaState::from_parts(
                self.name_of_set(&current),
                head == 0,
                self.any_accepting(&current),
                row,
            );
            built.push(state);
            head += 1;
        }
        let letters = clone_strings(self.alphabet());
        proof {
            let d = dfa_model(letters@, built@, 0);
            let sets = flags_of(subsets@);
            assert forall|k: int| 0 <= k < d.states.len() implies (#[trigger] d.states[k]).initial
                == (k == d.initial) by {
                assert(d.states[k] == built[k]@);
            }
            assert forall|k: int|
                0 <= k < d.states.len() implies (#[trigger] d.states[k]).transitions.len()
                == d.alphabet.len() by {
                assert(d.states[k] == built[k]@);
            }
            assert forall|k: int, x: int|
                0 <= k < d.states.len() && 0 <= x < d.alphabet.len() implies 0
                <= #[trigger] d.states[k].transitions[x] < d.states.len() by {
                assert(d.states[k] == built[k]@);
            }
            assert(d.wf());
            assert(is_subset_automaton(d, m, sets)) by {
                assert forall|k: int| 0 <= k < sets.len() implies (#[trigger] sets[k]).len()
                    == m.states.len() by {
                    assert(sets[k] == subsets[k]@);
                }
                assert(sets[0] == subsets[0]@);
                assert forall|j: int, k: int| 0 <= j < k < sets.len() implies sets[j]
                    != sets[k] by {
                    assert(sets[j] == subsets[j]@ && sets[k] == subsets[k]@);
                }
                assert forall|k: int, x: int|
                    0 <= k < sets.len() && 0 <= x < d.alphabet.len() implies marked(
                    sets[#[trigger] d.states[k].transitions[x]],
                ) == m.closure(m.moved(marked(sets[k]), x)) by {
                    assert(d.states[k] == built[k]@);
                    let t = built[k]@.transitions[x];
                    assert(sets[t] == subsets[t]@);
                    assert(sets[k] == subsets[k]@);
                }
                assert forall|k: int| 0 <= k < sets.len() implies (
                #[trigger] d.states[k]).accepting == m.accepting_set(marked(sets[k]))
                    && d.states[k].name == set_name(m, sets[k]) by {
                    assert(d.states[k] == built[k]@);
                    assert(sets[k] == subsets[k]@);
                }
            }
            lemma_subset_accepts(d, m, sets);
            assert forall|k: int| 0 <= k < d.states.len() implies d.reachable(k) by {
                lemma_subset_run(d, m, sets, 0, words[k]);
                assert(sets[0] == subsets[0]@);
                assert(sets[k] == subsets[k]@);
                assert(subsets[k].len() == count);
                match d.run(0, words[k]) {
                    Some(end) => {
                        assert(sets[end] == subsets[end]@);
                        assert(subsets[end].len() == count);
                        assert(marked(subsets[end]@) == marked(subsets[k]@));
                        assert(subsets[end]@ =~= subsets[k]@) by {
                            assert forall|q: int| 0 <= q < count implies subsets[end]@[q]
                                == subsets[k]@[q] by {
                                assert(marked(subsets[end]@).contains(q) == marked(
                                    subsets[k]@,
                                ).contains(q));
                            }
                        }
                        if end < k {
                            assert(subsets[end]@ != subsets[k]@);
                        }
                        if k < end {
                            assert(subsets[k]@ != subsets[end]@);
                        }
                    },
                    None => {
                        crate::dfa::product::lemma_run_over(d, 0, words[k]);
                    },
                }
            }
        }
        Dfa::from_parts(letters, built, 0)
    }
}

/// The nondeterministic automaton that a deterministic one is: each symbol
/// leads to one state, and no move reads nothing.
pub open spec fn dfa_as_nfa(d: DfaModel) -> NfaModel {
    NfaModel {
        alphabet: d.alphabet,
        states: d.states.map_values(
            |s: DfaStateModel|
                NfaStateModel {
                    name: s.name,
                    initial: s.initial,
                    accepting: s.accepting,
                    epsilon_transitions: Seq::empty(),
                    transitions: s.transitions.map_values(|t: int| seq![t]),
                },
        ),
        initial: d.initial,
    }
}

/// Where no move reads nothing, a path of such moves is a single state.
pub proof fn lemma_no_epsilon_path(m: NfaModel, path: Seq<int>)
    requires
        !m.has_epsilon_moves(),
        is_path(m.epsilon_graph(), path),
    ensures
        path.len() == 1,
    decreases path.len(),
{
    if path.len() > 1 {
        let p = path[path.len() - 2];
        assert(m.epsilon_graph()[p] == m.states[p].epsilon_transitions);
        assert(m.states[p].epsilon_transitions.len() > 0);
    }
}

/// Where no move reads nothing, the moves that read nothing lead from a
/// set of states to that set.
pub proof fn lemma_no_epsilon_closure(m: NfaModel, set: Set<int>)
    requires
        !m.has_epsilon_moves(),
    ensures
        m.closure(set) == set,
{
    assert forall|q: int| m.closure(set).contains(q) implies set.contains(q) by {
        let p = choose|p: int| set.contains(p) && reaches(m.epsilon_graph(), p, q);
        let path = choose|path: Seq<int>|
            is_path(m.epsilon_graph(), path) && path[0] == p && path.last() == q;
        lemma_no_epsilon_path(m, path);
    }
    assert forall|q: int| set.contains(q) implies m.closure(set).contains(q) by {
        crate::graph::lemma_reaches_self(m.epsilon_graph(), q);
    }
    assert(m.closure(set) =~= set);
}

/// The set that holds the state in which a run of a deterministic
/// automaton ends, if it ends in one.
pub open spec fn end_set(end: Option<int>) -> Set<int> {
    match end {
        Some(p) => set![p],
        None => Set::empty(),
    }
}

/// The runs of a deterministic automaton, taken as a nondeterministic one,
/// end where its one run ends.
pub proof fn lemma_dfa_as_nfa_run(d: DfaModel, q: int, word: Seq<Seq<char>>)
    requires
        d.wf(),
        0 <= q < d.states.len(),
    ensures
        dfa_as_nfa(d).run(set![q], word) == end_set(d.run(q, word)),
        dfa_as_nfa(d).wf(),
        !dfa_as_nfa(d).has_epsilon_moves(),
    decreases word.len(),
{
    let n = dfa_as_nfa(d);
    assert(n.wf());
    assert(!n.has_epsilon_moves());
    if word.len() > 0 {
        match symbol_position(d.alphabet, word[0]) {
            Some(x) => {
                lemma_symbol_position(d.alphabet, word[0], x);
                let next = d.states[q].transitions[x];
                let moved = n.moved(set![q], x);
                assert(moved =~= set![next]) by {
                    assert(n.states[q].transitions[x] == seq![next]);
                    assert(seq![next][0] == next);
                    assert(n.states[q].transitions[x].contains(next));
                    assert(set![q].contains(q));
                }
                lemma_no_epsilon_closure(n, moved);
                lemma_dfa_as_nfa_run(d, next, word.drop_first());
            },
            None => {
                lemma_run_of_none(n, word.drop_first());
            },
        }
    }
}

/// A deterministic automaton, taken as a nondeterministic one, accepts the
/// same words.
pub proof fn law_dfa_as_nfa(d: DfaModel, word: Seq<Seq<char>>)
    requires
        d.wf(),
    ensures
        dfa_as_nfa(d).wf(),
        dfa_as_nfa(d).accepts(word) == d.accepts(word),
{
    let n = dfa_as_nfa(d);
    lemma_dfa_as_nfa_run(d, d.initial, word);
    lemma_no_epsilon_closure(n, set![d.initial]);
    lemma_run_in_range(d, d.initial, word);
    match d.run(d.initial, word) {
        Some(p) => {
            assert(set![p].contains(p));
        },
        None => {},
    }
}

/// From a deterministic automaton to a nondeterministic one and back: the
/// automaton of sets of the automaton accepts what the automaton accepts.
pub proof fn law_dfa_nfa_dfa(d: DfaModel, back: DfaModel, sets: Seq<Seq<bool>>)
    requires
        d.wf(),
        back.wf(),
        is_subset_automaton(back, dfa_as_nfa(d), sets),
    ensures
        d.equivalent(back),
        back.equivalent(d),
{
    assert forall|word: Seq<Seq<char>>| d.accepts(word) == back.accepts(word) by {
        law_dfa_as_nfa(d, word);
        lemma_subset_accepts(back, dfa_as_nfa(d), sets);
    }
}

/// From a nondeterministic automaton to a deterministic one and back: the
/// automaton of sets, taken as a nondeterministic automaton, accepts what
/// the automaton accepts.
pub proof fn law_nfa_dfa_nfa(n: NfaModel, d: DfaModel, sets: Seq<Seq<bool>>)
    requires
        n.wf(),
        d.wf(),
        is_subset_automaton(d, n, sets),
    ensures
        n.equivalent(dfa_as_nfa(d)),
        dfa_as_nfa(d).equivalent(n),
{
    assert forall|word: Seq<Seq<char>>| n.accepts(word) == dfa_as_nfa(d).accepts(word) by {
        law_dfa_as_nfa(d, word);
        lemma_subset_accepts(d, n, sets);
    }
}

impl Dfa {
    /// The automaton as a nondeterministic one: the same states, and for
    /// each symbol the one target. It accepts the same words.
    pub fn to_nfa(&self) -> (nfa: Nfa)
        ensures
            self@.wf(),
            nfa@ == dfa_as_nfa(self@),
            nfa@.wf(),
            forall|word: Seq<Seq<char>>| nfa@.accepts(word) == self@.accepts(word),
    {
        let count = self.state_count();
        let symbols = self.symbol_count();
        let states = self.states();
        let ghost m = self@;
        let mut built: Vec<NfaState> = Vec::new();
        let mut q: usize = 0;
        while q < count
            invariant
                m == self@,
                m.wf(),
                count == m.states.len(),
                symbols == m.alphabet.len(),
                states@.map_values(|s: DfaState| s@) == m.states,
                q <= count,
                built.len() == q,
                forall|p: int| 0 <= p < q ==> (#[trigger] built[p])@ == dfa_as_nfa(m).states[p],
            decreases count - q,
        {
            let mut row: Vec<Vec<usize>> = Vec::new();
            let mut x: usize = 0;
            while x < symbols
                invariant
                    m == self@,
                    m.wf(),
                    q < count,
                    count == m.states.len(),
                    symbols == m.alphabet.len(),
                    x <= symbols,
                    row.len() == x,
                    forall|y: int|
                        0 <= y < x ==> targets_of((#[trigger] row[y])@) == seq![
                            m.states[q as int].transitions[y],
                        ],
                decreases symbols - x,
            {
                let to = self.target(q, x);
                let mut list: Vec<usize> = Vec::new();
                list.push(to);
                assert(targets_of(list@) =~= seq![m.states[q as int].transitions[x as int]]);
                row.push(list);
                x += 1;
            }
            assert(m.states[q as int] == states[q as int]@);
            let state = NfaState::from_parts(
                states[q].name().to_owned(),
                states[q].is_initial(),
                states[q].is_accepting(),
                Vec::new(),
                row,
            );
            proof {
                let want = dfa_as_nfa(m).states[q as int];
                assert(state@.epsilon_transitions =~= want.epsilon_transitions);
                assert(state@.transitions =~= want.transitions);
            }
            built.push(state);
            q += 1;
        }
        let letters = clone_strings(self.alphabet());
        let initial = self.initial_state_index();
        proof {
            let n = nfa_model(letters@, built@, initial);
            assert(n.states =~= dfa_as_nfa(m).states);
            assert(n == dfa_as_nfa(m));
            assert forall|word: Seq<Seq<char>>| n.accepts(word) == m.accepts(word) by {
                law_dfa_as_nfa(m, word);
            }
            lemma_dfa_as_nfa_run(m, m.initial, Seq::empty());
        }
        Nfa::from_parts(letters, built, initial)
    }
}

impl Nfa {
    /// Whether the two automata accept the same words.
    pub fn equivalent_to(&self, other: &Nfa) -> (same: bool)
        ensures
            same == self@.equivalent(other@),
    {
        let first = self.to_dfa();
        let second = other.to_dfa();
        let same = first.equivalent_to(&second);
        proof {
            if same {
                assert forall|word: Seq<Seq<char>>|
                    self@.accepts(word) == other@.accepts(word) by {
                    assert(first@.accepts(word) == second@.accepts(word));
                }
            } else {
                let word = choose|word: Seq<Seq<char>>|
                    first@.accepts(word) != second@.accepts(word);
                assert(self@.accepts(word) != other@.accepts(word));
            }
        }
        same
    }
}

} // verus!
