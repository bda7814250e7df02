//! The states of a deterministic automaton that its initial state reaches.

use vstd::prelude::*;
use crate::alphabet::{symbol_position, lemma_symbol_position};
use crate::counting::{marks, lemma_marks_bound, lemma_marks_set, lemma_marks_none, clear_row};
use crate::dfa::{Dfa, DfaModel, lemma_run_concat, lemma_run_in_range};

verus! {

/// Reading a word and then one symbol more leads along the transition for
/// that symbol.
pub proof fn lemma_run_one_more(m: DfaModel, q: int, word: Seq<Seq<char>>, p: int, x: int)
    requires
        m.wf(),
        m.run(q, word) == Some(p),
        0 <= x < m.alphabet.len(),
    ensures
        m.run(q, word.push(m.alphabet[x])) == Some(m.states[p].transitions[x]),
{
    let token = m.alphabet[x];
    lemma_run_concat(m, q, word, seq![token]);
    assert(word + seq![token] =~= word.push(token));
    lemma_symbol_position(m.alphabet, token, x);
    assert(seq![token].drop_first() =~= Seq::<Seq<char>>::empty());
    assert(m.run(m.states[p].transitions[x], Seq::<Seq<char>>::empty()) == Some(
        m.states[p].transitions[x],
    ));
    assert(m.run(p, seq![token]) == Some(m.states[p].transitions[x]));
}

/// Whether the set holds, with each of its states, the states that follow
/// it.
pub open spec fn closed_under_steps(m: DfaModel, set: Seq<bool>) -> bool {
    &&& set.len() == m.states.len()
    &&& forall|q: int, x: int|
        0 <= q < m.states.len() && 0 <= x < m.alphabet.len() && set[q]
            ==> #[trigger] set[m.states[q].transitions[x]]
}

/// A run that starts inside a closed set ends inside it.
pub proof fn lemma_closed_run(m: DfaModel, set: Seq<bool>, q: int, word: Seq<Seq<char>>)
    requires
        m.wf(),
        closed_under_steps(m, set),
        0 <= q < m.states.len(),
        set[q],
    ensures
        m.run(q, word) matches Some(p) ==> 0 <= p < m.states.len() && set[p],
    decreases word.len(),
{
    if word.len() > 0 {
        if let Some(x) = symbol_position(m.alphabet, word[0]) {
            lemma_symbol_position(m.alphabet, word[0], x);
            let next = m.states[q].transitions[x];
            assert(set[next]);
            lemma_closed_run(m, set, next, word.drop_first());
        }
    }
}

/// Whether the flags mark exactly the states that the initial state
/// reaches.
pub open spec fn marks_reachable(m: DfaModel, flags: Seq<bool>) -> bool {
    &&& flags.len() == m.states.len()
    &&& forall|q: int| 0 <= q < m.states.len() ==> flags[q] == m.reachable(q)
}

impl Dfa {
    /// For each state, whether some word leads from the initial state to it.
    pub fn reachable_states(&self) -> (flags: Vec<bool>)
        ensures
            marks_reachable(self@, flags@),
            self@.wf(),
    {
        let count = self.state_count();
        let symbols = self.symbol_count();
        let initial = self.initial_state_index();
        let ghost m = self@;
        let mut flags = clear_row(count);
        let mut order: Vec<usize> = Vec::new();
        proof {
            lemma_marks_none(flags@);
            lemma_marks_set(flags@, initial as int);
            assert(m.run(m.initial, Seq::<Seq<char>>::empty()) == Some(m.initial));
        }
        flags.set(initial, true);
        order.push(initial);
        assert(order[0] == initial);
        let mut head: usize = 0;
        while head < order.len()
            invariant
                m == self@,
                m.wf(),
                count == m.states.len(),
                symbols == m.alphabet.len(),
                flags.len() == count,
                head <= order.len(),
                order.len() == marks(flags@),
                flags[m.initial],
                forall|j: int| 0 <= j < order.len() ==> (#[trigger] order[j]) < count,
                forall|j: int| 0 <= j < order.len() ==> flags[#[trigger] order[j] as int],
                forall|q: int| 0 <= q < count && #[trigger] flags[q] ==> m.reachable(q),
                forall|q: int|
                    0 <= q < count && #[trigger] flags[q] ==> exists|j: int|
                        0 <= j < order.len() && order[j] == q,
                forall|j: int, x: int|
                    0 <= j < head && 0 <= x < symbols
                        ==> #[trigger] flags[m.states[order[j] as int].transitions[x]],
            decreases count - head,
        {
            proof {
                lemma_marks_bound(flags@);
            }
            let from = order[head];
            let mut x: usize = 0;
            while x < symbols
                invariant
                    m == self@,
                    m.wf(),
                    count == m.states.len(),
                    symbols == m.alphabet.len(),
                    flags.len() == count,
                    head < order.len(),
                    from == order[head as int],
                    x <= symbols,
                    order.len() == marks(flags@),
                    flags[m.initial],
                    forall|j: int| 0 <= j < order.len() ==> (#[trigger] order[j]) < count,
                    forall|j: int| 0 <= j < order.len() ==> flags[#[trigger] order[j] as int],
                    forall|q: int| 0 <= q < count && #[trigger] flags[q] ==> m.reachable(q),
                    forall|q: int|
                        0 <= q < count && #[trigger] flags[q] ==> exists|j: int|
                            0 <= j < order.len() && order[j] == q,
                    forall|j: int, y: int|
                        0 <= j < head && 0 <= y < symbols
                            ==> #[trigger] flags[m.states[order[j] as int].transitions[y]],
                    forall|y: int|
                        0 <= y < x ==> #[trigger] flags[m.states[from as int].transitions[y]],
                decreases symbols - x,
            {
                let to = self.target(from, x);
                if !flags[to] {
                    proof {
                        lemma_marks_set(flags@, to as int);
                        assert(flags[order[head as int] as int]);
                        assert(m.reachable(from as int));
                        let word = choose|word: Seq<Seq<char>>|
                            m.run(m.initial, word) == Some(from as int);
                        lemma_run_one_more(m, m.initial, word, from as int, x as int);
                    }
                    let ghost old_order = order@;
                    flags.set(to, true);
                    order.push(to);
                    proof {
                        assert forall|q: int| 0 <= q < count && #[trigger] flags[q] implies exists|
                            j: int,
                        |
                            0 <= j < order.len() && order[j] == q by {
                            if q == to {
                                assert(order[old_order.len() as int] == q);
                            } else {
                                let j = choose|j: int| 0 <= j < old_order.len() && old_order[j] == q;
                                assert(order[j] == q);
                            }
                        }
                    }
                }
                x += 1;
            }
            head += 1;
        }
        proof {
            assert(closed_under_steps(m, flags@)) by {
                assert forall|q: int, x: int|
                    0 <= q < m.states.len() && 0 <= x < m.alphabet.len()
                        && flags@[q] implies #[trigger] flags@[m.states[q].transitions[x]] by {
                    let j = choose|j: int| 0 <= j < order.len() && order[j] == q;
                    assert(flags[m.states[order[j] as int].transitions[x]]);
                }
            }
            assert forall|q: int| 0 <= q < m.states.len() implies flags@[q] == m.reachable(q) by {
                if m.reachable(q) {
                    let word = choose|word: Seq<Seq<char>>| m.run(m.initial, word) == Some(q);
                    lemma_closed_run(m, flags@, m.initial, word);
                }
            }
        }
        flags
    }

    /// Whether the initial state reaches an accepting state: whether the
    /// automaton accepts any word at all.
    pub fn has_reachable_accepting_state(&self) -> (found: bool)
        ensures
            found == (exists|word: Seq<Seq<char>>| self@.accepts(word)),
    {
        let flags = self.reachable_states();
        let count = self.state_count();
        let ghost m = self@;
        let mut q: usize = 0;
        while q < count
            invariant
                m == self@,
                m.wf(),
                count == m.states.len(),
                marks_reachable(m, flags@),
                q <= count,
                forall|p: int| 0 <= p < q && m.reachable(p) ==> !m.states[p].accepting,
            decreases count - q,
        {
            if flags[q] && self.accepting(q) {
                proof {
                    let word = choose|word: Seq<Seq<char>>| m.run(m.initial, word) == Some(q as int);
                    assert(m.accepts(word));
                }
                return true;
            }
            q += 1;
        }
        proof {
            assert forall|word: Seq<Seq<char>>| !m.accepts(word) by {
                lemma_run_in_range(m, m.initial, word);
                if let Some(p) = m.run(m.initial, word) {
                    assert(m.reachable(p));
                }
            }
        }
        false
    }
}

} // verus!
