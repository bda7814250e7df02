//! Making a deterministic automaton smaller: dropping the states that are
//! never reached, and merging the states that no word tells apart.

use vstd::prelude::*;
use crate::alphabet::{symbol_position, lemma_symbol_position, clone_strings};
use crate::counting::{
    rank,
    kept_states,
    lemma_kept_states,
    lemma_rank_rises,
    marks,
    table_marks,
    flags_of,
    lemma_table_marks_bound,
    lemma_table_marks_none,
    clear_table,
    set_flag,
};
use crate::dfa::{Dfa, DfaModel, DfaState, DfaStateModel, dfa_model};
use crate::text::{chars_of, lex_le, lemma_lex_total, lemma_lex_transitive, lex_le_chars};

verus! {

/// Whether `h` maps the states of `a` that `domain` marks to states of `b`
/// in a way that keeps the initial state, the accepting flags and the
/// transitions.
pub open spec fn maps_into(a: DfaModel, b: DfaModel, domain: Seq<bool>, h: Seq<int>) -> bool {
    &&& a.alphabet == b.alphabet
    &&& domain.len() == a.states.len()
    &&& h.len() == a.states.len()
    &&& domain[a.initial]
    &&& h[a.initial] == b.initial
    &&& forall|q: int|
        0 <= q < a.states.len() && #[trigger] domain[q] ==> 0 <= h[q] < b.states.len()
            && b.states[h[q]].accepting == a.states[q].accepting
    &&& forall|q: int, x: int|
        0 <= q < a.states.len() && 0 <= x < a.alphabet.len() && domain[q] ==> domain[a.states[q].transitions[x]]
            && #[trigger] h[a.states[q].transitions[x]] == b.states[h[q]].transitions[x]
}

/// A run of `a` inside the domain is mapped to a run of `b`.
pub proof fn lemma_maps_run(
    a: DfaModel,
    b: DfaModel,
    domain: Seq<bool>,
    h: Seq<int>,
    q: int,
    word: Seq<Seq<char>>,
)
    requires
        a.wf(),
        b.wf(),
        maps_into(a, b, domain, h),
        0 <= q < a.states.len(),
        domain[q],
    ensures
        match a.run(q, word) {
            Some(p) => 0 <= p < a.states.len() && domain[p] && b.run(h[q], word) == Some(h[p]),
            None => b.run(h[q], word) is None,
        },
    decreases word.len(),
{
    if word.len() > 0 {
        if let Some(x) = symbol_position(a.alphabet, word[0]) {
            lemma_symbol_position(a.alphabet, word[0], x);
            let next = a.states[q].transitions[x];
            assert(h[next] == b.states[h[q]].transitions[x]);
            lemma_maps_run(a, b, domain, h, next, word.drop_first());
        }
    }
}

/// Two automata of which one is mapped into the other accept the same
/// words.
pub proof fn lemma_maps_equivalent(a: DfaModel, b: DfaModel, domain: Seq<bool>, h: Seq<int>)
    requires
        a.wf(),
        b.wf(),
        maps_into(a, b, domain, h),
    ensures
        a.equivalent(b),
{
    assert forall|word: Seq<Seq<char>>| a.accepts(word) == b.accepts(word) by {
        lemma_maps_run(a, b, domain, h, a.initial, word);
    }
}

/// The automaton that is left of `m` when only the marked states are kept:
/// they keep their order, and each transition leads to the new place of its
/// target.
pub open spec fn restricted(m: DfaModel, flags: Seq<bool>) -> DfaModel {
    DfaModel {
        alphabet: m.alphabet,
        states: kept_states(flags).map_values(
            |q: int|
                DfaStateModel {
                    transitions: m.states[q].transitions.map_values(|t: int| rank(flags, t)),
                    ..m.states[q]
                },
        ),
        initial: rank(flags, m.initial),
    }
}

/// For each state, whether it is reached from the initial state.
pub open spec fn reachable_flags(m: DfaModel) -> Seq<bool> {
    Seq::new(m.states.len(), |q: int| m.reachable(q))
}

/// The automaton without the states that are never reached.
pub open spec fn pruned(m: DfaModel) -> DfaModel {
    restricted(m, reachable_flags(m))
}

/// Keeping the states of a set that holds the initial state and, with each
/// state, the states that follow it, gives an automaton that accepts the
/// same words.
pub proof fn lemma_restricted(m: DfaModel, flags: Seq<bool>)
    requires
        m.wf(),
        crate::dfa::reach::closed_under_steps(m, flags),
        flags[m.initial],
    ensures
        restricted(m, flags).wf(),
        maps_into(m, restricted(m, flags), flags, Seq::new(flags.len(), |q: int| rank(flags, q))),
        m.equivalent(restricted(m, flags)),
{
    let r = restricted(m, flags);
    let h = Seq::new(flags.len(), |q: int| rank(flags, q));
    lemma_kept_states(flags);
    assert forall|j: int, x: int|
        0 <= j < r.states.len() && 0 <= x < r.alphabet.len() implies 0
        <= #[trigger] r.states[j].transitions[x] < r.states.len() by {
        let q = kept_states(flags)[j];
        let t = m.states[q].transitions[x];
        assert(flags[t]);
        assert(0 <= rank(flags, t) < marks(flags));
    }
    assert forall|j: int| 0 <= j < r.states.len() implies (#[trigger] r.states[j]).initial == (j
        == r.initial) by {
        let q = kept_states(flags)[j];
        assert(0 <= rank(flags, m.initial) < marks(flags));
        if j == r.initial {
            assert(kept_states(flags)[rank(flags, m.initial)] == m.initial);
        }
    }
    assert(r.wf());
    assert forall|q: int, x: int|
        0 <= q < m.states.len() && 0 <= x < m.alphabet.len()
            && flags[q] implies flags[m.states[q].transitions[x]]
        && #[trigger] h[m.states[q].transitions[x]] == r.states[h[q]].transitions[x] by {
        assert(0 <= rank(flags, q) < marks(flags));
        assert(kept_states(flags)[rank(flags, q)] == q);
    }
    assert forall|q: int| 0 <= q < m.states.len() && #[trigger] flags[q] implies 0 <= h[q]
        < r.states.len() && r.states[h[q]].accepting == m.states[q].accepting by {
        assert(0 <= rank(flags, q) < marks(flags));
        assert(kept_states(flags)[rank(flags, q)] == q);
    }
    assert(0 <= rank(flags, m.initial) < marks(flags));
    assert(maps_into(m, r, flags, h));
    lemma_maps_equivalent(m, r, flags, h);
}

/// The automaton without the states that are never reached accepts the
/// same words, and each of its states is reached.
pub proof fn law_pruned(m: DfaModel)
    requires
        m.wf(),
    ensures
        pruned(m).wf(),
        m.equivalent(pruned(m)),
        forall|j: int| 0 <= j < pruned(m).states.len() ==> pruned(m).reachable(j),
{
    let flags = reachable_flags(m);
    let r = pruned(m);
    let h = Seq::new(flags.len(), |q: int| rank(flags, q));
    assert(m.run(m.initial, Seq::<Seq<char>>::empty()) == Some(m.initial));
    assert(m.reachable(m.initial));
    assert forall|q: int, x: int|
        0 <= q < m.states.len() && 0 <= x < m.alphabet.len()
            && flags[q] implies #[trigger] flags[m.states[q].transitions[x]] by {
        let word = choose|word: Seq<Seq<char>>| m.run(m.initial, word) == Some(q);
        crate::dfa::reach::lemma_run_one_more(m, m.initial, word, q, x);
        assert(m.reachable(m.states[q].transitions[x]));
    }
    lemma_restricted(m, flags);
    lemma_kept_states(flags);
    assert forall|j: int| 0 <= j < r.states.len() implies r.reachable(j) by {
        let q = kept_states(flags)[j];
        assert(m.reachable(q));
        let word = choose|word: Seq<Seq<char>>| m.run(m.initial, word) == Some(q);
        lemma_maps_run(m, r, flags, h, m.initial, word);
        assert(r.run(r.initial, word) == Some(j));
    }
}

impl Dfa {
    /// Drops the states that no word reaches from the initial state. The
    /// states that are left keep their order, and the automaton accepts
    /// the same words.
    pub fn remove_unreachable_states(&mut self)
        ensures
            final(self)@ == pruned(old(self)@),
            old(self)@.wf(),
            final(self)@.wf(),
            old(self)@.equivalent(final(self)@),
            forall|j: int| 0 <= j < final(self)@.states.len() ==> final(self)@.reachable(j),
    {
        let flags = self.reachable_states();
        let count = self.state_count();
        let symbols = self.symbol_count();
        let ghost m = self@;
        proof {
            assert(flags@ =~= reachable_flags(m));
            law_pruned(m);
        }
        let mut ranks: Vec<usize> = Vec::new();
        let mut kept: usize = 0;
        let mut q: usize = 0;
        assert(flags@.take(0) =~= Seq::<bool>::empty());
        while q < count
            invariant
                q <= count,
                count == flags.len(),
                ranks.len() == q,
                kept == marks(flags@.take(q as int)),
                kept <= q,
                forall|p: int| 0 <= p < q ==> #[trigger] ranks[p] == rank(flags@, p),
            decreases count - q,
        {
            ranks.push(kept);
            assert(flags@.take(q + 1).drop_last() =~= flags@.take(q as int));
            if flags[q] {
                kept += 1;
            }
            q += 1;
        }
        let states = self.states();
        let mut built: Vec<DfaState> = Vec::new();
        q = 0;
        assert(flags@.take(0) =~= Seq::<bool>::empty());
        while q < count
            invariant
                m == self@,
                m.wf(),
                q <= count,
                count == m.states.len(),
                symbols == m.alphabet.len(),
                count == flags.len(),
                ranks.len() == count,
                states@.map_values(|s: DfaState| s@) == m.states,
                forall|p: int| 0 <= p < count ==> #[trigger] ranks[p] == rank(flags@, p),
                built.len() == kept_states(flags@.take(q as int)).len(),
                forall|j: int|
                    0 <= j < built.len() ==> (#[trigger] built[j])@ == (DfaStateModel {
                        transitions: m.states[kept_states(
                            flags@.take(q as int),
                        )[j]].transitions.map_values(|t: int| rank(flags@, t)),
                        ..m.states[kept_states(flags@.take(q as int))[j]]
                    }),
            decreases count - q,
        {
            assert(flags@.take(q + 1).drop_last() =~= flags@.take(q as int));
            if flags[q] {
                let mut row: Vec<usize> = Vec::new();
                let mut x: usize = 0;
                while x < symbols
                    invariant
                        m == self@,
                        m.wf(),
                        q < count,
                        count == m.states.len(),
                        symbols == m.alphabet.len(),
                        ranks.len() == count,
                        forall|p: int| 0 <= p < count ==> #[trigger] ranks[p] == rank(flags@, p),
                        x <= symbols,
                        row.len() == x,
                        forall|y: int|
                            0 <= y < x ==> #[trigger] row[y] == rank(
                                flags@,
                                m.states[q as int].transitions[y],
                            ),
                    decreases symbols - x,
                {
                    let to = self.target(q, x);
                    row.push(ranks[to]);
                    x += 1;
                }
                assert(m.states[q as int] == states[q as int]@);
                let state = DfaState::from_parts(
                    states[q].name().to_owned(),
                    states[q].is_initial(),
                    states[q].is_accepting(),
                    row,
                );
                assert(state@.transitions =~= m.states[q as int].transitions.map_values(
                    |t: int| rank(flags@, t),
                ));
                built.push(state);
            }
            q += 1;
        }
        let initial = ranks[self.initial_state_index()];
        let letters = clone_strings(self.alphabet());
        proof {
            assert(flags@.take(count as int) =~= flags@);
            let after = dfa_model(letters@, built@, initial);
            assert(after.states =~= pruned(m).states);
            assert(after == pruned(m));
        }
        *self = Dfa::from_parts(letters, built, initial);
    }
}

/// Whether the table tells no two states apart that the accepting flags
/// do not tell apart and whose targets it does not tell apart.
pub open spec fn stable(m: DfaModel, table: Seq<Seq<bool>>) -> bool {
    &&& forall|p: int, q: int|
        0 <= p < m.states.len() && 0 <= q < m.states.len() && m.states[p].accepting
            != m.states[q].accepting ==> #[trigger] table[p][q]
    &&& forall|p: int, q: int, x: int|
        0 <= p < m.states.len() && 0 <= q < m.states.len() && 0 <= x < m.alphabet.len()
            && !table[p][q]
            ==> !#[trigger] table[m.states[p].transitions[x]][m.states[q].transitions[x]]
}

/// Two states that a stable table does not tell apart accept the same
/// words.
pub proof fn lemma_stable(m: DfaModel, table: Seq<Seq<bool>>, p: int, q: int, word: Seq<Seq<char>>)
    requires
        m.wf(),
        stable(m, table),
        0 <= p < m.states.len(),
        0 <= q < m.states.len(),
        !table[p][q],
    ensures
        m.accepts_from(p, word) == m.accepts_from(q, word),
    decreases word.len(),
{
    if word.len() > 0 {
        if let Some(x) = symbol_position(m.alphabet, word[0]) {
            lemma_symbol_position(m.alphabet, word[0], x);
            assert(!table[m.states[p].transitions[x]][m.states[q].transitions[x]]);
            lemma_stable(
                m,
                table,
                m.states[p].transitions[x],
                m.states[q].transitions[x],
                word.drop_first(),
            );
        }
    }
}

/// A word that tells the targets of two states apart gives, with the symbol
/// before it, a word that tells the two states apart.
pub proof fn lemma_distinguishable_step(m: DfaModel, p: int, q: int, x: int)
    requires
        m.wf(),
        0 <= p < m.states.len(),
        0 <= q < m.states.len(),
        0 <= x < m.alphabet.len(),
        m.distinguishable(m.states[p].transitions[x], m.states[q].transitions[x]),
    ensures
        m.distinguishable(p, q),
{
    let tp = m.states[p].transitions[x];
    let tq = m.states[q].transitions[x];
    let word = choose|word: Seq<Seq<char>>| m.accepts_from(tp, word) != m.accepts_from(tq, word);
    let longer = seq![m.alphabet[x]] + word;
    lemma_symbol_position(m.alphabet, m.alphabet[x], x);
    assert(longer[0] == m.alphabet[x]);
    assert(longer.drop_first() =~= word);
    assert(m.run(p, longer) == m.run(tp, word));
    assert(m.run(q, longer) == m.run(tq, word));
    assert(m.accepts_from(p, longer) != m.accepts_from(q, longer));
}

/// Whether the table tells exactly those states apart that some word tells
/// apart.
pub open spec fn tells_apart(m: DfaModel, table: Seq<Seq<bool>>) -> bool {
    &&& table.len() == m.states.len()
    &&& forall|p: int| 0 <= p < m.states.len() ==> (#[trigger] table[p]).len() == m.states.len()
    &&& forall|p: int, q: int|
        0 <= p < m.states.len() && 0 <= q < m.states.len() ==> #[trigger] table[p][q]
            == m.distinguishable(p, q)
}

impl Dfa {
    /// For each pair of states, whether some word is accepted from one of
    /// them and not from the other.
    pub fn distinguishable_states(&self) -> (table: Vec<Vec<bool>>)
        ensures
            self@.wf(),
            tells_apart(self@, flags_of(table@)),
    {
        let count = self.state_count();
        let symbols = self.symbol_count();
        let ghost m = self@;
        let mut table = clear_table(count, count);
        proof {
            lemma_table_marks_none(flags_of(table@));
        }
        let mut p: usize = 0;
        while p < count
            invariant
                m == self@,
                m.wf(),
                count == m.states.len(),
                p <= count,
                table.len() == count,
                forall|i: int| 0 <= i < count ==> (#[trigger] table[i]).len() == count,
                forall|i: int, j: int|
                    0 <= i < count && 0 <= j < count ==> (#[trigger] table[i][j]) == (i < p
                        && m.states[i].accepting != m.states[j].accepting),
            decreases count - p,
        {
            let mut q: usize = 0;
            while q < count
                invariant
                    m == self@,
                    m.wf(),
                    count == m.states.len(),
                    p < count,
                    q <= count,
                    table.len() == count,
                    forall|i: int| 0 <= i < count ==> (#[trigger] table[i]).len() == count,
                    forall|i: int, j: int|
                        0 <= i < count && 0 <= j < count ==> (#[trigger] table[i][j]) == ((i < p
                            || (i == p && j < q)) && m.states[i].accepting
                            != m.states[j].accepting),
                decreases count - q,
            {
                if self.accepting(p) != self.accepting(q) {
                    let ghost before = table@;
                    set_flag(&mut table, p, q);
                    assert forall|i: int, j: int| 0 <= i < count && 0 <= j < count implies (
                    #[trigger] table[i][j]) == ((i < p || (i == p && j < q + 1))
                        && m.states[i].accepting != m.states[j].accepting) by {
                        if i != p {
                            assert(table[i] == before[i]);
                        }
                    }
                }
                q += 1;
            }
            p += 1;
        }
        proof {
            assert forall|i: int, j: int|
                0 <= i < count && 0 <= j < count && #[trigger] table[i][j] implies m.distinguishable(
                i,
                j,
            ) by {
                let empty = Seq::<Seq<char>>::empty();
                assert(m.run(i, empty) == Some(i));
                assert(m.run(j, empty) == Some(j));
                assert(m.accepts_from(i, empty) != m.accepts_from(j, empty));
            }
        }
        loop
            invariant
                m == self@,
                m.wf(),
                count == m.states.len(),
                symbols == m.alphabet.len(),
                table.len() == count,
                forall|i: int| 0 <= i < count ==> (#[trigger] table[i]).len() == count,
                forall|i: int, j: int|
                    0 <= i < count && 0 <= j < count && #[trigger] table[i][j]
                        ==> m.distinguishable(i, j),
                forall|i: int, j: int|
                    0 <= i < count && 0 <= j < count && m.states[i].accepting
                        != m.states[j].accepting ==> #[trigger] table[i][j],
            ensures
                tells_apart(m, flags_of(table@)),
            decreases count * count - table_marks(flags_of(table@)),
        {
            let ghost start = table@;
            let ghost start_marks = table_marks(flags_of(table@));
            let mut changed: bool = false;
            let mut p: usize = 0;
            proof {
                lemma_table_marks_bound(flags_of(table@), count as nat);
                assert(flags_of(table@).len() == count);
                assert(start_marks <= count * count);
            }
            while p < count
                invariant
                    m == self@,
                    m.wf(),
                    count == m.states.len(),
                    symbols == m.alphabet.len(),
                    start_marks <= count * count,
                    p <= count,
                    table.len() == count,
                    forall|i: int| 0 <= i < count ==> (#[trigger] table[i]).len() == count,
                    forall|i: int, j: int|
                        0 <= i < count && 0 <= j < count && #[trigger] table[i][j]
                            ==> m.distinguishable(i, j),
                    forall|i: int, j: int|
                        0 <= i < count && 0 <= j < count && m.states[i].accepting
                            != m.states[j].accepting ==> #[trigger] table[i][j],
                    start_marks == table_marks(flags_of(start)),
                    changed ==> table_marks(flags_of(table@)) > start_marks,
                    !changed ==> table@ == start,
                    !changed ==> forall|i: int, j: int, x: int|
                        0 <= i < p && 0 <= j < count && 0 <= x < symbols && !table[i][j]
                            ==> !#[trigger] table[m.states[i].transitions[x]][m.states[j].transitions[x]],
                decreases count - p,
            {
                let mut q: usize = 0;
                while q < count
                    invariant
                        m == self@,
                        m.wf(),
                        count == m.states.len(),
                        symbols == m.alphabet.len(),
                        p < count,
                        q <= count,
                        table.len() == count,
                        forall|i: int| 0 <= i < count ==> (#[trigger] table[i]).len() == count,
                        forall|i: int, j: int|
                            0 <= i < count && 0 <= j < count && #[trigger] table[i][j]
                                ==> m.distinguishable(i, j),
                        forall|i: int, j: int|
                            0 <= i < count && 0 <= j < count && m.states[i].accepting
                                != m.states[j].accepting ==> #[trigger] table[i][j],
                        start_marks == table_marks(flags_of(start)),
                        changed ==> table_marks(flags_of(table@)) > start_marks,
                        !changed ==> table@ == start,
                        !changed ==> forall|i: int, j: int, x: int|
                            0 <= i < count && 0 <= j < count && 0 <= x < symbols && (i < p || (i
                                == p && j < q)) && !table[i][j]
                                ==> !#[trigger] table[m.states[i].transitions[x]][m.states[j].transitions[x]],
                    decreases count - q,
                {
                    if !table[p][q] {
                        let mut found: bool = false;
                        let mut x: usize = 0;
                        while x < symbols && !found
                            invariant
                                m == self@,
                                m.wf(),
                                count == m.states.len(),
                                symbols == m.alphabet.len(),
                                p < count,
                                q < count,
                                x <= symbols,
                                table.len() == count,
                                forall|i: int|
                                    0 <= i < count ==> (#[trigger] table[i]).len() == count,
                                forall|i: int, j: int|
                                    0 <= i < count && 0 <= j < count && #[trigger] table[i][j]
                                        ==> m.distinguishable(i, j),
                                found ==> m.distinguishable(p as int, q as int),
                                !found ==> forall|y: int|
                                    0 <= y < x
                                        ==> !#[trigger] table[m.states[p as int].transitions[y]][m.states[q as int].transitions[y]],
                            decreases symbols - x + if found {
                                0int
                            } else {
                                1int
                            },
                        {
                            let to_p = self.target(p, x);
                            let to_q = self.target(q, x);
                            if table[to_p][to_q] {
                                proof {
                                    lemma_distinguishable_step(m, p as int, q as int, x as int);
                                }
                                found = true;
                            } else {
                                x += 1;
                            }
                        }
                        if found {
                            let ghost before = table@;
                            set_flag(&mut table, p, q);
                            changed = true;
                            proof {
                                assert forall|i: int, j: int|
                                    0 <= i < count && 0 <= j < count
                                        && #[trigger] table[i][j] implies m.distinguishable(i, j) by {
                                    if i != p {
                                        assert(table[i] == before[i]);
                                    }
                                }
                                assert forall|i: int, j: int|
                                    0 <= i < count && 0 <= j < count && m.states[i].accepting
                                        != m.states[j].accepting implies #[trigger] table[i][j] by {
                                    assert(before[i][j]);
                                    if i != p {
                                        assert(table[i] == before[i]);
                                    }
                                }
                            }
                        }
                    }
                    q += 1;
                }
                p += 1;
            }
            if !changed {
                proof {
                    let flags = flags_of(table@);
                    assert forall|i: int, j: int| 0 <= i < count && 0 <= j < count implies (
                    #[trigger] flags[i][j]) == table[i][j] by {}
                    assert(stable(m, flags)) by {
                        assert forall|i: int, j: int, x: int|
                            0 <= i < m.states.len() && 0 <= j < m.states.len() && 0 <= x
                                < m.alphabet.len()
                                && !flags[i][j] implies !#[trigger] flags[m.states[i].transitions[x]][m.states[j].transitions[x]] by {
                            assert(!table[i][j]);
                            assert(!table[m.states[i].transitions[x]][m.states[j].transitions[x]]);
                        }
                    }
                    assert forall|i: int, j: int|
                        0 <= i < m.states.len() && 0 <= j < m.states.len() implies #[trigger] flags[i][j]
                        == m.distinguishable(i, j) by {
                        if !flags[i][j] {
                            assert forall|word: Seq<Seq<char>>|
                                m.accepts_from(i, word) == m.accepts_from(j, word) by {
                                lemma_stable(m, flags, i, j, word);
                            }
                        } else {
                            assert(table[i][j]);
                        }
                    }
                }
                break ;
            }
            proof {
                lemma_table_marks_bound(flags_of(table@), count as nat);
                assert(flags_of(table@).len() == count);
                assert(table_marks(flags_of(table@)) <= count * count);
            }
        }
        table
    }
}

/// Two states that no word tells apart are told apart from the same
/// states.
pub proof fn lemma_same_class(m: DfaModel, p: int, a: int, b: int)
    requires
        !m.distinguishable(a, b),
    ensures
        m.distinguishable(p, a) == m.distinguishable(p, b),
        !m.distinguishable(a, a),
        !m.distinguishable(b, a),
{
    assert forall|word: Seq<Seq<char>>| m.accepts_from(a, word) == m.accepts_from(b, word) by {}
    if m.distinguishable(p, a) {
        let word = choose|word: Seq<Seq<char>>| m.accepts_from(p, word) != m.accepts_from(a, word);
        assert(m.accepts_from(p, word) != m.accepts_from(b, word));
    }
    if m.distinguishable(p, b) {
        let word = choose|word: Seq<Seq<char>>| m.accepts_from(p, word) != m.accepts_from(b, word);
        assert(m.accepts_from(p, word) != m.accepts_from(a, word));
    }
}

/// Two states that no word tells apart bear the same accepting flag.
pub proof fn lemma_same_flag(m: DfaModel, a: int, b: int)
    requires
        !m.distinguishable(a, b),
    ensures
        m.states[a].accepting == m.states[b].accepting,
{
    let empty = Seq::<Seq<char>>::empty();
    assert(m.run(a, empty) == Some(a));
    assert(m.run(b, empty) == Some(b));
    assert(m.accepts_from(a, empty) == m.accepts_from(b, empty));
}

/// Whether state `j` of `b` bears the name of a state of `a` that comes to
/// it.
pub open spec fn named_after(a: DfaModel, b: DfaModel, h: Seq<int>, j: int) -> bool {
    exists|q: int|
        0 <= q < a.states.len() && #[trigger] h[q] == j && b.states[j].name == a.states[q].name
}

/// Whether a state before `q` comes to `j`.
pub open spec fn comes_before(h: Seq<int>, q: int, j: int) -> bool {
    exists|p: int| 0 <= p < q && #[trigger] h[p] == j
}

/// Whether `h` maps the states of `a` onto the states of `b` so that the
/// states that no word tells apart, and only they, come to one state. The
/// states of `b` stand in the order of the first states that come to them,
/// and each bears the first name in the order of strings among the names
/// of the states that come to it.
pub open spec fn merges(a: DfaModel, b: DfaModel, h: Seq<int>) -> bool {
    &&& maps_into(a, b, Seq::new(a.states.len(), |q: int| true), h)
    &&& forall|p: int, q: int|
        0 <= p < a.states.len() && 0 <= q < a.states.len() ==> (#[trigger] h[p] == #[trigger] h[q])
            == !a.distinguishable(p, q)
    &&& forall|j: int| 0 <= j < b.states.len() ==> #[trigger] named_after(a, b, h, j)
    &&& forall|q: int|
        0 <= q < a.states.len() ==> lex_le(b.states[#[trigger] h[q]].name, a.states[q].name)
    &&& forall|q: int, j: int|
        0 <= q < a.states.len() && 0 <= j < h[q] ==> #[trigger] comes_before(h, q, j)
}

/// What follows for an automaton `b` that merges the states of `a`, where
/// every state of `a` is reached: `b` accepts the same words, every state
/// of `b` is reached, and some word tells any two states of `b` apart.
pub proof fn law_merged(a: DfaModel, b: DfaModel, h: Seq<int>)
    requires
        a.wf(),
        b.wf(),
        merges(a, b, h),
        forall|q: int| 0 <= q < a.states.len() ==> a.reachable(q),
    ensures
        a.equivalent(b),
        forall|j: int| 0 <= j < b.states.len() ==> b.reachable(j),
        forall|j: int, k: int|
            0 <= j < b.states.len() && 0 <= k < b.states.len() && j != k ==> b.distinguishable(
                j,
                k,
            ),
{
    let all = Seq::new(a.states.len(), |q: int| true);
    lemma_maps_equivalent(a, b, all, h);
    assert forall|j: int| 0 <= j < b.states.len() implies b.reachable(j) by {
        assert(named_after(a, b, h, j));
        let q = choose|q: int|
            0 <= q < a.states.len() && #[trigger] h[q] == j && b.states[j].name
                == a.states[q].name;
        assert(a.reachable(q));
        let word = choose|word: Seq<Seq<char>>| a.run(a.initial, word) == Some(q);
        lemma_maps_run(a, b, all, h, a.initial, word);
        assert(b.run(b.initial, word) == Some(j));
    }
    assert forall|j: int, k: int|
        0 <= j < b.states.len() && 0 <= k < b.states.len() && j != k implies b.distinguishable(
        j,
        k,
    ) by {
        assert(named_after(a, b, h, j));
        assert(named_after(a, b, h, k));
        let p = choose|q: int|
            0 <= q < a.states.len() && #[trigger] h[q] == j && b.states[j].name
                == a.states[q].name;
        let q = choose|q: int|
            0 <= q < a.states.len() && #[trigger] h[q] == k && b.states[k].name
                == a.states[q].name;
        assert(h[p] != h[q]);
        assert(a.distinguishable(p, q));
        let word = choose|word: Seq<Seq<char>>| a.accepts_from(p, word) != a.accepts_from(q, word);
        lemma_maps_run(a, b, all, h, p, word);
        lemma_maps_run(a, b, all, h, q, word);
        assert(b.accepts_from(j, word) != b.accepts_from(k, word));
    }
}

/// Whether `reps` gives for each state the first state that no word tells
/// apart from it.
pub open spec fn first_of_class(m: DfaModel, reps: Seq<int>) -> bool {
    &&& reps.len() == m.states.len()
    &&& forall|q: int|
        0 <= q < m.states.len() ==> 0 <= #[trigger] reps[q] <= q && !m.distinguishable(reps[q], q)
    &&& forall|p: int, q: int|
        0 <= q < m.states.len() && 0 <= p < reps[q] ==> #[trigger] m.distinguishable(p, q)
}

/// The first states of the classes decide the classes.
pub proof fn lemma_first_of_class(m: DfaModel, reps: Seq<int>, a: int, b: int)
    requires
        first_of_class(m, reps),
        0 <= a < m.states.len(),
        0 <= b < m.states.len(),
    ensures
        (reps[a] == reps[b]) == !m.distinguishable(a, b),
        reps[reps[a]] == reps[a],
{
    let ra = reps[a];
    let rb = reps[b];
    if !m.distinguishable(a, b) {
        lemma_same_class(m, ra, a, b);
        lemma_same_class(m, rb, a, b);
        if ra < rb {
            assert(m.distinguishable(ra, b));
        }
        if rb < ra {
            assert(m.distinguishable(rb, a));
        }
    }
    if ra == rb {
        lemma_same_class(m, b, ra, a);
        lemma_same_class(m, a, rb, b);
        lemma_same_class(m, a, ra, a);
    }
    let rr = reps[ra];
    lemma_same_class(m, rr, ra, a);
    lemma_same_class(m, ra, ra, a);
    if rr < ra {
        assert(m.distinguishable(rr, a));
    }
}

/// What the merged automaton holds for the class whose first state is `k`.
pub open spec fn class_state(
    m: DfaModel,
    reps: Seq<int>,
    firsts: Seq<bool>,
    k: int,
    state: DfaStateModel,
) -> bool {
    &&& state.accepting == m.states[k].accepting
    &&& state.initial == (k == reps[m.initial])
    &&& state.transitions.len() == m.alphabet.len()
    &&& forall|x: int|
        0 <= x < m.alphabet.len() ==> #[trigger] state.transitions[x] == rank(
            firsts,
            reps[m.states[k].transitions[x]],
        )
    &&& exists|q: int|
        0 <= q < m.states.len() && #[trigger] reps[q] == k && state.name == m.states[q].name
    &&& forall|q: int|
        0 <= q < m.states.len() && #[trigger] reps[q] == k ==> lex_le(
            state.name,
            m.states[q].name,
        )
}

/// The automaton of the classes merges the states of the automaton.
pub proof fn lemma_quotient(m: DfaModel, reps: Seq<int>, firsts: Seq<bool>, b: DfaModel)
    requires
        m.wf(),
        first_of_class(m, reps),
        firsts.len() == m.states.len(),
        forall|q: int| 0 <= q < m.states.len() ==> #[trigger] firsts[q] == (reps[q] == q),
        b.alphabet == m.alphabet,
        b.initial == rank(firsts, reps[m.initial]),
        b.states.len() == kept_states(firsts).len(),
        forall|j: int|
            0 <= j < b.states.len() ==> class_state(
                m,
                reps,
                firsts,
                kept_states(firsts)[j],
                #[trigger] b.states[j],
            ),
    ensures
        b.wf(),
        merges(m, b, Seq::new(m.states.len(), |q: int| rank(firsts, reps[q]))),
{
    let n = m.states.len() as int;
    let h = Seq::new(m.states.len(), |q: int| rank(firsts, reps[q]));
    let kept = kept_states(firsts);
    let all = Seq::new(m.states.len(), |q: int| true);
    lemma_kept_states(firsts);
    assert forall|q: int| 0 <= q < n implies firsts[#[trigger] reps[q]] && 0 <= h[q]
        < b.states.len() && kept[h[q]] == reps[q] by {
        lemma_first_of_class(m, reps, q, q);
        assert(firsts[reps[q]]);
        assert(0 <= rank(firsts, reps[q]) < marks(firsts));
    }
    assert forall|j: int| 0 <= j < b.states.len() implies 0 <= #[trigger] kept[j] < n
        && reps[kept[j]] == kept[j] && h[kept[j]] == j by {
        assert(firsts[kept[j]]);
    }
    assert(b.wf()) by {
        assert(firsts[reps[m.initial]]);
        assert forall|j: int| 0 <= j < b.states.len() implies (#[trigger] b.states[j]).initial == (j
            == b.initial) by {
            assert(class_state(m, reps, firsts, kept[j], b.states[j]));
            assert(h[kept[j]] == j);
            assert(kept[h[m.initial]] == reps[m.initial]);
        }
        assert forall|j: int|
            0 <= j < b.states.len() implies (#[trigger] b.states[j]).transitions.len()
            == b.alphabet.len() by {
            assert(class_state(m, reps, firsts, kept[j], b.states[j]));
        }
        assert forall|j: int, x: int|
            0 <= j < b.states.len() && 0 <= x < b.alphabet.len() implies 0
            <= #[trigger] b.states[j].transitions[x] < b.states.len() by {
            assert(class_state(m, reps, firsts, kept[j], b.states[j]));
            let t = m.states[kept[j]].transitions[x];
            assert(firsts[reps[t]]);
            assert(h[t] == rank(firsts, reps[t]));
        }
    }
    assert(maps_into(m, b, all, h)) by {
        assert forall|q: int| 0 <= q < n && #[trigger] all[q] implies 0 <= h[q] < b.states.len()
            && b.states[h[q]].accepting == m.states[q].accepting by {
            assert(firsts[reps[q]]);
            assert(class_state(m, reps, firsts, kept[h[q]], b.states[h[q]]));
            lemma_same_flag(m, reps[q], q);
        }
        assert forall|q: int, x: int|
            0 <= q < n && 0 <= x < m.alphabet.len() && all[q] implies all[m.states[q].transitions[x]]
            && #[trigger] h[m.states[q].transitions[x]] == b.states[h[q]].transitions[x] by {
            assert(firsts[reps[q]]);
            assert(class_state(m, reps, firsts, kept[h[q]], b.states[h[q]]));
            let r = reps[q];
            let tq = m.states[q].transitions[x];
            let tr = m.states[r].transitions[x];
            if m.distinguishable(tr, tq) {
                lemma_distinguishable_step(m, r, q, x);
            }
            lemma_first_of_class(m, reps, tr, tq);
        }
    }
    assert forall|p: int, q: int| 0 <= p < n && 0 <= q < n implies (#[trigger] h[p]
        == #[trigger] h[q]) == !m.distinguishable(p, q) by {
        lemma_first_of_class(m, reps, p, q);
        assert(firsts[reps[p]] && firsts[reps[q]]);
        assert(kept[h[p]] == reps[p] && kept[h[q]] == reps[q]);
    }
    assert forall|j: int| 0 <= j < b.states.len() implies #[trigger] named_after(m, b, h, j) by {
        assert(class_state(m, reps, firsts, kept[j], b.states[j]));
        let q = choose|q: int|
            0 <= q < m.states.len() && #[trigger] reps[q] == kept[j] && b.states[j].name
                == m.states[q].name;
        assert(h[q] == j);
    }
    assert forall|q: int| 0 <= q < n implies lex_le(
        b.states[#[trigger] h[q]].name,
        m.states[q].name,
    ) by {
        assert(firsts[reps[q]]);
        assert(class_state(m, reps, firsts, kept[h[q]], b.states[h[q]]));
    }
    assert forall|q: int, j: int| 0 <= q < n && 0 <= j < h[q] implies #[trigger] comes_before(
        h,
        q,
        j,
    ) by {
        assert(firsts[reps[q]]);
        let p = kept[j];
        assert(h[p] == j);
        if p >= reps[q] {
            lemma_rank_rises(firsts, reps[q], p);
        }
        assert(p < reps[q]);
    }
}

/// The states that a list of indices stands for.
pub open spec fn indices_of(list: Seq<usize>) -> Seq<int> {
    list.map_values(|q: usize| q as int)
}

impl Dfa {
    /// For each state, the first state that no word tells apart from it.
    fn class_firsts(&self, table: &Vec<Vec<bool>>) -> (reps: Vec<usize>)
        requires
            tells_apart(self@, flags_of(table@)),
        ensures
            first_of_class(self@, indices_of(reps@)),
    {
        let count = self.state_count();
        let ghost m = self@;
        let mut reps: Vec<usize> = Vec::new();
        let mut q: usize = 0;
        proof {
            assert(flags_of(table@).len() == table.len());
            assert forall|i: int| 0 <= i < count implies (#[trigger] table[i]).len() == count by {
                assert(flags_of(table@)[i] == table[i]@);
            }
        }
        while q < count
            invariant
                m == self@,
                count == m.states.len(),
                tells_apart(m, flags_of(table@)),
                table.len() == count,
                forall|i: int| 0 <= i < count ==> (#[trigger] table[i]).len() == count,
                q <= count,
                reps.len() == q,
                forall|a: int|
                    0 <= a < q ==> 0 <= #[trigger] reps[a] <= a && !m.distinguishable(
                        reps[a] as int,
                        a,
                    ),
                forall|p: int, a: int|
                    0 <= a < q && 0 <= p < reps[a] ==> #[trigger] m.distinguishable(p, a),
            decreases count - q,
        {
            let mut p: usize = 0;
            proof {
                lemma_same_class(m, q as int, q as int, q as int);
                assert(flags_of(table@)[q as int] == table[q as int]@);
            }
            while p < q && table[p][q]
                invariant
                    m == self@,
                    count == m.states.len(),
                    tells_apart(m, flags_of(table@)),
                    table.len() == count,
                    forall|i: int| 0 <= i < count ==> (#[trigger] table[i]).len() == count,
                    q < count,
                    p <= q,
                    forall|a: int| 0 <= a < p ==> #[trigger] m.distinguishable(a, q as int),
                decreases q - p,
            {
                assert(flags_of(table@)[p as int][q as int] == m.distinguishable(
                    p as int,
                    q as int,
                ));
                assert(flags_of(table@)[p as int] == table[p as int]@);
                p += 1;
            }
            proof {
                if p < q {
                    assert(flags_of(table@)[p as int][q as int] == m.distinguishable(
                        p as int,
                        q as int,
                    ));
                    assert(flags_of(table@)[p as int] == table[p as int]@);
                }
            }
            reps.push(p);
            q += 1;
        }
        proof {
            let rs = indices_of(reps@);
            assert forall|a: int| 0 <= a < m.states.len() implies 0 <= #[trigger] rs[a] <= a
                && !m.distinguishable(rs[a], a) by {
                assert(rs[a] == reps[a]);
            }
            assert forall|p: int, a: int|
                0 <= a < m.states.len() && 0 <= p < rs[a] implies #[trigger] m.distinguishable(
                p,
                a,
            ) by {
                assert(rs[a] == reps[a]);
            }
        }
        reps
    }

    /// Makes the automaton as small as an automaton for its language can
    /// be: the states that are never reached are dropped, and the states
    /// that no word tells apart are merged. Each merged state stands where
    /// the first of its states stood, and bears the first name, in the
    /// order of strings, among the names of its states.
    pub fn minimize(&mut self)
        ensures
            old(self)@.wf(),
            final(self)@.wf(),
            final(self)@.alphabet == old(self)@.alphabet,
            old(self)@.equivalent(final(self)@),
            forall|j: int| 0 <= j < final(self)@.states.len() ==> final(self)@.reachable(j),
            forall|j: int, k: int|
                0 <= j < final(self)@.states.len() && 0 <= k < final(self)@.states.len() && j != k
                    ==> final(self)@.distinguishable(j, k),
            exists|h: Seq<int>| merges(pruned(old(self)@), final(self)@, h),
    {
        let ghost given = self@;
        self.remove_unreachable_states();
        let ghost m = self@;
        let table = self.distinguishable_states();
        let reps = self.class_firsts(&table);
        let ghost rs = indices_of(reps@);
        let count = self.state_count();
        let symbols = self.symbol_count();
        let states = self.states();
        let mut firsts: Vec<bool> = Vec::new();
        let mut ranks: Vec<usize> = Vec::new();
        let mut names: Vec<Vec<char>> = Vec::new();
        let mut kept: usize = 0;
        let mut q: usize = 0;
        assert(firsts@.take(0) =~= Seq::<bool>::empty());
        while q < count
            invariant
                m == self@,
                q <= count,
                count == m.states.len(),
                reps.len() == count,
                rs == indices_of(reps@),
                states@.map_values(|s: DfaState| s@) == m.states,
                firsts.len() == q,
                ranks.len() == q,
                names.len() == q,
                kept == marks(firsts@),
                kept <= q,
                forall|p: int| 0 <= p < q ==> #[trigger] firsts[p] == (rs[p] == p),
                forall|p: int| 0 <= p < q ==> #[trigger] ranks[p] == marks(firsts@.take(p)),
                forall|p: int| 0 <= p < q ==> (#[trigger] names[p])@ == m.states[p].name,
            decreases count - q,
        {
            let ghost before = firsts@;
            let first = reps[q] == q;
            assert(rs[q as int] == reps[q as int]);
            ranks.push(kept);
            firsts.push(first);
            assert(m.states[q as int] == states[q as int]@);
            names.push(chars_of(states[q].name()));
            proof {
                assert(firsts@.drop_last() =~= before);
                assert(firsts@.take(q as int) =~= before);
                assert forall|p: int| 0 <= p < q + 1 implies #[trigger] ranks[p] == marks(
                    firsts@.take(p),
                ) by {
                    assert(firsts@.take(p) =~= before.take(p));
                }
            }
            if first {
                kept += 1;
            }
            q += 1;
        }
        let initial_first = reps[self.initial_state_index()];
        let mut built: Vec<DfaState> = Vec::new();
        let mut r: usize = 0;
        assert(firsts@.take(0) =~= Seq::<bool>::empty());
        proof {
            assert forall|a: int| 0 <= a < count implies 0 <= #[trigger] rs[a] <= a by {}
        }
        while r < count
            invariant
                m == self@,
                m.wf(),
                r <= count,
                count == m.states.len(),
                symbols == m.alphabet.len(),
                reps.len() == count,
                rs == indices_of(reps@),
                first_of_class(m, rs),
                firsts.len() == count,
                ranks.len() == count,
                names.len() == count,
                initial_first == rs[m.initial],
                states@.map_values(|s: DfaState| s@) == m.states,
                forall|p: int| 0 <= p < count ==> #[trigger] firsts[p] == (rs[p] == p),
                forall|p: int| 0 <= p < count ==> #[trigger] ranks[p] == rank(firsts@, p),
                forall|p: int| 0 <= p < count ==> (#[trigger] names[p])@ == m.states[p].name,
                built.len() == kept_states(firsts@.take(r as int)).len(),
                forall|j: int|
                    0 <= j < built.len() ==> class_state(
                        m,
                        rs,
                        firsts@,
                        kept_states(firsts@.take(r as int))[j],
                        (#[trigger] built[j])@,
                    ),
            decreases count - r,
        {
            assert(firsts@.take(r + 1).drop_last() =~= firsts@.take(r as int));
            if firsts[r] {
                let mut best: usize = r;
                let mut q: usize = r + 1;
                proof {
                    lemma_lex_total(m.states[r as int].name, m.states[r as int].name);
                    assert(rs[r as int] == r);
                }
                while q < count
                    invariant
                        m == self@,
                        r < q <= count,
                        count == m.states.len(),
                        reps.len() == count,
                        rs == indices_of(reps@),
                        names.len() == count,
                        forall|a: int| 0 <= a < count ==> 0 <= #[trigger] rs[a] <= a,
                        forall|p: int|
                            0 <= p < count ==> (#[trigger] names[p])@ == m.states[p].name,
                        r <= best < q,
                        rs[best as int] == r,
                        forall|p: int|
                            0 <= p < q && #[trigger] rs[p] == r ==> lex_le(
                                m.states[best as int].name,
                                m.states[p].name,
                            ),
                    decreases count - q,
                {
                    assert(rs[q as int] == reps[q as int]);
                    if reps[q] == r && !lex_le_chars(&names[best], &names[q]) {
                        proof {
                            let new_name = m.states[q as int].name;
                            let old_name = m.states[best as int].name;
                            lemma_lex_total(old_name, new_name);
                            lemma_lex_total(new_name, new_name);
                            assert forall|p: int| 0 <= p < q + 1 && #[trigger] rs[p] == r implies lex_le(
                                new_name,
                                m.states[p].name,
                            ) by {
                                if p < q {
                                    lemma_lex_transitive(new_name, old_name, m.states[p].name);
                                }
                            }
                        }
                        best = q;
                    }
                    q += 1;
                }
                let mut row: Vec<usize> = Vec::new();
                let mut x: usize = 0;
                while x < symbols
                    invariant
                        m == self@,
                        m.wf(),
                        r < count,
                        count == m.states.len(),
                        symbols == m.alphabet.len(),
                        reps.len() == count,
                        rs == indices_of(reps@),
                        ranks.len() == count,
                        forall|a: int| 0 <= a < count ==> 0 <= #[trigger] rs[a] <= a,
                        forall|p: int| 0 <= p < count ==> #[trigger] ranks[p] == rank(firsts@, p),
                        x <= symbols,
                        row.len() == x,
                        forall|y: int|
                            0 <= y < x ==> #[trigger] row[y] == rank(
                                firsts@,
                                rs[m.states[r as int].transitions[y]],
                            ),
                    decreases symbols - x,
                {
                    let to = self.target(r, x);
                    assert(rs[to as int] == reps[to as int]);
                    row.push(ranks[reps[to]]);
                    x += 1;
                }
                assert(m.states[best as int] == states[best as int]@);
                let state = DfaState::from_parts(
                    states[best].name().to_owned(),
                    r == initial_first,
                    self.accepting(r),
                    row,
                );
                proof {
                    assert(class_state(m, rs, firsts@, r as int, state@)) by {
                        assert(rs[best as int] == r && state@.name == m.states[best as int].name);
                    }
                }
                built.push(state);
            }
            r += 1;
        }
        let initial = ranks[initial_first];
        let letters = clone_strings(self.alphabet());
        proof {
            assert(firsts@.take(count as int) =~= firsts@);
            let b = dfa_model(letters@, built@, initial);
            assert forall|j: int| 0 <= j < b.states.len() implies class_state(
                m,
                rs,
                firsts@,
                kept_states(firsts@)[j],
                #[trigger] b.states[j],
            ) by {
                assert(b.states[j] == built[j]@);
            }
            lemma_quotient(m, rs, firsts@, b);
            let h = Seq::new(m.states.len(), |q: int| rank(firsts@, rs[q]));
            law_merged(m, b, h);
            assert(merges(pruned(given), b, h));
            assert forall|word: Seq<Seq<char>>| given.accepts(word) == b.accepts(word) by {
                assert(given.accepts(word) == m.accepts(word));
            }
        }
        *self = Dfa::from_parts(letters, built, initial);
    }
}

/// For each state, whether some word tells it apart from every state
/// before it: whether it is the first state of its class.
pub open spec fn first_flags(m: DfaModel) -> Seq<bool> {
    Seq::new(
        m.states.len(),
        |r: int| forall|p: int| 0 <= p < r ==> #[trigger] m.distinguishable(p, r),
    )
}

/// For each state, whether no word tells it apart from state `r`.
pub open spec fn class_flags(m: DfaModel, r: int) -> Seq<bool> {
    Seq::new(m.states.len(), |q: int| !m.distinguishable(r, q))
}

/// The classes of states that no word tells apart: the classes stand in
/// the order of their first states, and each holds its states in rising
/// order.
pub open spec fn classes_of(m: DfaModel) -> Seq<Seq<int>> {
    Seq::new(
        kept_states(first_flags(m)).len(),
        |i: int| kept_states(class_flags(m, kept_states(first_flags(m))[i])),
    )
}

impl Dfa {
    /// The classes of states that no word tells apart.
    #[verifier::loop_isolation(false)]
    #[verifier::rlimit(50)]
    pub fn state_equivalence_classes(&self) -> (classes: Vec<Vec<usize>>)
        ensures
            graph_of_classes(classes@) == classes_of(self@),
    {
        let table = self.distinguishable_states();
        let reps = self.class_firsts(&table);
        let count = self.state_count();
        let ghost m = self@;
        let ghost rs = indices_of(reps@);
        let ghost firsts = first_flags(m);
        proof {
            assert forall|q: int| 0 <= q < count implies #[trigger] firsts[q] == (rs[q] == q) by {
                assert(rs[q] == reps[q]);
                lemma_first_of_class(m, rs, q, q);
                if rs[q] == q {
                    assert forall|p: int| 0 <= p < q implies #[trigger] m.distinguishable(p, q) by {}
                } else {
                    lemma_same_class(m, q, rs[q], q);
                    assert(!m.distinguishable(rs[q], q));
                }
            }
        }
        let mut classes: Vec<Vec<usize>> = Vec::new();
        let mut r: usize = 0;
        assert(firsts.take(0) =~= Seq::<bool>::empty());
        while r < count
            invariant
                r <= count,
                classes.len() == kept_states(firsts.take(r as int)).len(),
                forall|i: int|
                    0 <= i < classes.len() ==> crate::nfa::targets_of((#[trigger] classes[i])@)
                        == kept_states(class_flags(m, kept_states(firsts.take(r as int))[i])),
            decreases count - r,
        {
            assert(firsts.take(r + 1).drop_last() =~= firsts.take(r as int));
            assert(rs[r as int] == reps[r as int]);
            if reps[r] == r {
                let ghost members = class_flags(m, r as int);
                let mut class: Vec<usize> = Vec::new();
                let mut q: usize = 0;
                assert(members.take(0) =~= Seq::<bool>::empty());
                while q < count
                    invariant
                        q <= count,
                        crate::nfa::targets_of(class@) == kept_states(members.take(q as int)),
                    decreases count - q,
                {
                    assert(members.take(q + 1).drop_last() =~= members.take(q as int));
                    assert(rs[q as int] == reps[q as int]);
                    proof {
                        lemma_first_of_class(m, rs, r as int, q as int);
                    }
                    if reps[q] == r {
                        let ghost before = crate::nfa::targets_of(class@);
                        class.push(q);
                        assert(crate::nfa::targets_of(class@) =~= before.push(q as int));
                    }
                    q += 1;
                }
                assert(members.take(count as int) =~= members);
                classes.push(class);
            }
            r += 1;
        }
        proof {
            assert(firsts.take(count as int) =~= firsts);
            assert(graph_of_classes(classes@) =~= classes_of(m));
        }
        classes
    }
}

/// The classes that lists of indices stand for.
pub open spec fn graph_of_classes(classes: Seq<Vec<usize>>) -> Seq<Seq<int>> {
    classes.map_values(|c: Vec<usize>| crate::nfa::targets_of(c@))
}

} // verus!
