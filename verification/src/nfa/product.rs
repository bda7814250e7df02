//! Combining two nondeterministic automata into the automaton of the
//! pairs of their states.

use vstd::prelude::*;
use crate::alphabet::clone_strings;
use crate::dfa::product::{Combination, all_among, name_pair, same_symbols};
use crate::error::{Error, ErrorModel};
use crate::nfa::fork::{places_in, places_of};
use crate::nfa::pair_table::{PairTable, begins};
use crate::nfa::pairs::{
    ends_in_pair,
    in_both,
    is_pair_automaton,
    law_pair_automaton,
    law_pair_intersection,
    lemma_listed_grows,
    lemma_state_grows,
    lists_pair,
    pairs_listed,
    silent_ok,
    silent_step,
    state_ok,
    symbol_ok,
    symbol_step,
};
use crate::nfa::{Nfa, NfaState, nfa_model, targets_of};

verus! {

/// Adds to the list the places of the pairs of `i` and each number of
/// `seconds`.
fn place_row(table: &mut PairTable, list: &mut Vec<usize>, i: usize, seconds: &Vec<usize>)
    requires
        old(table).ok(),
        i < old(table).height(),
        forall|m: int| 0 <= m < seconds.len() ==> #[trigger] seconds[m] < old(table).width(),
    ensures
        final(table).ok(),
        final(table).height() == old(table).height(),
        final(table).width() == old(table).width(),
        begins(old(table).spans(), final(table).spans()),
        final(list).len() == old(list).len() + seconds.len(),
        forall|m: int| 0 <= m < old(list).len() ==> #[trigger] final(list)[m] == old(list)[m],
        forall|m: int|
            0 <= m < seconds.len() ==> (#[trigger] final(list)[old(list).len() + m])
                < final(table).spans().len() && final(table).spans()[final(list)[old(list).len()
                + m] as int] == (i as int, seconds[m] as int),
{
    let ghost first = list@;
    let mut m: usize = 0;
    while m < seconds.len()
        invariant
            m <= seconds.len(),
            table.ok(),
            table.height() == old(table).height(),
            table.width() == old(table).width(),
            i < table.height(),
            forall|m: int| 0 <= m < seconds.len() ==> #[trigger] seconds[m] < table.width(),
            begins(old(table).spans(), table.spans()),
            list.len() == first.len() + m,
            forall|k: int| 0 <= k < first.len() ==> #[trigger] list[k] == first[k],
            forall|k: int|
                0 <= k < m ==> (#[trigger] list[first.len() + k]) < table.spans().len()
                    && table.spans()[list[first.len() + k] as int] == (i as int, seconds[k] as int),
        decreases seconds.len() - m,
    {
        let ghost before = table.spans();
        let at = table.place(i, seconds[m]);
        list.push(at);
        proof {
            assert forall|k: int| 0 <= k < m + 1 implies (#[trigger] list[first.len() + k])
                < table.spans().len() && table.spans()[list[first.len() + k] as int] == (
                i as int,
                seconds[k] as int,
            ) by {
                if k < m {
                    assert(table.spans()[list[first.len() + k] as int] == before[list[first.len()
                        + k] as int]);
                }
            }
        }
        m += 1;
    }
}

/// Adds to the list the places of the pairs of each number of `firsts`
/// and `j`.
fn place_column(table: &mut PairTable, list: &mut Vec<usize>, firsts: &Vec<usize>, j: usize)
    requires
        old(table).ok(),
        j < old(table).width(),
        forall|m: int| 0 <= m < firsts.len() ==> #[trigger] firsts[m] < old(table).height(),
    ensures
        final(table).ok(),
        final(table).height() == old(table).height(),
        final(table).width() == old(table).width(),
        begins(old(table).spans(), final(table).spans()),
        final(list).len() == old(list).len() + firsts.len(),
        forall|m: int| 0 <= m < old(list).len() ==> #[trigger] final(list)[m] == old(list)[m],
        forall|m: int|
            0 <= m < firsts.len() ==> (#[trigger] final(list)[old(list).len() + m])
                < final(table).spans().len() && final(table).spans()[final(list)[old(list).len()
                + m] as int] == (firsts[m] as int, j as int),
{
    let ghost first = list@;
    let mut m: usize = 0;
    while m < firsts.len()
        invariant
            m <= firsts.len(),
            table.ok(),
            table.height() == old(table).height(),
            table.width() == old(table).width(),
            j < table.width(),
            forall|m: int| 0 <= m < firsts.len() ==> #[trigger] firsts[m] < table.height(),
            begins(old(table).spans(), table.spans()),
            list.len() == first.len() + m,
            forall|k: int| 0 <= k < first.len() ==> #[trigger] list[k] == first[k],
            forall|k: int|
                0 <= k < m ==> (#[trigger] list[first.len() + k]) < table.spans().len()
                    && table.spans()[list[first.len() + k] as int] == (firsts[k] as int, j as int),
        decreases firsts.len() - m,
    {
        let ghost before = table.spans();
        let at = table.place(firsts[m], j);
        list.push(at);
        proof {
            assert forall|k: int| 0 <= k < m + 1 implies (#[trigger] list[first.len() + k])
                < table.spans().len() && table.spans()[list[first.len() + k] as int] == (
                firsts[k] as int,
                j as int,
            ) by {
                if k < m {
                    assert(table.spans()[list[first.len() + k] as int] == before[list[first.len()
                        + k] as int]);
                }
            }
        }
        m += 1;
    }
}

/// The places of the pairs of a number of `firsts` and a number of
/// `seconds`.
fn place_all(table: &mut PairTable, firsts: &Vec<usize>, seconds: &Vec<usize>) -> (list: Vec<usize>)
    requires
        old(table).ok(),
        forall|m: int| 0 <= m < firsts.len() ==> #[trigger] firsts[m] < old(table).height(),
        forall|m: int| 0 <= m < seconds.len() ==> #[trigger] seconds[m] < old(table).width(),
    ensures
        final(table).ok(),
        final(table).height() == old(table).height(),
        final(table).width() == old(table).width(),
        begins(old(table).spans(), final(table).spans()),
        pairs_listed(
            final(table).spans(),
            targets_of(list@),
            targets_of(firsts@),
            targets_of(seconds@),
        ),
{
    let mut list: Vec<usize> = Vec::new();
    let ghost heads = targets_of(firsts@);
    let ghost tails = targets_of(seconds@);
    let mut i: usize = 0;
    while i < firsts.len()
        invariant
            i <= firsts.len(),
            table.ok(),
            table.height() == old(table).height(),
            table.width() == old(table).width(),
            heads == targets_of(firsts@),
            tails == targets_of(seconds@),
            forall|m: int| 0 <= m < firsts.len() ==> #[trigger] firsts[m] < table.height(),
            forall|m: int| 0 <= m < seconds.len() ==> #[trigger] seconds[m] < table.width(),
            begins(old(table).spans(), table.spans()),
            forall|m: int|
                0 <= m < list.len() ==> (#[trigger] list[m]) < table.spans().len()
                    && heads.contains(table.spans()[list[m] as int].0) && tails.contains(
                    table.spans()[list[m] as int].1,
                ),
            forall|k: int, l: int|
                0 <= k < i && 0 <= l < seconds.len() ==> #[trigger] lists_pair(
                    table.spans(),
                    targets_of(list@),
                    (firsts[k] as int, seconds[l] as int),
                ),
        decreases firsts.len() - i,
    {
        let ghost before = table.spans();
        let ghost listed = list@;
        place_row(table, &mut list, firsts[i], seconds);
        proof {
            let after = table.spans();
            assert forall|m: int| 0 <= m < list.len() implies (#[trigger] list[m]) < after.len()
                && heads.contains(after[list[m] as int].0) && tails.contains(
                after[list[m] as int].1,
            ) by {
                if m < listed.len() {
                    assert(list[m] == listed[m]);
                    assert(after[list[m] as int] == before[list[m] as int]);
                } else {
                    let l = m - listed.len();
                    assert(list[listed.len() + l] == list[m]);
                    assert(heads[i as int] == firsts[i as int] as int);
                    assert(tails[l] == seconds[l] as int);
                }
            }
            assert forall|k: int, l: int|
                0 <= k < i + 1 && 0 <= l < seconds.len() implies #[trigger] lists_pair(
                after,
                targets_of(list@),
                (firsts[k] as int, seconds[l] as int),
            ) by {
                let pair = (firsts[k] as int, seconds[l] as int);
                if k < i {
                    assert(lists_pair(before, targets_of(listed), pair));
                    let at = choose|at: int|
                        0 <= at < before.len() && before[at] == pair && targets_of(listed).contains(
                            at,
                        );
                    let m = choose|m: int|
                        0 <= m < targets_of(listed).len() && targets_of(listed)[m] == at;
                    assert(targets_of(list@)[m] == at);
                    assert(after[at] == before[at]);
                } else {
                    let m = listed.len() + l;
                    let at = list[m] as int;
                    assert(targets_of(list@)[m] == at);
                    assert(after[at] == pair);
                }
            }
        }
        i += 1;
    }
    proof {
        let spans = table.spans();
        let places = targets_of(list@);
        assert forall|t: int| #[trigger] places.contains(t) implies 0 <= t < spans.len()
            && heads.contains(spans[t].0) && tails.contains(spans[t].1) by {
            let m = choose|m: int| 0 <= m < places.len() && places[m] == t;
            assert(list[m] == t);
        }
        assert forall|s: int, t: int| heads.contains(s) && tails.contains(t) implies #[trigger] lists_pair(
            spans,
            places,
            (s, t),
        ) by {
            let k = choose|k: int| 0 <= k < heads.len() && heads[k] == s;
            let l = choose|l: int| 0 <= l < tails.len() && tails[l] == t;
            assert(lists_pair(spans, places, (firsts[k] as int, seconds[l] as int)));
        }
    }
    list
}

/// The state for the pair at place `k`; the pairs to which its moves lead
/// are added to the pairs where they are not among them.
fn state_of_pair(
    a: &Nfa,
    b: &Nfa,
    places: &Vec<usize>,
    how: Combination,
    table: &mut PairTable,
    k: usize,
) -> (state: NfaState)
    requires
        old(table).ok(),
        old(table).height() == a@.states.len(),
        old(table).width() == b@.states.len(),
        k < old(table).spans().len(),
        places.len() == a@.alphabet.len(),
        forall|x: int| 0 <= x < places.len() ==> #[trigger] places[x] < b@.alphabet.len(),
    ensures
        final(table).ok(),
        final(table).height() == old(table).height(),
        final(table).width() == old(table).width(),
        begins(old(table).spans(), final(table).spans()),
        state_ok(a@, b@, targets_of(places@), how, final(table).spans(), k as int, state@),
{
    let ghost ma = a@;
    let ghost mb = b@;
    let ghost orders = targets_of(places@);
    let ghost start = table.spans();
    let (p, q) = table.pair(k);
    proof {
        table.lemma_ok();
    }
    let ghost from = (p as int, q as int);
    let silent_a = a.epsilon_targets(p);
    let silent_b = b.epsilon_targets(q);
    let mut silent: Vec<usize> = Vec::new();
    place_column(table, &mut silent, silent_a, q);
    let ghost middle = table.spans();
    let ghost half = silent@;
    place_row(table, &mut silent, p, silent_b);
    let ghost listed = table.spans();
    proof {
        let list = targets_of(silent@);
        let ea = ma.states[p as int].epsilon_transitions;
        let eb = mb.states[q as int].epsilon_transitions;
        assert(ea == targets_of(silent_a@));
        assert(eb == targets_of(silent_b@));
        assert forall|t: int| #[trigger] list.contains(t) implies 0 <= t < listed.len()
            && silent_step(ma, mb, from, listed[t]) by {
            let m = choose|m: int| 0 <= m < list.len() && list[m] == t;
            assert(silent[m] == t);
            if m < half.len() {
                assert(silent[m] == half[m]);
                assert(half[0 + m] == half[m]);
                assert(listed[t] == middle[t]);
                assert(ea[m] == silent_a[m] as int);
                assert(ea.contains(listed[t].0));
            } else {
                let l = m - half.len();
                assert(silent[half.len() + l] == silent[m]);
                assert(eb[l] == silent_b[l] as int);
                assert(eb.contains(listed[t].1));
            }
        }
        assert forall|to: (int, int)|
            in_both(ma, mb, to) && #[trigger] silent_step(ma, mb, from, to) implies lists_pair(
            listed,
            list,
            to,
        ) by {
            if to.1 == from.1 && ea.contains(to.0) {
                let m = choose|m: int| 0 <= m < ea.len() && ea[m] == to.0;
                assert(ea[m] == silent_a[m] as int);
                let at = half[0 + m] as int;
                assert(silent[m] == half[m]);
                assert(list[m] == at);
                assert(listed[at] == middle[at]);
                assert(listed[at] == to);
            } else {
                let l = choose|l: int| 0 <= l < eb.len() && eb[l] == to.1;
                assert(eb[l] == silent_b[l] as int);
                let at = silent[half.len() + l] as int;
                assert(list[half.len() + l] == at);
                assert(listed[at] == to);
            }
        }
        assert(silent_ok(ma, mb, listed, from, list));
    }
    let symbols = a.symbol_count();
    let mut moves: Vec<Vec<usize>> = Vec::new();
    let mut x: usize = 0;
    while x < symbols
        invariant
            x <= symbols,
            symbols == ma.alphabet.len(),
            ma == a@,
            mb == b@,
            p < ma.states.len(),
            q < mb.states.len(),
            places.len() == ma.alphabet.len(),
            forall|x: int| 0 <= x < places.len() ==> #[trigger] places[x] < mb.alphabet.len(),
            table.ok(),
            table.height() == ma.states.len(),
            table.width() == mb.states.len(),
            begins(listed, table.spans()),
            moves.len() == x,
            forall|y: int|
                0 <= y < x ==> pairs_listed(
                    table.spans(),
                    targets_of((#[trigger] moves[y])@),
                    ma.states[p as int].transitions[y],
                    mb.states[q as int].transitions[places[y] as int],
                ),
        decreases symbols - x,
    {
        let ghost before = table.spans();
        let list = place_all(table, a.targets(p, x), b.targets(q, places[x]));
        proof {
            assert forall|y: int| 0 <= y < x implies pairs_listed(
                table.spans(),
                targets_of((#[trigger] moves[y])@),
                ma.states[p as int].transitions[y],
                mb.states[q as int].transitions[places[y] as int],
            ) by {
                lemma_listed_grows(
                    before,
                    table.spans(),
                    targets_of(moves[y]@),
                    ma.states[p as int].transitions[y],
                    mb.states[q as int].transitions[places[y] as int],
                );
            }
        }
        moves.push(list);
        x += 1;
    }
    let states_a = a.states();
    let states_b = b.states();
    assert(ma.states[p as int] == states_a[p as int]@);
    assert(mb.states[q as int] == states_b[q as int]@);
    let state = NfaState::from_parts(
        name_pair(states_a[p].name(), states_b[q].name()),
        k == 0,
        how.apply(states_a[p].is_accepting(), states_b[q].is_accepting()),
        silent,
        moves,
    );
    proof {
        let spans = table.spans();
        assert(spans[k as int] == from) by {
            assert(listed[k as int] == middle[k as int]);
            assert(middle[k as int] == start[k as int]);
        }
        assert(silent_ok(ma, mb, spans, from, state@.epsilon_transitions)) by {
            let list = state@.epsilon_transitions;
            assert forall|t: int| #[trigger] list.contains(t) implies 0 <= t < spans.len()
                && silent_step(ma, mb, from, spans[t]) by {
                assert(spans[t] == listed[t]);
            }
            assert forall|to: (int, int)|
                in_both(ma, mb, to) && #[trigger] silent_step(ma, mb, from, to) implies lists_pair(
                spans,
                list,
                to,
            ) by {
                assert(lists_pair(listed, list, to));
                let at = choose|at: int|
                    0 <= at < listed.len() && listed[at] == to && list.contains(at);
                assert(spans[at] == listed[at]);
            }
        }
        assert forall|x: int| 0 <= x < ma.alphabet.len() implies symbol_ok(
            ma,
            mb,
            orders,
            x,
            spans,
            from,
            #[trigger] state@.transitions[x],
        ) by {
            let list = state@.transitions[x];
            assert(list == targets_of(moves[x]@));
            assert(orders[x] == places[x] as int);
            let da = ma.states[p as int].transitions[x];
            let db = mb.states[q as int].transitions[places[x] as int];
            assert(pairs_listed(spans, list, da, db));
            assert forall|to: (int, int)|
                in_both(ma, mb, to) && #[trigger] symbol_step(
                    ma,
                    mb,
                    orders,
                    x,
                    from,
                    to,
                ) implies lists_pair(spans, list, to) by {
                assert(lists_pair(spans, list, (to.0, to.1)));
            }
        }
    }
    state
}

/// The automaton of the pairs of states that the pair of the initial
/// states reaches, in the order in which they are found.
fn pair_automaton(a: &Nfa, b: &Nfa, places: &Vec<usize>, how: Combination) -> (made: (
    Nfa,
    Ghost<Seq<(int, int)>>,
))
    requires
        places.len() == a@.alphabet.len(),
        forall|x: int| 0 <= x < places.len() ==> #[trigger] places[x] < b@.alphabet.len(),
    ensures
        made.0@.wf(),
        is_pair_automaton(made.0@, a@, b@, targets_of(places@), how, made.1@),
{
    let count_a = a.state_count();
    let count_b = b.state_count();
    let initial_a = a.initial_state_index();
    let initial_b = b.initial_state_index();
    let ghost ma = a@;
    let ghost mb = b@;
    let ghost orders = targets_of(places@);
    let mut table = PairTable::new(count_a, count_b, initial_a, initial_b);
    let ghost first = table.spans();
    let mut built: Vec<NfaState> = Vec::new();
    let mut head: usize = 0;
    while head < table.len()
        invariant
            ma == a@,
            mb == b@,
            orders == targets_of(places@),
            places.len() == ma.alphabet.len(),
            forall|x: int| 0 <= x < places.len() ==> #[trigger] places[x] < mb.alphabet.len(),
            table.ok(),
            table.height() == count_a,
            table.width() == count_b,
            count_a == ma.states.len(),
            count_b == mb.states.len(),
            begins(first, table.spans()),
            head <= table.spans().len(),
            built.len() == head,
            forall|k: int|
                0 <= k < head ==> state_ok(
                    ma,
                    mb,
                    orders,
                    how,
                    table.spans(),
                    k,
                    (#[trigger] built[k])@,
                ),
        decreases count_a * count_b - head,
    {
        proof {
            table.lemma_ok();
        }
        let ghost before = table.spans();
        let state = state_of_pair(a, b, places, how, &mut table, head);
        proof {
            table.lemma_ok();
            assert forall|k: int| 0 <= k < head implies state_ok(
                ma,
                mb,
                orders,
                how,
                table.spans(),
                k,
                (#[trigger] built[k])@,
            ) by {
                lemma_state_grows(ma, mb, orders, how, before, table.spans(), k, built[k]@);
            }
        }
        built.push(state);
        head += 1;
    }
    let letters = clone_strings(a.alphabet());
    let ghost pairs = table.spans();
    proof {
        table.lemma_ok();
        let p = nfa_model(letters@, built@, 0);
        assert(pairs[0] == first[0]);
        assert forall|k: int| 0 <= k < pairs.len() implies state_ok(
            ma,
            mb,
            orders,
            how,
            pairs,
            k,
            #[trigger] p.states[k],
        ) by {
            assert(p.states[k] == built[k]@);
        }
        assert forall|k: int, x: int, i: int|
            0 <= k < p.states.len() && 0 <= x < p.alphabet.len() && 0 <= i
                < p.states[k].transitions[x].len() implies 0
            <= #[trigger] p.states[k].transitions[x][i] < p.states.len() by {
            assert(state_ok(ma, mb, orders, how, pairs, k, p.states[k]));
            assert(symbol_ok(ma, mb, orders, x, pairs, pairs[k], p.states[k].transitions[x]));
            assert(p.states[k].transitions[x].contains(p.states[k].transitions[x][i]));
        }
        assert forall|k: int, i: int|
            0 <= k < p.states.len() && 0 <= i < p.states[k].epsilon_transitions.len() implies 0
            <= #[trigger] p.states[k].epsilon_transitions[i] < p.states.len() by {
            assert(state_ok(ma, mb, orders, how, pairs, k, p.states[k]));
            assert(p.states[k].epsilon_transitions.contains(p.states[k].epsilon_transitions[i]));
        }
        assert forall|k: int| 0 <= k < p.states.len() implies (#[trigger] p.states[k]).initial == (k
            == p.initial) by {
            assert(state_ok(ma, mb, orders, how, pairs, k, p.states[k]));
        }
        assert forall|k: int|
            0 <= k < p.states.len() implies (#[trigger] p.states[k]).transitions.len()
            == p.alphabet.len() by {
            assert(state_ok(ma, mb, orders, how, pairs, k, p.states[k]));
        }
        assert(p.wf());
        assert(is_pair_automaton(p, ma, mb, orders, how, pairs)) by {
            assert forall|k: int| 0 <= k < pairs.len() implies in_both(ma, mb, #[trigger] pairs[k]) by {}
            assert forall|k: int, t: int|
                0 <= k < pairs.len() && #[trigger] p.states[k].epsilon_transitions.contains(
                    t,
                ) implies 0 <= t < pairs.len() && silent_step(ma, mb, pairs[k], pairs[t]) by {
                assert(state_ok(ma, mb, orders, how, pairs, k, p.states[k]));
            }
            assert forall|k: int, to: (int, int)|
                0 <= k < pairs.len() && in_both(ma, mb, to) && #[trigger] silent_step(
                    ma,
                    mb,
                    pairs[k],
                    to,
                ) implies lists_pair(pairs, p.states[k].epsilon_transitions, to) by {
                assert(state_ok(ma, mb, orders, how, pairs, k, p.states[k]));
            }
            assert forall|k: int, x: int, t: int|
                0 <= k < pairs.len() && 0 <= x < ma.alphabet.len()
                    && #[trigger] p.states[k].transitions[x].contains(t) implies 0 <= t
                < pairs.len() && symbol_step(ma, mb, orders, x, pairs[k], pairs[t]) by {
                assert(state_ok(ma, mb, orders, how, pairs, k, p.states[k]));
                assert(symbol_ok(ma, mb, orders, x, pairs, pairs[k], p.states[k].transitions[x]));
            }
            assert forall|k: int, x: int, to: (int, int)|
                0 <= k < pairs.len() && 0 <= x < ma.alphabet.len() && in_both(ma, mb, to)
                    && #[trigger] symbol_step(ma, mb, orders, x, pairs[k], to) implies lists_pair(
                pairs,
                p.states[k].transitions[x],
                to,
            ) by {
                assert(state_ok(ma, mb, orders, how, pairs, k, p.states[k]));
                assert(symbol_ok(ma, mb, orders, x, pairs, pairs[k], p.states[k].transitions[x]));
            }
            assert forall|k: int| 0 <= k < pairs.len() implies {
                &&& (#[trigger] p.states[k]).name == crate::dfa::product::pair_name(
                    ma.states[pairs[k].0].name,
                    mb.states[pairs[k].1].name,
                )
                &&& p.states[k].accepting == how.combine(
                    ma.states[pairs[k].0].accepting,
                    mb.states[pairs[k].1].accepting,
                )
            } by {
                assert(state_ok(ma, mb, orders, how, pairs, k, p.states[k]));
            }
        }
    }
    (Nfa::from_parts(letters, built, 0), Ghost(pairs))
}

impl Nfa {
    /// The automaton of the pairs of states of the two automata that the
    /// pair of the initial states reaches. A symbol leads from a pair to
    /// the pairs of the states to which it leads the two states, and a
    /// move that reads nothing of one of the two automata is such a move
    /// from a pair while the other state stays. A pair accepts where the
    /// combination of the two flags says so, so that a word is accepted
    /// where it leads the two automata to a pair of states that accepts.
    /// The two alphabets must hold the same symbols; the automaton has the
    /// alphabet of the first.
    pub fn product_construction(&self, other: &Nfa, how: Combination) -> (made: Result<Nfa, Error>)
        ensures
            match made {
                Ok(p) => {
                    &&& same_symbols(self@.alphabet, other@.alphabet)
                    &&& p@.wf()
                    &&& exists|pairs: Seq<(int, int)>|
                        is_pair_automaton(
                            p@,
                            self@,
                            other@,
                            places_in(other@.alphabet, self@.alphabet),
                            how,
                            pairs,
                        )
                    &&& forall|word: Seq<Seq<char>>|
                        #[trigger] p@.accepts(word) == ends_in_pair(self@, other@, how, word)
                },
                Err(e) => e@ == ErrorModel::AlphabetMismatch && !same_symbols(
                    self@.alphabet,
                    other@.alphabet,
                ),
            },
    {
        let _ = self.symbol_count();
        let _ = other.symbol_count();
        let forth = all_among(self.alphabet(), other.alphabet());
        let back = all_among(other.alphabet(), self.alphabet());
        if !forth || !back {
            return Err(Error::AlphabetMismatch);
        }
        let places = places_of(other.alphabet(), self.alphabet());
        let (made, Ghost(pairs)) = pair_automaton(self, other, &places, how);
        proof {
            assert(is_pair_automaton(
                made@,
                self@,
                other@,
                places_in(other@.alphabet, self@.alphabet),
                how,
                pairs,
            ));
            assert forall|word: Seq<Seq<char>>|
                #[trigger] made@.accepts(word) == ends_in_pair(self@, other@, how, word) by {
                law_pair_automaton(made@, self@, other@, how, pairs, word);
            }
        }
        let ghost model = made@;
        let result = Ok(made);
        assert(result matches Ok(p) && p@ == model);
        assert(model.wf());
        assert(same_symbols(self@.alphabet, other@.alphabet));
        assert(exists|pairs: Seq<(int, int)>|
            is_pair_automaton(
                model,
                self@,
                other@,
                places_in(other@.alphabet, self@.alphabet),
                how,
                pairs,
            ));
        assert(forall|word: Seq<Seq<char>>|
            #[trigger] model.accepts(word) == ends_in_pair(self@, other@, how, word));
        result
    }

    /// The automaton that accepts the words that both accept: the
    /// automaton of the pairs of states in which a pair accepts where both
    /// states accept.
    pub fn intersection(&self, other: &Nfa) -> (made: Result<Nfa, Error>)
        ensures
            match made {
                Ok(p) => {
                    &&& same_symbols(self@.alphabet, other@.alphabet)
                    &&& p@.wf()
                    &&& p@.alphabet == self@.alphabet
                    &&& exists|pairs: Seq<(int, int)>|
                        is_pair_automaton(
                            p@,
                            self@,
                            other@,
                            places_in(other@.alphabet, self@.alphabet),
                            Combination::Intersection,
                            pairs,
                        )
                    &&& forall|word: Seq<Seq<char>>|
                        #[trigger] p@.accepts(word) == (self@.accepts(word) && other@.accepts(word))
                },
                Err(e) => e@ == ErrorModel::AlphabetMismatch && !same_symbols(
                    self@.alphabet,
                    other@.alphabet,
                ),
            },
    {
        let _ = self.symbol_count();
        let _ = other.symbol_count();
        let made = self.product_construction(other, Combination::Intersection);
        proof {
            if let Ok(p) = &made {
                let pairs = choose|pairs: Seq<(int, int)>|
                    is_pair_automaton(
                        p@,
                        self@,
                        other@,
                        places_in(other@.alphabet, self@.alphabet),
                        Combination::Intersection,
                        pairs,
                    );
                assert forall|word: Seq<Seq<char>>|
                    #[trigger] p@.accepts(word) == (self@.accepts(word) && other@.accepts(
                        word,
                    )) by {
                    law_pair_intersection(p@, self@, other@, pairs, word);
                }
            }
        }
        made
    }
}

} // verus!
