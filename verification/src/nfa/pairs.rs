//! The automaton of the pairs of states of two nondeterministic automata:
//! what it is, and which words it accepts.

use vstd::prelude::*;
use crate::alphabet::{lemma_symbol_position, symbol_position};
use crate::dfa::product::{Combination, pair_name, same_symbols};
use crate::graph::{edge, is_path, lemma_reaches_more, lemma_reaches_self, lemma_reaches_transitive, reaches};
use crate::nfa::blocks::{holds_closed, inside, lemma_closed_set};
use crate::nfa::epsilon::{lemma_path_within, lemma_reach_within};
use crate::nfa::fork::places_in;
use crate::nfa::pair_table::begins;
use crate::nfa::{NfaModel, NfaStateModel};

verus! {

/// Whether the two numbers of the pair are states of the two automata.
pub open spec fn in_both(a: NfaModel, b: NfaModel, pair: (int, int)) -> bool {
    0 <= pair.0 < a.states.len() && 0 <= pair.1 < b.states.len()
}

/// Whether a move that reads nothing leads from one pair to the other:
/// one of the two automata makes such a move and the other stays.
pub open spec fn silent_step(a: NfaModel, b: NfaModel, from: (int, int), to: (int, int)) -> bool {
    ||| (to.1 == from.1 && a.states[from.0].epsilon_transitions.contains(to.0))
    ||| (to.0 == from.0 && b.states[from.1].epsilon_transitions.contains(to.1))
}

/// Whether the symbol at position `x` leads from one pair to the other:
/// both automata read it, the second at the position that `places` gives.
pub open spec fn symbol_step(
    a: NfaModel,
    b: NfaModel,
    places: Seq<int>,
    x: int,
    from: (int, int),
    to: (int, int),
) -> bool {
    a.states[from.0].transitions[x].contains(to.0) && b.states[from.1].transitions[places[x]].contains(
        to.1,
    )
}

/// Whether the list holds the place of the pair.
pub open spec fn lists_pair(pairs: Seq<(int, int)>, list: Seq<int>, pair: (int, int)) -> bool {
    exists|t: int| 0 <= t < pairs.len() && pairs[t] == pair && list.contains(t)
}

/// Whether `p` is the automaton of the pairs `pairs` of states of `a` and
/// `b`: the pair of the initial states comes first, no pair stands twice,
/// a state is named after its pair and accepts where the combination of
/// the two flags says so, and its moves are those that lead from its pair
/// to a pair, all of which are among the pairs.
pub open spec fn is_pair_automaton(
    p: NfaModel,
    a: NfaModel,
    b: NfaModel,
    places: Seq<int>,
    how: Combination,
    pairs: Seq<(int, int)>,
) -> bool {
    &&& p.alphabet == a.alphabet
    &&& p.initial == 0
    &&& pairs.len() == p.states.len()
    &&& pairs.len() > 0
    &&& pairs[0] == (a.initial, b.initial)
    &&& pairs.no_duplicates()
    &&& forall|k: int| 0 <= k < pairs.len() ==> in_both(a, b, #[trigger] pairs[k])
    &&& forall|k: int|
        0 <= k < pairs.len() ==> {
            &&& (#[trigger] p.states[k]).name == pair_name(
                a.states[pairs[k].0].name,
                b.states[pairs[k].1].name,
            )
            &&& p.states[k].accepting == how.combine(
                a.states[pairs[k].0].accepting,
                b.states[pairs[k].1].accepting,
            )
        }
    &&& forall|k: int, t: int|
        0 <= k < pairs.len() && #[trigger] p.states[k].epsilon_transitions.contains(t) ==> 0 <= t
            < pairs.len() && silent_step(a, b, pairs[k], pairs[t])
    &&& forall|k: int, to: (int, int)|
        0 <= k < pairs.len() && in_both(a, b, to) && #[trigger] silent_step(a, b, pairs[k], to)
            ==> lists_pair(pairs, p.states[k].epsilon_transitions, to)
    &&& forall|k: int, x: int, t: int|
        0 <= k < pairs.len() && 0 <= x < a.alphabet.len()
            && #[trigger] p.states[k].transitions[x].contains(t) ==> 0 <= t < pairs.len()
            && symbol_step(a, b, places, x, pairs[k], pairs[t])
    &&& forall|k: int, x: int, to: (int, int)|
        0 <= k < pairs.len() && 0 <= x < a.alphabet.len() && in_both(a, b, to)
            && #[trigger] symbol_step(a, b, places, x, pairs[k], to) ==> lists_pair(
            pairs,
            p.states[k].transitions[x],
            to,
        )
}

/// Whether the list holds the places of the pairs to which moves that
/// read nothing lead from the pair `from`, and no others.
pub open spec fn silent_ok(
    a: NfaModel,
    b: NfaModel,
    pairs: Seq<(int, int)>,
    from: (int, int),
    list: Seq<int>,
) -> bool {
    &&& forall|t: int|
        #[trigger] list.contains(t) ==> 0 <= t < pairs.len() && silent_step(a, b, from, pairs[t])
    &&& forall|to: (int, int)|
        in_both(a, b, to) && #[trigger] silent_step(a, b, from, to) ==> lists_pair(pairs, list, to)
}

/// Whether the list holds the places of the pairs to which the symbol at
/// position `x` leads from the pair `from`, and no others.
pub open spec fn symbol_ok(
    a: NfaModel,
    b: NfaModel,
    places: Seq<int>,
    x: int,
    pairs: Seq<(int, int)>,
    from: (int, int),
    list: Seq<int>,
) -> bool {
    &&& forall|t: int|
        #[trigger] list.contains(t) ==> 0 <= t < pairs.len() && symbol_step(
            a,
            b,
            places,
            x,
            from,
            pairs[t],
        )
    &&& forall|to: (int, int)|
        in_both(a, b, to) && #[trigger] symbol_step(a, b, places, x, from, to) ==> lists_pair(
            pairs,
            list,
            to,
        )
}

/// Whether `state` is the state for the pair at place `k`.
pub open spec fn state_ok(
    a: NfaModel,
    b: NfaModel,
    places: Seq<int>,
    how: Combination,
    pairs: Seq<(int, int)>,
    k: int,
    state: NfaStateModel,
) -> bool {
    &&& state.name == pair_name(a.states[pairs[k].0].name, b.states[pairs[k].1].name)
    &&& state.accepting == how.combine(
        a.states[pairs[k].0].accepting,
        b.states[pairs[k].1].accepting,
    )
    &&& state.initial == (k == 0)
    &&& state.transitions.len() == a.alphabet.len()
    &&& silent_ok(a, b, pairs, pairs[k], state.epsilon_transitions)
    &&& forall|x: int|
        0 <= x < a.alphabet.len() ==> symbol_ok(
            a,
            b,
            places,
            x,
            pairs,
            pairs[k],
            #[trigger] state.transitions[x],
        )
}

/// Whether the list holds the places of the pairs of a number of `firsts`
/// and a number of `seconds`, and no others.
pub open spec fn pairs_listed(
    pairs: Seq<(int, int)>,
    list: Seq<int>,
    firsts: Seq<int>,
    seconds: Seq<int>,
) -> bool {
    &&& forall|t: int|
        #[trigger] list.contains(t) ==> 0 <= t < pairs.len() && firsts.contains(pairs[t].0)
            && seconds.contains(pairs[t].1)
    &&& forall|s: int, t: int|
        firsts.contains(s) && seconds.contains(t) ==> #[trigger] lists_pair(pairs, list, (s, t))
}

/// A list of places stays what it is where pairs are added.
pub proof fn lemma_listed_grows(
    before: Seq<(int, int)>,
    after: Seq<(int, int)>,
    list: Seq<int>,
    firsts: Seq<int>,
    seconds: Seq<int>,
)
    requires
        begins(before, after),
        pairs_listed(before, list, firsts, seconds),
    ensures
        pairs_listed(after, list, firsts, seconds),
{
    assert forall|t: int| #[trigger] list.contains(t) implies 0 <= t < after.len()
        && firsts.contains(after[t].0) && seconds.contains(after[t].1) by {
        assert(after[t] == before[t]);
    }
    assert forall|s: int, t: int| firsts.contains(s) && seconds.contains(t) implies #[trigger] lists_pair(
        after,
        list,
        (s, t),
    ) by {
        assert(lists_pair(before, list, (s, t)));
        let at = choose|at: int| 0 <= at < before.len() && before[at] == (s, t) && list.contains(at);
        assert(after[at] == before[at]);
    }
}

/// A state stays the state for its pair where pairs are added.
pub proof fn lemma_state_grows(
    a: NfaModel,
    b: NfaModel,
    places: Seq<int>,
    how: Combination,
    before: Seq<(int, int)>,
    after: Seq<(int, int)>,
    k: int,
    state: NfaStateModel,
)
    requires
        begins(before, after),
        0 <= k < before.len(),
        state_ok(a, b, places, how, before, k, state),
    ensures
        state_ok(a, b, places, how, after, k, state),
{
    assert(after[k] == before[k]);
    let from = before[k];
    assert(silent_ok(a, b, after, from, state.epsilon_transitions)) by {
        let list = state.epsilon_transitions;
        assert forall|t: int| #[trigger] list.contains(t) implies 0 <= t < after.len()
            && silent_step(a, b, from, after[t]) by {
            assert(after[t] == before[t]);
        }
        assert forall|to: (int, int)|
            in_both(a, b, to) && #[trigger] silent_step(a, b, from, to) implies lists_pair(
            after,
            list,
            to,
        ) by {
            assert(lists_pair(before, list, to));
            let at = choose|at: int| 0 <= at < before.len() && before[at] == to && list.contains(at);
            assert(after[at] == before[at]);
        }
    }
    assert forall|x: int| 0 <= x < a.alphabet.len() implies symbol_ok(
        a,
        b,
        places,
        x,
        after,
        from,
        #[trigger] state.transitions[x],
    ) by {
        let list = state.transitions[x];
        assert(symbol_ok(a, b, places, x, before, from, list));
        assert forall|t: int| #[trigger] list.contains(t) implies 0 <= t < after.len()
            && symbol_step(a, b, places, x, from, after[t]) by {
            assert(after[t] == before[t]);
        }
        assert forall|to: (int, int)|
            in_both(a, b, to) && #[trigger] symbol_step(a, b, places, x, from, to) implies lists_pair(
            after,
            list,
            to,
        ) by {
            assert(lists_pair(before, list, to));
            let at = choose|at: int| 0 <= at < before.len() && before[at] == to && list.contains(at);
            assert(after[at] == before[at]);
        }
    }
}

/// The place of a pair among the pairs.
pub open spec fn place_in(pairs: Seq<(int, int)>, pair: (int, int)) -> int {
    choose|k: int| 0 <= k < pairs.len() && pairs[k] == pair
}

/// The places of the pairs of a state of `first` and a state of `second`.
pub open spec fn pairs_of(pairs: Seq<(int, int)>, first: Set<int>, second: Set<int>) -> Set<int> {
    Set::new(
        |k: int| 0 <= k < pairs.len() && first.contains(pairs[k].0) && second.contains(pairs[k].1),
    )
}

/// Whether every pair of a state of `first` and a state of `second` is
/// among the pairs.
pub open spec fn covered(pairs: Seq<(int, int)>, first: Set<int>, second: Set<int>) -> bool {
    forall|s: int, t: int|
        first.contains(s) && second.contains(t) ==> #[trigger] pairs.contains((s, t))
}

/// Where the first automaton walks along moves that read nothing and the
/// second stays, the automaton of pairs walks along.
pub proof fn lemma_walk_first(
    p: NfaModel,
    a: NfaModel,
    b: NfaModel,
    places: Seq<int>,
    how: Combination,
    pairs: Seq<(int, int)>,
    path: Seq<int>,
    t: int,
)
    requires
        a.wf(),
        b.wf(),
        is_pair_automaton(p, a, b, places, how, pairs),
        is_path(a.epsilon_graph(), path),
        pairs.contains((path[0], t)),
    ensures
        pairs.contains((path.last(), t)),
        reaches(
            p.epsilon_graph(),
            place_in(pairs, (path[0], t)),
            place_in(pairs, (path.last(), t)),
        ),
    decreases path.len(),
{
    let g = p.epsilon_graph();
    let k0 = place_in(pairs, (path[0], t));
    assert(in_both(a, b, pairs[k0]));
    if path.len() <= 1 {
        lemma_reaches_self(g, k0);
    } else {
        let shorter = path.drop_last();
        lemma_walk_first(p, a, b, places, how, pairs, shorter, t);
        lemma_path_within(a, shorter);
        lemma_path_within(a, path);
        let u = shorter.last();
        let v = path.last();
        let ku = place_in(pairs, (u, t));
        assert(edge(a.epsilon_graph(), u, v));
        assert(a.epsilon_graph()[u] == a.states[u].epsilon_transitions);
        assert(silent_step(a, b, pairs[ku], (v, t)));
        assert(in_both(a, b, (v, t)));
        assert(lists_pair(pairs, p.states[ku].epsilon_transitions, (v, t)));
        let kv = choose|kv: int|
            0 <= kv < pairs.len() && pairs[kv] == (v, t)
                && p.states[ku].epsilon_transitions.contains(kv);
        assert(kv == place_in(pairs, (v, t)));
        assert(g[ku] == p.states[ku].epsilon_transitions);
        lemma_reaches_more(g, k0, ku, kv);
    }
}

/// Where the second automaton walks along moves that read nothing and the
/// first stays, the automaton of pairs walks along.
pub proof fn lemma_walk_second(
    p: NfaModel,
    a: NfaModel,
    b: NfaModel,
    places: Seq<int>,
    how: Combination,
    pairs: Seq<(int, int)>,
    s: int,
    path: Seq<int>,
)
    requires
        a.wf(),
        b.wf(),
        is_pair_automaton(p, a, b, places, how, pairs),
        is_path(b.epsilon_graph(), path),
        pairs.contains((s, path[0])),
    ensures
        pairs.contains((s, path.last())),
        reaches(
            p.epsilon_graph(),
            place_in(pairs, (s, path[0])),
            place_in(pairs, (s, path.last())),
        ),
    decreases path.len(),
{
    let g = p.epsilon_graph();
    let k0 = place_in(pairs, (s, path[0]));
    assert(in_both(a, b, pairs[k0]));
    if path.len() <= 1 {
        lemma_reaches_self(g, k0);
    } else {
        let shorter = path.drop_last();
        lemma_walk_second(p, a, b, places, how, pairs, s, shorter);
        lemma_path_within(b, shorter);
        lemma_path_within(b, path);
        let u = shorter.last();
        let v = path.last();
        let ku = place_in(pairs, (s, u));
        assert(edge(b.epsilon_graph(), u, v));
        assert(b.epsilon_graph()[u] == b.states[u].epsilon_transitions);
        assert(silent_step(a, b, pairs[ku], (s, v)));
        assert(in_both(a, b, (s, v)));
        assert(lists_pair(pairs, p.states[ku].epsilon_transitions, (s, v)));
        let kv = choose|kv: int|
            0 <= kv < pairs.len() && pairs[kv] == (s, v)
                && p.states[ku].epsilon_transitions.contains(kv);
        assert(kv == place_in(pairs, (s, v)));
        assert(g[ku] == p.states[ku].epsilon_transitions);
        lemma_reaches_more(g, k0, ku, kv);
    }
}

/// The moves that read nothing lead the automaton of pairs from the pairs
/// of two sets to the pairs of the sets to which they lead the two
/// automata.
pub proof fn lemma_pair_closure(
    p: NfaModel,
    a: NfaModel,
    b: NfaModel,
    places: Seq<int>,
    how: Combination,
    pairs: Seq<(int, int)>,
    first: Set<int>,
    second: Set<int>,
)
    requires
        a.wf(),
        b.wf(),
        is_pair_automaton(p, a, b, places, how, pairs),
        covered(pairs, first, second),
        inside(a, first),
        inside(b, second),
    ensures
        p.closure(pairs_of(pairs, first, second)) == pairs_of(
            pairs,
            a.closure(first),
            b.closure(second),
        ),
        covered(pairs, a.closure(first), b.closure(second)),
        inside(a, a.closure(first)),
        inside(b, b.closure(second)),
{
    let g = p.epsilon_graph();
    let ga = a.epsilon_graph();
    let gb = b.epsilon_graph();
    let seeds = pairs_of(pairs, first, second);
    let ca = a.closure(first);
    let cb = b.closure(second);
    let want = pairs_of(pairs, ca, cb);
    assert forall|q: int| ca.contains(q) implies 0 <= q < a.states.len() by {
        let s = choose|s: int| first.contains(s) && reaches(ga, s, q);
        lemma_reach_within(a, s, q);
    }
    assert forall|q: int| cb.contains(q) implies 0 <= q < b.states.len() by {
        let t = choose|t: int| second.contains(t) && reaches(gb, t, q);
        lemma_reach_within(b, t, q);
    }
    assert forall|s: int, t: int| ca.contains(s) && cb.contains(t) implies #[trigger] pairs.contains(
        (s, t),
    ) && p.closure(seeds).contains(place_in(pairs, (s, t))) by {
        let s0 = choose|s0: int| first.contains(s0) && reaches(ga, s0, s);
        let t0 = choose|t0: int| second.contains(t0) && reaches(gb, t0, t);
        assert(pairs.contains((s0, t0)));
        let along = choose|path: Seq<int>| is_path(ga, path) && path[0] == s0 && path.last() == s;
        lemma_walk_first(p, a, b, places, how, pairs, along, t0);
        let across = choose|path: Seq<int>| is_path(gb, path) && path[0] == t0 && path.last() == t;
        lemma_walk_second(p, a, b, places, how, pairs, s, across);
        let k0 = place_in(pairs, (s0, t0));
        let k1 = place_in(pairs, (s, t0));
        let k2 = place_in(pairs, (s, t));
        lemma_reaches_transitive(g, k0, k1, k2);
        assert(seeds.contains(k0));
    }
    assert(holds_closed(g, seeds, want)) by {
        assert forall|k: int| seeds.contains(k) implies want.contains(k) by {
            lemma_reaches_self(ga, pairs[k].0);
            lemma_reaches_self(gb, pairs[k].1);
        }
        assert forall|k: int, t: int| want.contains(k) && #[trigger] edge(g, k, t) implies want.contains(
            t,
        ) by {
            assert(g[k] == p.states[k].epsilon_transitions);
            assert(p.states[k].epsilon_transitions.contains(t));
            assert(silent_step(a, b, pairs[k], pairs[t]));
            assert(in_both(a, b, pairs[k]));
            let s0 = choose|s0: int| first.contains(s0) && reaches(ga, s0, pairs[k].0);
            let t0 = choose|t0: int| second.contains(t0) && reaches(gb, t0, pairs[k].1);
            if pairs[t].1 == pairs[k].1 && a.states[pairs[k].0].epsilon_transitions.contains(
                pairs[t].0,
            ) {
                assert(ga[pairs[k].0] == a.states[pairs[k].0].epsilon_transitions);
                lemma_reaches_more(ga, s0, pairs[k].0, pairs[t].0);
            } else {
                assert(gb[pairs[k].1] == b.states[pairs[k].1].epsilon_transitions);
                lemma_reaches_more(gb, t0, pairs[k].1, pairs[t].1);
            }
        }
    }
    lemma_closed_set(g, seeds, want);
    assert forall|k: int| want.contains(k) implies p.closure(seeds).contains(k) by {
        assert(pairs.contains((pairs[k].0, pairs[k].1)));
        assert(place_in(pairs, (pairs[k].0, pairs[k].1)) == k);
    }
    assert(p.closure(seeds) =~= want);
}

/// A symbol leads the automaton of pairs from the pairs of two sets to
/// the pairs of the sets to which it leads the two automata.
pub proof fn lemma_pair_moved(
    p: NfaModel,
    a: NfaModel,
    b: NfaModel,
    places: Seq<int>,
    how: Combination,
    pairs: Seq<(int, int)>,
    first: Set<int>,
    second: Set<int>,
    x: int,
)
    requires
        a.wf(),
        b.wf(),
        is_pair_automaton(p, a, b, places, how, pairs),
        covered(pairs, first, second),
        inside(a, first),
        inside(b, second),
        0 <= x < a.alphabet.len(),
        0 <= places[x] < b.alphabet.len(),
    ensures
        p.moved(pairs_of(pairs, first, second), x) == pairs_of(
            pairs,
            a.moved(first, x),
            b.moved(second, places[x]),
        ),
        covered(pairs, a.moved(first, x), b.moved(second, places[x])),
        inside(a, a.moved(first, x)),
        inside(b, b.moved(second, places[x])),
{
    let from = pairs_of(pairs, first, second);
    let ma = a.moved(first, x);
    let mb = b.moved(second, places[x]);
    let want = pairs_of(pairs, ma, mb);
    assert forall|q: int| ma.contains(q) implies 0 <= q < a.states.len() by {
        let s = choose|s: int|
            0 <= s < a.states.len() && first.contains(s) && a.states[s].transitions[x].contains(q);
        let i = choose|i: int|
            0 <= i < a.states[s].transitions[x].len() && a.states[s].transitions[x][i] == q;
    }
    assert forall|q: int| mb.contains(q) implies 0 <= q < b.states.len() by {
        let t = choose|t: int|
            0 <= t < b.states.len() && second.contains(t) && b.states[t].transitions[places[x]].contains(
                q,
            );
        let i = choose|i: int|
            0 <= i < b.states[t].transitions[places[x]].len()
                && b.states[t].transitions[places[x]][i] == q;
    }
    assert forall|s: int, t: int| ma.contains(s) && mb.contains(t) implies #[trigger] pairs.contains(
        (s, t),
    ) && p.moved(from, x).contains(place_in(pairs, (s, t))) by {
        let s0 = choose|s0: int|
            0 <= s0 < a.states.len() && first.contains(s0) && a.states[s0].transitions[x].contains(
                s,
            );
        let t0 = choose|t0: int|
            0 <= t0 < b.states.len() && second.contains(t0)
                && b.states[t0].transitions[places[x]].contains(t);
        assert(pairs.contains((s0, t0)));
        let k0 = place_in(pairs, (s0, t0));
        assert(symbol_step(a, b, places, x, pairs[k0], (s, t)));
        assert(in_both(a, b, (s, t)));
        assert(lists_pair(pairs, p.states[k0].transitions[x], (s, t)));
        assert(from.contains(k0));
    }
    assert forall|k: int| p.moved(from, x).contains(k) implies want.contains(k) by {
        let k0 = choose|k0: int|
            0 <= k0 < p.states.len() && from.contains(k0) && p.states[k0].transitions[x].contains(
                k,
            );
        assert(symbol_step(a, b, places, x, pairs[k0], pairs[k]));
        assert(in_both(a, b, pairs[k0]));
    }
    assert forall|k: int| want.contains(k) implies p.moved(from, x).contains(k) by {
        assert(pairs.contains((pairs[k].0, pairs[k].1)));
        assert(place_in(pairs, (pairs[k].0, pairs[k].1)) == k);
    }
    assert(p.moved(from, x) =~= want);
}

/// A token leads the automaton of pairs from the pairs of two sets to
/// the pairs of the sets to which it leads the two automata.
pub proof fn lemma_pair_step(
    p: NfaModel,
    a: NfaModel,
    b: NfaModel,
    how: Combination,
    pairs: Seq<(int, int)>,
    first: Set<int>,
    second: Set<int>,
    token: Seq<char>,
)
    requires
        a.wf(),
        b.wf(),
        same_symbols(a.alphabet, b.alphabet),
        is_pair_automaton(p, a, b, places_in(b.alphabet, a.alphabet), how, pairs),
        covered(pairs, first, second),
        inside(a, first),
        inside(b, second),
    ensures
        p.step(pairs_of(pairs, first, second), token) == pairs_of(
            pairs,
            a.step(first, token),
            b.step(second, token),
        ),
        covered(pairs, a.step(first, token), b.step(second, token)),
        inside(a, a.step(first, token)),
        inside(b, b.step(second, token)),
{
    let places = places_in(b.alphabet, a.alphabet);
    match symbol_position(a.alphabet, token) {
        Some(x) => {
            lemma_symbol_position(a.alphabet, token, x);
            assert(b.alphabet.contains(a.alphabet[x]));
            lemma_symbol_position(b.alphabet, token, places[x]);
            lemma_pair_moved(p, a, b, places, how, pairs, first, second, x);
            lemma_pair_closure(
                p,
                a,
                b,
                places,
                how,
                pairs,
                a.moved(first, x),
                b.moved(second, places[x]),
            );
        },
        None => {
            if b.alphabet.contains(token) {
                let j = choose|j: int| 0 <= j < b.alphabet.len() && b.alphabet[j] == token;
                assert(a.alphabet.contains(b.alphabet[j]));
            }
            assert(pairs_of(pairs, Set::<int>::empty(), Set::<int>::empty()) =~= Set::<int>::empty());
        },
    }
}

/// A word leads the automaton of pairs from the pairs of two sets to the
/// pairs of the sets to which it leads the two automata.
pub proof fn lemma_pair_run(
    p: NfaModel,
    a: NfaModel,
    b: NfaModel,
    how: Combination,
    pairs: Seq<(int, int)>,
    first: Set<int>,
    second: Set<int>,
    word: Seq<Seq<char>>,
)
    requires
        a.wf(),
        b.wf(),
        same_symbols(a.alphabet, b.alphabet),
        is_pair_automaton(p, a, b, places_in(b.alphabet, a.alphabet), how, pairs),
        covered(pairs, first, second),
        inside(a, first),
        inside(b, second),
    ensures
        p.run(pairs_of(pairs, first, second), word) == pairs_of(
            pairs,
            a.run(first, word),
            b.run(second, word),
        ),
        covered(pairs, a.run(first, word), b.run(second, word)),
        inside(a, a.run(first, word)),
        inside(b, b.run(second, word)),
    decreases word.len(),
{
    if word.len() > 0 {
        lemma_pair_step(p, a, b, how, pairs, first, second, word[0]);
        lemma_pair_run(
            p,
            a,
            b,
            how,
            pairs,
            a.step(first, word[0]),
            b.step(second, word[0]),
            word.drop_first(),
        );
    }
}

/// Whether the word leads the two automata to a pair of states whose
/// flags the combination accepts.
pub open spec fn ends_in_pair(a: NfaModel, b: NfaModel, how: Combination, word: Seq<Seq<char>>)
    -> bool {
    exists|s: int, t: int|
        0 <= s < a.states.len() && 0 <= t < b.states.len() && a.run(a.start(), word).contains(s)
            && b.run(b.start(), word).contains(t) && #[trigger] how.combine(
            a.states[s].accepting,
            b.states[t].accepting,
        )
}

/// The automaton of pairs accepts a word exactly where the word leads the
/// two automata to a pair of states whose flags the combination accepts.
pub proof fn law_pair_automaton(
    p: NfaModel,
    a: NfaModel,
    b: NfaModel,
    how: Combination,
    pairs: Seq<(int, int)>,
    word: Seq<Seq<char>>,
)
    requires
        a.wf(),
        b.wf(),
        same_symbols(a.alphabet, b.alphabet),
        is_pair_automaton(p, a, b, places_in(b.alphabet, a.alphabet), how, pairs),
    ensures
        p.accepts(word) == ends_in_pair(a, b, how, word),
{
    let places = places_in(b.alphabet, a.alphabet);
    let first = set![a.initial];
    let second = set![b.initial];
    assert(pairs.contains((a.initial, b.initial)));
    assert(covered(pairs, first, second));
    assert(pairs_of(pairs, first, second) =~= set![p.initial]);
    lemma_pair_closure(p, a, b, places, how, pairs, first, second);
    lemma_pair_run(p, a, b, how, pairs, a.start(), b.start(), word);
    let end = p.run(p.start(), word);
    let end_a = a.run(a.start(), word);
    let end_b = b.run(b.start(), word);
    if p.accepts(word) {
        let k = choose|k: int| 0 <= k < p.states.len() && end.contains(k) && p.states[k].accepting;
        assert(in_both(a, b, pairs[k]));
        assert(how.combine(a.states[pairs[k].0].accepting, b.states[pairs[k].1].accepting));
    }
    if ends_in_pair(a, b, how, word) {
        let (s, t) = choose|s: int, t: int|
            0 <= s < a.states.len() && 0 <= t < b.states.len() && end_a.contains(s)
                && end_b.contains(t) && #[trigger] how.combine(
                a.states[s].accepting,
                b.states[t].accepting,
            );
        assert(pairs.contains((s, t)));
        let k = place_in(pairs, (s, t));
        assert(end.contains(k));
        assert(p.states[k].accepting);
    }
}

/// The automaton of pairs for the intersection accepts a word exactly
/// where both automata accept it.
pub proof fn law_pair_intersection(
    p: NfaModel,
    a: NfaModel,
    b: NfaModel,
    pairs: Seq<(int, int)>,
    word: Seq<Seq<char>>,
)
    requires
        a.wf(),
        b.wf(),
        same_symbols(a.alphabet, b.alphabet),
        is_pair_automaton(
            p,
            a,
            b,
            places_in(b.alphabet, a.alphabet),
            Combination::Intersection,
            pairs,
        ),
    ensures
        p.accepts(word) == (a.accepts(word) && b.accepts(word)),
{
    let how = Combination::Intersection;
    law_pair_automaton(p, a, b, how, pairs, word);
    let end_a = a.run(a.start(), word);
    let end_b = b.run(b.start(), word);
    if a.accepts(word) && b.accepts(word) {
        let s = choose|s: int| 0 <= s < a.states.len() && end_a.contains(s) && a.states[s].accepting;
        let t = choose|t: int| 0 <= t < b.states.len() && end_b.contains(t) && b.states[t].accepting;
        assert(how.combine(a.states[s].accepting, b.states[t].accepting));
    }
}

} // verus!
