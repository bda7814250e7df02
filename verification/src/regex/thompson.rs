//! From a regular expression to a nondeterministic automaton: each
//! expression gives a part of the automaton, and the parts of the
//! expressions within it are joined by moves that read nothing.

use vstd::prelude::*;
use crate::alphabet::{clone_indices, tokens_of};
use crate::dfa::Dfa;
use crate::nfa::{Nfa, NfaModel, NfaState, NfaStateModel, nfa_model, targets_of, target_lists_of};
use crate::regex::{Regex, RegexModel, models_of};

verus! {

broadcast use vstd::std_specs::vec::axiom_vec_index_decreases;

/// What a state of a part holds: whether it accepts, the targets of its
/// moves that read nothing, and the targets for each symbol.
pub struct PartStateModel {
    pub accepting: bool,
    pub silent: Seq<int>,
    pub moves: Seq<Seq<int>>,
}

/// A part of an automaton: its states and its initial state.
pub struct PartModel {
    pub states: Seq<PartStateModel>,
    pub initial: int,
}

/// No target for each of `symbols` symbols.
pub open spec fn no_moves(symbols: int) -> Seq<Seq<int>> {
    Seq::new(symbols as nat, |x: int| Seq::<int>::empty())
}

/// The targets, each moved by `by` places.
pub open spec fn moved_by(targets: Seq<int>, by: int) -> Seq<int> {
    targets.map_values(|t: int| t + by)
}

/// The state with all its targets moved by `by` places.
pub open spec fn state_moved_by(state: PartStateModel, by: int) -> PartStateModel {
    PartStateModel {
        accepting: state.accepting,
        silent: moved_by(state.silent, by),
        moves: state.moves.map_values(|list: Seq<int>| moved_by(list, by)),
    }
}

/// The states with all their targets moved by `by` places.
pub open spec fn states_moved_by(states: Seq<PartStateModel>, by: int) -> Seq<PartStateModel> {
    states.map_values(|s: PartStateModel| state_moved_by(s, by))
}

/// The part for the empty word: one state, initial and accepting.
pub open spec fn part_empty(symbols: int) -> PartModel {
    PartModel {
        states: seq![
            PartStateModel { accepting: true, silent: Seq::empty(), moves: no_moves(symbols) },
        ],
        initial: 0,
    }
}

/// The part that matches nothing: two states, neither of them accepting,
/// and no moves.
pub open spec fn part_zero(symbols: int) -> PartModel {
    PartModel {
        states: seq![
            PartStateModel { accepting: false, silent: Seq::empty(), moves: no_moves(symbols) },
            PartStateModel { accepting: false, silent: Seq::empty(), moves: no_moves(symbols) },
        ],
        initial: 0,
    }
}

/// The part for the symbol at position `x`: two states, and the symbol
/// leads from the first, which is initial, to the second, which accepts.
pub open spec fn part_literal(symbols: int, x: int) -> PartModel {
    PartModel {
        states: seq![
            PartStateModel {
                accepting: false,
                silent: Seq::empty(),
                moves: no_moves(symbols).update(x, seq![1int]),
            },
            PartStateModel { accepting: true, silent: Seq::empty(), moves: no_moves(symbols) },
        ],
        initial: 0,
    }
}

/// The first part, then the second: the accepting states of the first
/// part accept no more, and a move that reads nothing leads from each of
/// them to the initial state of the second part.
pub open spec fn part_concat(a: PartModel, b: PartModel) -> PartModel {
    let by = a.states.len() as int;
    PartModel {
        states: a.states.map_values(
            |s: PartStateModel|
                PartStateModel {
                    accepting: false,
                    silent: if s.accepting {
                        s.silent.push(b.initial + by)
                    } else {
                        s.silent
                    },
                    moves: s.moves,
                },
        ) + states_moved_by(b.states, by),
        initial: a.initial,
    }
}

/// One of the two parts: a new initial state, from which moves that read
/// nothing lead to the initial states of the two parts.
pub open spec fn part_alt(a: PartModel, b: PartModel, symbols: int) -> PartModel {
    let by = 1 + a.states.len() as int;
    PartModel {
        states: seq![
            PartStateModel {
                accepting: false,
                silent: seq![a.initial + 1, b.initial + by],
                moves: no_moves(symbols),
            },
        ] + states_moved_by(a.states, 1) + states_moved_by(b.states, by),
        initial: 0,
    }
}

/// The part any number of times: a new state, initial and accepting, from
/// which a move that reads nothing leads to the initial state of the part,
/// and to which such a move leads from each accepting state of the part.
pub open spec fn part_star(a: PartModel, symbols: int) -> PartModel {
    PartModel {
        states: seq![
            PartStateModel {
                accepting: true,
                silent: seq![a.initial + 1],
                moves: no_moves(symbols),
            },
        ] + a.states.map_values(
            |s: PartStateModel|
                PartStateModel {
                    accepting: s.accepting,
                    silent: if s.accepting {
                        moved_by(s.silent, 1).push(0)
                    } else {
                        moved_by(s.silent, 1)
                    },
                    moves: s.moves.map_values(|list: Seq<int>| moved_by(list, 1)),
                },
        ),
        initial: 0,
    }
}

/// The place of `c` among `symbols`, or their number where it is not
/// among them.
pub open spec fn place_of(symbols: Seq<char>, c: char, from: int) -> int
    decreases symbols.len() - from,
{
    if from < 0 || from >= symbols.len() {
        symbols.len() as int
    } else if symbols[from] == c {
        from
    } else {
        place_of(symbols, c, from + 1)
    }
}

/// The part for an expression over the given symbols.
pub open spec fn part_of(r: RegexModel, symbols: Seq<char>) -> PartModel
    decreases r, 0nat,
{
    let count = symbols.len() as int;
    match r {
        RegexModel::Empty => part_empty(count),
        RegexModel::Zero => part_zero(count),
        RegexModel::Literal(c) => {
            let x = place_of(symbols, c, 0);
            if x < count {
                part_literal(count, x)
            } else {
                part_zero(count)
            }
        },
        RegexModel::Concat(list) => part_of_items(list, symbols, list.len() as int),
        RegexModel::Alt(list) => part_of_alternatives(list, symbols, list.len() as int),
        RegexModel::Star(inner) => part_star(part_of(*inner, symbols), count),
        RegexModel::Plus(inner) => part_concat(
            part_of(*inner, symbols),
            part_star(part_of(*inner, symbols), count),
        ),
    }
}

/// The part for the first `upto` expressions of the list, one after the
/// other: the part for the empty word where there is none.
pub open spec fn part_of_items(list: Seq<RegexModel>, symbols: Seq<char>, upto: int) -> PartModel
    decreases list, upto,
{
    if upto <= 0 || upto > list.len() {
        part_empty(symbols.len() as int)
    } else if upto == 1 {
        part_of(list[0], symbols)
    } else {
        part_concat(part_of_items(list, symbols, upto - 1), part_of(list[upto - 1], symbols))
    }
}

/// The part for one of the first `upto` expressions of the list: the part
/// that matches nothing where there is none.
pub open spec fn part_of_alternatives(
    list: Seq<RegexModel>,
    symbols: Seq<char>,
    upto: int,
) -> PartModel
    decreases list, upto,
{
    if upto <= 0 || upto > list.len() {
        part_zero(symbols.len() as int)
    } else if upto == 1 {
        part_of(list[0], symbols)
    } else {
        part_alt(
            part_of_alternatives(list, symbols, upto - 1),
            part_of(list[upto - 1], symbols),
            symbols.len() as int,
        )
    }
}

/// The symbols, with `c` behind them where it is not among them.
pub open spec fn with_symbol(symbols: Seq<char>, c: char) -> Seq<char> {
    if place_of(symbols, c, 0) < symbols.len() {
        symbols
    } else {
        symbols.push(c)
    }
}

/// The symbols, with the symbols of the expression that are not among
/// them behind them, in the order in which they first stand in the
/// expression.
pub open spec fn with_symbols_of(r: RegexModel, symbols: Seq<char>) -> Seq<char>
    decreases r, 0nat,
{
    match r {
        RegexModel::Empty => symbols,
        RegexModel::Zero => symbols,
        RegexModel::Literal(c) => with_symbol(symbols, c),
        RegexModel::Concat(list) => with_symbols_of_list(list, symbols, list.len() as int),
        RegexModel::Alt(list) => with_symbols_of_list(list, symbols, list.len() as int),
        RegexModel::Star(inner) => with_symbols_of(*inner, symbols),
        RegexModel::Plus(inner) => with_symbols_of(*inner, symbols),
    }
}

/// The symbols, with the symbols of the first `upto` expressions of the
/// list behind them.
pub open spec fn with_symbols_of_list(list: Seq<RegexModel>, symbols: Seq<char>, upto: int) -> Seq<
    char,
>
    decreases list, upto,
{
    if upto <= 0 || upto > list.len() {
        symbols
    } else {
        with_symbols_of(list[upto - 1], with_symbols_of_list(list, symbols, upto - 1))
    }
}

/// The symbols of an expression, in the order in which they first stand in
/// it.
pub open spec fn symbols_of(r: RegexModel) -> Seq<char> {
    with_symbols_of(r, Seq::empty())
}

/// The number of states of the part for an expression.
pub open spec fn part_size(r: RegexModel) -> nat
    decreases r, 0nat,
{
    match r {
        RegexModel::Empty => 1,
        RegexModel::Zero => 2,
        RegexModel::Literal(_) => 2,
        RegexModel::Concat(list) => items_size(list, list.len() as int),
        RegexModel::Alt(list) => alternatives_size(list, list.len() as int),
        RegexModel::Star(inner) => 1 + part_size(*inner),
        RegexModel::Plus(inner) => part_size(*inner) + 1 + part_size(*inner),
    }
}

/// The number of states of the part for the first `upto` expressions, one
/// after the other.
pub open spec fn items_size(list: Seq<RegexModel>, upto: int) -> nat
    decreases list, upto,
{
    if upto <= 0 || upto > list.len() {
        1
    } else if upto == 1 {
        part_size(list[0])
    } else {
        items_size(list, upto - 1) + part_size(list[upto - 1])
    }
}

/// The number of states of the part for one of the first `upto`
/// expressions.
pub open spec fn alternatives_size(list: Seq<RegexModel>, upto: int) -> nat
    decreases list, upto,
{
    if upto <= 0 || upto > list.len() {
        2
    } else if upto == 1 {
        part_size(list[0])
    } else {
        1 + alternatives_size(list, upto - 1) + part_size(list[upto - 1])
    }
}

/// Whether the part is well formed for `symbols` symbols: it has a state,
/// and its initial state and all its targets are states of it.
pub open spec fn part_wf(p: PartModel, symbols: int) -> bool {
    &&& p.states.len() >= 1
    &&& 0 <= p.initial < p.states.len()
    &&& forall|q: int| 0 <= q < p.states.len() ==> (#[trigger] p.states[q]).moves.len() == symbols
    &&& forall|q: int, k: int|
        0 <= q < p.states.len() && 0 <= k < p.states[q].silent.len() ==> 0
            <= #[trigger] p.states[q].silent[k] < p.states.len()
    &&& forall|q: int, x: int, k: int|
        0 <= q < p.states.len() && 0 <= x < symbols && 0 <= k < p.states[q].moves[x].len() ==> 0
            <= #[trigger] p.states[q].moves[x][k] < p.states.len()
}

/// A state of a part.
pub struct PartState {
    accepting: bool,
    silent: Vec<usize>,
    moves: Vec<Vec<usize>>,
}

impl View for PartState {
    type V = PartStateModel;

    closed spec fn view(&self) -> PartStateModel {
        PartStateModel {
            accepting: self.accepting,
            silent: targets_of(self.silent@),
            moves: target_lists_of(self.moves@),
        }
    }
}

/// A part of an automaton.
pub struct Part {
    states: Vec<PartState>,
    initial: usize,
}

impl View for Part {
    type V = PartModel;

    closed spec fn view(&self) -> PartModel {
        PartModel {
            states: self.states@.map_values(|s: PartState| s@),
            initial: self.initial as int,
        }
    }
}

/// No target for each of `symbols` symbols.
fn empty_moves(symbols: usize) -> (moves: Vec<Vec<usize>>)
    ensures
        target_lists_of(moves@) == no_moves(symbols as int),
{
    let mut moves: Vec<Vec<usize>> = Vec::new();
    let mut x: usize = 0;
    while x < symbols
        invariant
            x <= symbols,
            moves.len() == x,
            forall|y: int| 0 <= y < x ==> (#[trigger] moves[y])@.len() == 0,
        decreases symbols - x,
    {
        moves.push(Vec::new());
        x += 1;
    }
    assert(target_lists_of(moves@) =~= no_moves(symbols as int)) by {
        assert forall|y: int| 0 <= y < symbols implies target_lists_of(moves@)[y] == no_moves(
            symbols as int,
        )[y] by {
            assert(targets_of(moves[y]@) =~= Seq::<int>::empty());
        }
    }
    moves
}

/// The targets, each moved by `by` places.
fn shifted(targets: &Vec<usize>, by: usize) -> (out: Vec<usize>)
    requires
        forall|k: int| 0 <= k < targets.len() ==> #[trigger] targets[k] + by <= usize::MAX,
    ensures
        targets_of(out@) == moved_by(targets_of(targets@), by as int),
{
    let mut out: Vec<usize> = Vec::new();
    let mut k: usize = 0;
    while k < targets.len()
        invariant
            k <= targets.len(),
            out.len() == k,
            forall|j: int| 0 <= j < targets.len() ==> #[trigger] targets[j] + by <= usize::MAX,
            forall|j: int| 0 <= j < k ==> #[trigger] out[j] == targets[j] + by,
        decreases targets.len() - k,
    {
        out.push(targets[k] + by);
        k += 1;
    }
    assert(targets_of(out@) =~= moved_by(targets_of(targets@), by as int));
    out
}

/// The state with all its targets moved by `by` places.
#[verifier::loop_isolation(false)]
#[verifier::rlimit(50)]
fn shifted_state(state: &PartState, by: usize, Ghost(bound): Ghost<int>, Ghost(symbols): Ghost<int>)
    -> (out: PartState)
    requires
        bound + by <= usize::MAX,
        state@.moves.len() == symbols,
        forall|k: int| 0 <= k < state@.silent.len() ==> 0 <= #[trigger] state@.silent[k] < bound,
        forall|x: int, k: int|
            0 <= x < symbols && 0 <= k < state@.moves[x].len() ==> 0
                <= #[trigger] state@.moves[x][k] < bound,
    ensures
        out@ == state_moved_by(state@, by as int),
{
    proof {
        assert forall|k: int| 0 <= k < state.silent.len() implies #[trigger] state.silent[k] + by
            <= usize::MAX by {
            assert(state@.silent[k] == state.silent[k]);
        }
    }
    let silent = shifted(&state.silent, by);
    let mut moves: Vec<Vec<usize>> = Vec::new();
    let mut x: usize = 0;
    while x < state.moves.len()
        invariant
            x <= state.moves.len(),
            moves.len() == x,
            forall|y: int|
                0 <= y < x ==> targets_of((#[trigger] moves[y])@) == moved_by(
                    state@.moves[y],
                    by as int,
                ),
        decreases state.moves.len() - x,
    {
        proof {
            assert(state@.moves[x as int] == targets_of(state.moves[x as int]@));
            assert forall|k: int| 0 <= k < state.moves[x as int].len() implies
                #[trigger] state.moves[x as int][k] + by <= usize::MAX by {
                assert(state@.moves[x as int][k] == state.moves[x as int][k]);
            }
        }
        moves.push(shifted(&state.moves[x], by));
        x += 1;
    }
    let out = PartState { accepting: state.accepting, silent, moves };
    assert(out@.moves =~= state_moved_by(state@, by as int).moves);
    out
}

impl Part {
    /// The part for the empty word.
    fn empty(symbols: usize) -> (part: Part)
        ensures
            part@ == part_empty(symbols as int),
            part_wf(part@, symbols as int),
    {
        let mut states: Vec<PartState> = Vec::new();
        states.push(PartState { accepting: true, silent: Vec::new(), moves: empty_moves(symbols) });
        let part = Part { states, initial: 0 };
        assert(part@.states =~= part_empty(symbols as int).states) by {
            assert(part@.states[0].silent =~= Seq::<int>::empty());
        }
        part
    }

    /// The part that matches nothing.
    fn zero(symbols: usize) -> (part: Part)
        ensures
            part@ == part_zero(symbols as int),
            part_wf(part@, symbols as int),
    {
        let mut states: Vec<PartState> = Vec::new();
        states.push(
            PartState { accepting: false, silent: Vec::new(), moves: empty_moves(symbols) },
        );
        states.push(
            PartState { accepting: false, silent: Vec::new(), moves: empty_moves(symbols) },
        );
        let part = Part { states, initial: 0 };
        assert(part@.states =~= part_zero(symbols as int).states) by {
            assert(part@.states[0].silent =~= Seq::<int>::empty());
            assert(part@.states[1].silent =~= Seq::<int>::empty());
        }
        part
    }

    /// The part for the symbol at position `x`.
    fn literal(symbols: usize, x: usize) -> (part: Part)
        requires
            x < symbols,
        ensures
            part@ == part_literal(symbols as int, x as int),
            part_wf(part@, symbols as int),
    {
        let mut moves = empty_moves(symbols);
        let mut one: Vec<usize> = Vec::new();
        one.push(1);
        assert(targets_of(one@) =~= seq![1int]);
        let ghost before = target_lists_of(moves@);
        assert(moves.len() == symbols) by {
            assert(before.len() == moves.len());
        }
        moves.set(x, one);
        assert(target_lists_of(moves@) =~= before.update(x as int, seq![1int]));
        let mut states: Vec<PartState> = Vec::new();
        states.push(PartState { accepting: false, silent: Vec::new(), moves });
        states.push(PartState { accepting: true, silent: Vec::new(), moves: empty_moves(symbols) });
        let part = Part { states, initial: 0 };
        assert(part@.states =~= part_literal(symbols as int, x as int).states) by {
            assert(part@.states[0].silent =~= Seq::<int>::empty());
            assert(part@.states[1].silent =~= Seq::<int>::empty());
        }
        proof {
            let p = part@;
            assert forall|q: int, y: int, k: int|
                0 <= q < p.states.len() && 0 <= y < symbols && 0 <= k
                    < p.states[q].moves[y].len() implies 0 <= #[trigger] p.states[q].moves[y][k]
                < p.states.len() by {
                if q == 0 && y == x {
                    assert(p.states[q].moves[y] == seq![1int]);
                }
            }
        }
        part
    }

    /// The number of states.
    fn size(&self) -> (count: usize)
        ensures
            count == self@.states.len(),
    {
        self.states.len()
    }

    /// The first part, then the second.
    #[verifier::loop_isolation(false)]
    #[verifier::rlimit(50)]
    fn concat(a: Part, b: Part, Ghost(symbols): Ghost<int>) -> (part: Part)
        requires
            part_wf(a@, symbols),
            part_wf(b@, symbols),
            a@.states.len() + b@.states.len() <= usize::MAX,
        ensures
            part@ == part_concat(a@, b@),
            part_wf(part@, symbols),
    {
        let by = a.states.len();
        let ghost want = part_concat(a@, b@);
        let bridge: usize = b.initial + by;
        let mut states: Vec<PartState> = Vec::new();
        let mut q: usize = 0;
        while q < a.states.len()
            invariant
                q <= a.states.len(),
                states.len() == q,
                forall|p: int| 0 <= p < q ==> (#[trigger] states[p])@ == want.states[p],
            decreases a.states.len() - q,
        {
            let state = &a.states[q];
            assert(a@.states[q as int] == state@);
            let mut silent = crate::alphabet::clone_indices(state.silent.as_slice());
            if state.accepting {
                let ghost before = targets_of(silent@);
                silent.push(bridge);
                assert(targets_of(silent@) =~= before.push(bridge as int));
            }
            let moves = crate::nfa::clone_row(&state.moves);
            let made = PartState { accepting: false, silent, moves };
            assert(made@ == want.states[q as int]);
            states.push(made);
            q += 1;
        }
        q = 0;
        while q < b.states.len()
            invariant
                q <= b.states.len(),
                states.len() == by + q,
                forall|p: int| 0 <= p < by + q ==> (#[trigger] states[p])@ == want.states[p],
            decreases b.states.len() - q,
        {
            assert(b@.states[q as int] == b.states[q as int]@);
            let made = shifted_state(
                &b.states[q],
                by,
                Ghost(b@.states.len() as int),
                Ghost(symbols),
            );
            assert(made@ == want.states[by + q]);
            states.push(made);
            q += 1;
        }
        let part = Part { states, initial: a.initial };
        assert(part@.states =~= want.states);
        proof {
            lemma_concat_wf(a@, b@, symbols);
        }
        part
    }

    /// One of the two parts.
    #[verifier::loop_isolation(false)]
    #[verifier::rlimit(50)]
    pub(crate) fn alt(a: Part, b: Part, symbols: usize) -> (part: Part)
        requires
            part_wf(a@, symbols as int),
            part_wf(b@, symbols as int),
            1 + a@.states.len() + b@.states.len() <= usize::MAX,
        ensures
            part@ == part_alt(a@, b@, symbols as int),
            part_wf(part@, symbols as int),
    {
        let by = 1 + a.states.len();
        let ghost want = part_alt(a@, b@, symbols as int);
        let mut silent: Vec<usize> = Vec::new();
        silent.push(a.initial + 1);
        silent.push(b.initial + by);
        assert(targets_of(silent@) =~= seq![a@.initial + 1, b@.initial + by]);
        let mut states: Vec<PartState> = Vec::new();
        states.push(PartState { accepting: false, silent, moves: empty_moves(symbols) });
        let mut q: usize = 0;
        while q < a.states.len()
            invariant
                q <= a.states.len(),
                states.len() == 1 + q,
                forall|p: int| 0 <= p < 1 + q ==> (#[trigger] states[p])@ == want.states[p],
            decreases a.states.len() - q,
        {
            assert(a@.states[q as int] == a.states[q as int]@);
            let made = shifted_state(
                &a.states[q],
                1,
                Ghost(a@.states.len() as int),
                Ghost(symbols as int),
            );
            assert(made@ == want.states[1 + q]);
            states.push(made);
            q += 1;
        }
        q = 0;
        while q < b.states.len()
            invariant
                q <= b.states.len(),
                states.len() == by + q,
                forall|p: int| 0 <= p < by + q ==> (#[trigger] states[p])@ == want.states[p],
            decreases b.states.len() - q,
        {
            assert(b@.states[q as int] == b.states[q as int]@);
            let made = shifted_state(
                &b.states[q],
                by,
                Ghost(b@.states.len() as int),
                Ghost(symbols as int),
            );
            assert(made@ == want.states[by + q]);
            states.push(made);
            q += 1;
        }
        let part = Part { states, initial: 0 };
        assert(part@.states =~= want.states);
        proof {
            lemma_alt_wf(a@, b@, symbols as int);
        }
        part
    }

    /// The part any number of times.
    #[verifier::loop_isolation(false)]
    #[verifier::rlimit(50)]
    fn star(a: Part, symbols: usize) -> (part: Part)
        requires
            part_wf(a@, symbols as int),
            1 + a@.states.len() <= usize::MAX,
        ensures
            part@ == part_star(a@, symbols as int),
            part_wf(part@, symbols as int),
    {
        let ghost want = part_star(a@, symbols as int);
        let mut silent: Vec<usize> = Vec::new();
        silent.push(a.initial + 1);
        assert(targets_of(silent@) =~= seq![a@.initial + 1]);
        let mut states: Vec<PartState> = Vec::new();
        states.push(PartState { accepting: true, silent, moves: empty_moves(symbols) });
        let mut q: usize = 0;
        while q < a.states.len()
            invariant
                q <= a.states.len(),
                states.len() == 1 + q,
                forall|p: int| 0 <= p < 1 + q ==> (#[trigger] states[p])@ == want.states[p],
            decreases a.states.len() - q,
        {
            assert(a@.states[q as int] == a.states[q as int]@);
            let mut made = shifted_state(
                &a.states[q],
                1,
                Ghost(a@.states.len() as int),
                Ghost(symbols as int),
            );
            if made.accepting {
                let ghost before = targets_of(made.silent@);
                made.silent.push(0);
                assert(targets_of(made.silent@) =~= before.push(0));
            }
            assert(made@.moves =~= want.states[1 + q].moves);
            assert(made@ == want.states[1 + q]);
            states.push(made);
            q += 1;
        }
        let part = Part { states, initial: 0 };
        assert(part@.states =~= want.states);
        proof {
            lemma_star_wf(a@, symbols as int);
        }
        part
    }
}

/// Two well-formed parts, one after the other, are a well-formed part.
pub proof fn lemma_concat_wf(a: PartModel, b: PartModel, symbols: int)
    requires
        part_wf(a, symbols),
        part_wf(b, symbols),
    ensures
        part_wf(part_concat(a, b), symbols),
        part_concat(a, b).states.len() == a.states.len() + b.states.len(),
{
    let p = part_concat(a, b);
    let by = a.states.len() as int;
    assert forall|q: int, k: int|
        0 <= q < p.states.len() && 0 <= k < p.states[q].silent.len() implies 0
        <= #[trigger] p.states[q].silent[k] < p.states.len() by {
        if q < by {
            if k < a.states[q].silent.len() {
                assert(p.states[q].silent[k] == a.states[q].silent[k]);
            }
        } else {
            assert(p.states[q].silent[k] == b.states[q - by].silent[k] + by);
        }
    }
    assert forall|q: int, x: int, k: int|
        0 <= q < p.states.len() && 0 <= x < symbols && 0 <= k
            < p.states[q].moves[x].len() implies 0 <= #[trigger] p.states[q].moves[x][k]
        < p.states.len() by {
        if q < by {
            assert(p.states[q].moves[x][k] == a.states[q].moves[x][k]);
        } else {
            assert(p.states[q].moves[x][k] == b.states[q - by].moves[x][k] + by);
        }
    }
    assert forall|q: int| 0 <= q < p.states.len() implies (#[trigger] p.states[q]).moves.len()
        == symbols by {
        if q < by {
            assert(p.states[q].moves == a.states[q].moves);
        } else {
            assert(p.states[q].moves.len() == b.states[q - by].moves.len());
        }
    }
}

/// One of two well-formed parts is a well-formed part.
pub proof fn lemma_alt_wf(a: PartModel, b: PartModel, symbols: int)
    requires
        part_wf(a, symbols),
        part_wf(b, symbols),
        symbols >= 0,
    ensures
        part_wf(part_alt(a, b, symbols), symbols),
        part_alt(a, b, symbols).states.len() == 1 + a.states.len() + b.states.len(),
{
    let p = part_alt(a, b, symbols);
    let by = 1 + a.states.len() as int;
    assert forall|q: int, k: int|
        0 <= q < p.states.len() && 0 <= k < p.states[q].silent.len() implies 0
        <= #[trigger] p.states[q].silent[k] < p.states.len() by {
        if q == 0 {
        } else if q < by {
            assert(p.states[q].silent[k] == a.states[q - 1].silent[k] + 1);
        } else {
            assert(p.states[q].silent[k] == b.states[q - by].silent[k] + by);
        }
    }
    assert forall|q: int, x: int, k: int|
        0 <= q < p.states.len() && 0 <= x < symbols && 0 <= k
            < p.states[q].moves[x].len() implies 0 <= #[trigger] p.states[q].moves[x][k]
        < p.states.len() by {
        if q == 0 {
        } else if q < by {
            assert(p.states[q].moves[x][k] == a.states[q - 1].moves[x][k] + 1);
        } else {
            assert(p.states[q].moves[x][k] == b.states[q - by].moves[x][k] + by);
        }
    }
    assert forall|q: int| 0 <= q < p.states.len() implies (#[trigger] p.states[q]).moves.len()
        == symbols by {
        if q == 0 {
        } else if q < by {
            assert(p.states[q].moves.len() == a.states[q - 1].moves.len());
        } else {
            assert(p.states[q].moves.len() == b.states[q - by].moves.len());
        }
    }
}

/// A well-formed part any number of times is a well-formed part.
pub proof fn lemma_star_wf(a: PartModel, symbols: int)
    requires
        part_wf(a, symbols),
        symbols >= 0,
    ensures
        part_wf(part_star(a, symbols), symbols),
        part_star(a, symbols).states.len() == 1 + a.states.len(),
{
    let p = part_star(a, symbols);
    assert forall|q: int, k: int|
        0 <= q < p.states.len() && 0 <= k < p.states[q].silent.len() implies 0
        <= #[trigger] p.states[q].silent[k] < p.states.len() by {
        if q > 0 {
            if k < a.states[q - 1].silent.len() {
                assert(p.states[q].silent[k] == a.states[q - 1].silent[k] + 1);
            }
        }
    }
    assert forall|q: int, x: int, k: int|
        0 <= q < p.states.len() && 0 <= x < symbols && 0 <= k
            < p.states[q].moves[x].len() implies 0 <= #[trigger] p.states[q].moves[x][k]
        < p.states.len() by {
        if q > 0 {
            assert(p.states[q].moves[x][k] == a.states[q - 1].moves[x][k] + 1);
        }
    }
    assert forall|q: int| 0 <= q < p.states.len() implies (#[trigger] p.states[q]).moves.len()
        == symbols by {
        if q > 0 {
            assert(p.states[q].moves.len() == a.states[q - 1].moves.len());
        }
    }
}

/// The parts for longer lists of expressions have more states.
pub proof fn lemma_items_size(list: Seq<RegexModel>, i: int, n: int)
    requires
        1 <= i <= n <= list.len(),
    ensures
        items_size(list, i) <= items_size(list, n),
        part_size(list[i - 1]) <= items_size(list, n),
    decreases n - i,
{
    if i < n {
        lemma_items_size(list, i + 1, n);
    }
}

/// The parts for longer lists of alternatives have more states.
pub proof fn lemma_alternatives_size(list: Seq<RegexModel>, i: int, n: int)
    requires
        1 <= i <= n <= list.len(),
    ensures
        alternatives_size(list, i) <= alternatives_size(list, n),
        part_size(list[i - 1]) <= alternatives_size(list, n),
        i < n ==> alternatives_size(list, i) < alternatives_size(list, n),
    decreases n - i,
{
    if i < n {
        lemma_alternatives_size(list, i + 1, n);
    }
}

/// The place of `c` among the symbols.
fn find_char(symbols: &Vec<char>, c: char) -> (at: usize)
    ensures
        at == place_of(symbols@, c, 0),
        at <= symbols.len(),
        at < symbols.len() ==> symbols@[at as int] == c,
        at == symbols.len() ==> !symbols@.contains(c),
{
    let mut at: usize = 0;
    while at < symbols.len() && symbols[at] != c
        invariant
            at <= symbols.len(),
            place_of(symbols@, c, 0) == place_of(symbols@, c, at as int),
            forall|j: int| 0 <= j < at ==> symbols@[j] != c,
        decreases symbols.len() - at,
    {
        at += 1;
    }
    at
}

impl Regex {
    /// Adds the symbols of the expression that are not among `symbols`.
    fn collect_symbols(&self, symbols: &mut Vec<char>)
        requires
            old(symbols)@.no_duplicates(),
        ensures
            final(symbols)@ == with_symbols_of(self@, old(symbols)@),
            final(symbols)@.no_duplicates(),
        decreases self,
    {
        match self {
            Regex::Empty => {},
            Regex::Zero => {},
            Regex::Literal(c) => {
                let at = find_char(symbols, *c);
                if at >= symbols.len() {
                    symbols.push(*c);
                }
            },
            Regex::Concat(list) => {
                assert(self@->Concat_0 =~= models_of(list@));
                Regex::collect_symbols_of(list, symbols);
            },
            Regex::Alt(list) => {
                assert(self@->Alt_0 =~= models_of(list@));
                Regex::collect_symbols_of(list, symbols);
            },
            Regex::Star(inner) => {
                inner.collect_symbols(symbols);
            },
            Regex::Plus(inner) => {
                inner.collect_symbols(symbols);
            },
        }
    }

    /// Adds the symbols of the expressions that are not among `symbols`.
    fn collect_symbols_of(list: &Vec<Regex>, symbols: &mut Vec<char>)
        requires
            old(symbols)@.no_duplicates(),
        ensures
            final(symbols)@ == with_symbols_of_list(
                models_of(list@),
                old(symbols)@,
                list.len() as int,
            ),
            final(symbols)@.no_duplicates(),
        decreases list,
    {
        let ghost models = models_of(list@);
        let ghost start = symbols@;
        let mut i: usize = 0;
        while i < list.len()
            invariant
                i <= list.len(),
                models == models_of(list@),
                symbols@ == with_symbols_of_list(models, start, i as int),
                symbols@.no_duplicates(),
            decreases list.len() - i,
        {
            list[i].collect_symbols(symbols);
            i += 1;
        }
    }

    /// The number of states of the part for the expression, where the
    /// machine can count them.
    #[verifier::loop_isolation(false)]
    #[verifier::rlimit(50)]
    pub fn thompson_size(&self) -> (size: Option<usize>)
        ensures
            match size {
                Some(n) => n == part_size(self@),
                None => part_size(self@) > usize::MAX,
            },
        decreases self,
    {
        match self {
            Regex::Empty => Some(1),
            Regex::Zero => Some(2),
            Regex::Literal(_) => Some(2),
            Regex::Concat(list) => {
                assert(self@->Concat_0 =~= models_of(list@));
                let ghost models = models_of(list@);
                assert(self@ == RegexModel::Concat(models));
                if list.len() == 0 {
                    assert(items_size(models, 0) == 1);
                    return Some(1);
                }
                let mut total: usize = match list[0].thompson_size() {
                    Some(n) => n,
                    None => {
                        proof {
                            lemma_items_size(models, 1, list.len() as int);
                        }
                        return None;
                    },
                };
                let mut i: usize = 1;
                while i < list.len()
                    invariant
                        1 <= i <= list.len(),
                        models == models_of(list@),
                        total == items_size(models, i as int),
                    decreases list.len() - i,
                {
                    proof {
                        lemma_items_size(models, i + 1, list.len() as int);
                    }
                    let next = match list[i].thompson_size() {
                        Some(n) => n,
                        None => {
                            return None;
                        },
                    };
                    total = match total.checked_add(next) {
                        Some(n) => n,
                        None => {
                            return None;
                        },
                    };
                    i += 1;
                }
                Some(total)
            },
            Regex::Alt(list) => {
                assert(self@->Alt_0 =~= models_of(list@));
                let ghost models = models_of(list@);
                assert(self@ == RegexModel::Alt(models));
                if list.len() == 0 {
                    assert(alternatives_size(models, 0) == 2);
                    return Some(2);
                }
                let mut total: usize = match list[0].thompson_size() {
                    Some(n) => n,
                    None => {
                        proof {
                            lemma_alternatives_size(models, 1, list.len() as int);
                        }
                        return None;
                    },
                };
                let mut i: usize = 1;
                while i < list.len()
                    invariant
                        1 <= i <= list.len(),
                        models == models_of(list@),
                        total == alternatives_size(models, i as int),
                    decreases list.len() - i,
                {
                    proof {
                        lemma_alternatives_size(models, i + 1, list.len() as int);
                    }
                    let next = match list[i].thompson_size() {
                        Some(n) => n,
                        None => {
                            return None;
                        },
                    };
                    let sum = match total.checked_add(next) {
                        Some(n) => n,
                        None => {
                            return None;
                        },
                    };
                    total = match sum.checked_add(1) {
                        Some(n) => n,
                        None => {
                            return None;
                        },
                    };
                    i += 1;
                }
                Some(total)
            },
            Regex::Star(inner) => match inner.thompson_size() {
                Some(n) => n.checked_add(1),
                None => None,
            },
            Regex::Plus(inner) => match inner.thompson_size() {
                Some(n) => match n.checked_add(1) {
                    Some(m) => m.checked_add(n),
                    None => None,
                },
                None => None,
            },
        }
    }

    /// The part for the expression over the given symbols.
    #[verifier::loop_isolation(false)]
    #[verifier::rlimit(50)]
    fn part(&self, symbols: &Vec<char>) -> (part: Part)
        requires
            part_size(self@) <= usize::MAX,
        ensures
            part@ == part_of(self@, symbols@),
            part_wf(part@, symbols.len() as int),
            part@.states.len() == part_size(self@),
        decreases self,
    {
        let count = symbols.len();
        match self {
            Regex::Empty => Part::empty(count),
            Regex::Zero => Part::zero(count),
            Regex::Literal(c) => {
                let x = find_char(symbols, *c);
                if x < count {
                    Part::literal(count, x)
                } else {
                    Part::zero(count)
                }
            },
            Regex::Concat(list) => {
                assert(self@->Concat_0 =~= models_of(list@));
                let ghost models = models_of(list@);
                assert(self@ == RegexModel::Concat(models));
                if list.len() == 0 {
                    assert(part_of_items(models, symbols@, 0) == part_empty(count as int));
                    assert(items_size(models, 0) == 1);
                    return Part::empty(count);
                }
                proof {
                    lemma_items_size(models, 1, list.len() as int);
                }
                let mut part = list[0].part(symbols);
                let mut i: usize = 1;
                while i < list.len()
                    invariant
                        1 <= i <= list.len(),
                        count == symbols.len(),
                        models == models_of(list@),
                        items_size(models, list.len() as int) <= usize::MAX,
                        part@ == part_of_items(models, symbols@, i as int),
                        part_wf(part@, count as int),
                        part@.states.len() == items_size(models, i as int),
                    decreases list.len() - i,
                {
                    proof {
                        lemma_items_size(models, i + 1, list.len() as int);
                    }
                    let next = list[i].part(symbols);
                    proof {
                        lemma_concat_wf(part@, next@, count as int);
                    }
                    part = Part::concat(part, next, Ghost(count as int));
                    i += 1;
                }
                part
            },
            Regex::Alt(list) => {
                assert(self@->Alt_0 =~= models_of(list@));
                let ghost models = models_of(list@);
                assert(self@ == RegexModel::Alt(models));
                if list.len() == 0 {
                    assert(part_of_alternatives(models, symbols@, 0) == part_zero(count as int));
                    assert(alternatives_size(models, 0) == 2);
                    return Part::zero(count);
                }
                proof {
                    lemma_alternatives_size(models, 1, list.len() as int);
                }
                let mut part = list[0].part(symbols);
                let mut i: usize = 1;
                while i < list.len()
                    invariant
                        1 <= i <= list.len(),
                        count == symbols.len(),
                        models == models_of(list@),
                        alternatives_size(models, list.len() as int) <= usize::MAX,
                        part@ == part_of_alternatives(models, symbols@, i as int),
                        part_wf(part@, count as int),
                        part@.states.len() == alternatives_size(models, i as int),
                    decreases list.len() - i,
                {
                    proof {
                        lemma_alternatives_size(models, i + 1, list.len() as int);
                    }
                    let next = list[i].part(symbols);
                    proof {
                        lemma_alt_wf(part@, next@, count as int);
                    }
                    part = Part::alt(part, next, count);
                    i += 1;
                }
                part
            },
            Regex::Star(inner) => {
                let part = inner.part(symbols);
                proof {
                    lemma_star_wf(part@, count as int);
                }
                Part::star(part, count)
            },
            Regex::Plus(inner) => {
                let first = inner.part(symbols);
                let again = inner.part(symbols);
                proof {
                    lemma_star_wf(again@, count as int);
                }
                let star = Part::star(again, count);
                proof {
                    lemma_concat_wf(first@, star@, count as int);
                }
                Part::concat(first, star, Ghost(count as int))
            },
        }
    }
}

/// The digit for a number below ten.
pub open spec fn digit(d: int) -> char {
    if d == 0 {
        '0'
    } else if d == 1 {
        '1'
    } else if d == 2 {
        '2'
    } else if d == 3 {
        '3'
    } else if d == 4 {
        '4'
    } else if d == 5 {
        '5'
    } else if d == 6 {
        '6'
    } else if d == 7 {
        '7'
    } else if d == 8 {
        '8'
    } else {
        '9'
    }
}

/// The digits of a number in base ten.
pub open spec fn digits(n: nat) -> Seq<char>
    decreases n,
{
    if n < 10 {
        seq![digit(n as int)]
    } else {
        digits(n / 10).push(digit((n % 10) as int))
    }
}

/// The name of the state at place `q`: the letter q and the number of the
/// place.
pub open spec fn state_name(q: int) -> Seq<char> {
    seq!['q'] + digits(q as nat)
}

/// The tokens of one character each that symbols are.
pub open spec fn symbol_tokens(symbols: Seq<char>) -> Seq<Seq<char>> {
    symbols.map_values(|c: char| seq![c])
}

/// The automaton that a part is, over the given alphabet: the states are
/// named by their places.
pub open spec fn nfa_of_part(p: PartModel, alphabet: Seq<Seq<char>>) -> NfaModel {
    NfaModel {
        alphabet,
        states: Seq::new(
            p.states.len(),
            |q: int|
                NfaStateModel {
                    name: state_name(q),
                    initial: q == p.initial,
                    accepting: p.states[q].accepting,
                    epsilon_transitions: p.states[q].silent,
                    transitions: p.states[q].moves,
                },
        ),
        initial: p.initial,
    }
}

/// The automaton for an expression.
pub open spec fn thompson(r: RegexModel) -> NfaModel {
    nfa_of_part(part_of(r, symbols_of(r)), symbol_tokens(symbols_of(r)))
}

/// The part that an automaton is where the symbol at position `places[u]`
/// of its alphabet is taken for the symbol at position `u`.
pub open spec fn part_of_nfa(m: NfaModel, places: Seq<int>) -> PartModel {
    PartModel {
        states: m.states.map_values(
            |s: NfaStateModel|
                PartStateModel {
                    accepting: s.accepting,
                    silent: s.epsilon_transitions,
                    moves: Seq::new(places.len(), |u: int| s.transitions[places[u]]),
                },
        ),
        initial: m.initial,
    }
}

/// Appends the digits of a number.
fn push_digits(text: &mut String, n: usize)
    ensures
        final(text)@ == old(text)@ + digits(n as nat),
    decreases n,
{
    let ghost before = text@;
    if n >= 10 {
        push_digits(text, n / 10);
    }
    let d = n % 10;
    let c = if d == 0 {
        '0'
    } else if d == 1 {
        '1'
    } else if d == 2 {
        '2'
    } else if d == 3 {
        '3'
    } else if d == 4 {
        '4'
    } else if d == 5 {
        '5'
    } else if d == 6 {
        '6'
    } else if d == 7 {
        '7'
    } else if d == 8 {
        '8'
    } else {
        '9'
    };
    text.push(c);
    assert(text@ =~= before + digits(n as nat));
}

impl Part {
    /// The part that an automaton is, its symbols taken in the order that
    /// `places` gives.
    pub(crate) fn of_nfa(nfa: &Nfa, places: &Vec<usize>) -> (part: Part)
        requires
            forall|u: int| 0 <= u < places.len() ==> #[trigger] places[u] < nfa@.alphabet.len(),
        ensures
            part@ == part_of_nfa(nfa@, targets_of(places@)),
            part_wf(part@, places.len() as int),
    {
        let count = nfa.state_count();
        let ghost want = part_of_nfa(nfa@, targets_of(places@));
        let mut states: Vec<PartState> = Vec::new();
        let mut q: usize = 0;
        while q < count
            invariant
                q <= count,
                count == nfa@.states.len(),
                nfa@.wf(),
                states.len() == q,
                want == part_of_nfa(nfa@, targets_of(places@)),
                forall|u: int| 0 <= u < places.len() ==> #[trigger] places[u] < nfa@.alphabet.len(),
                forall|p: int| 0 <= p < q ==> (#[trigger] states[p])@ == want.states[p],
                forall|p: int, k: int|
                    0 <= p < q && 0 <= k < states[p].silent.len() ==> #[trigger] states[p].silent[k]
                        < count,
                forall|p: int, u: int, k: int|
                    0 <= p < q && 0 <= u < places.len() && 0 <= k < states[p].moves[u].len()
                        ==> #[trigger] states[p].moves[u][k] < count,
                forall|p: int| 0 <= p < q ==> (#[trigger] states[p]).moves.len() == places.len(),
            decreases count - q,
        {
            let mut moves: Vec<Vec<usize>> = Vec::new();
            let mut u: usize = 0;
            while u < places.len()
                invariant
                    u <= places.len(),
                    q < count,
                    count == nfa@.states.len(),
                    moves.len() == u,
                    forall|u: int|
                        0 <= u < places.len() ==> #[trigger] places[u] < nfa@.alphabet.len(),
                    forall|v: int|
                        0 <= v < u ==> targets_of((#[trigger] moves[v])@)
                            == nfa@.states[q as int].transitions[places[v] as int],
                    forall|v: int, k: int|
                        0 <= v < u && 0 <= k < moves[v].len() ==> #[trigger] moves[v][k] < count,
                decreases places.len() - u,
            {
                let targets = clone_indices(nfa.targets(q, places[u]).as_slice());
                moves.push(targets);
                u += 1;
            }
            let silent = clone_indices(nfa.epsilon_targets(q).as_slice());
            let state = PartState { accepting: nfa.accepting(q), silent, moves };
            proof {
                assert(state@.moves =~= want.states[q as int].moves) by {
                    assert(targets_of(places@).len() == places.len());
                    assert forall|v: int| 0 <= v < places.len() implies state@.moves[v]
                        == want.states[q as int].moves[v] by {
                        assert(targets_of(places@)[v] == places[v] as int);
                    }
                }
            }
            states.push(state);
            q += 1;
        }
        let part = Part { states, initial: nfa.initial_state_index() };
        proof {
            assert(part@.states =~= want.states);
            assert forall|p: int, k: int|
                0 <= p < part@.states.len() && 0 <= k < part@.states[p].silent.len() implies 0
                <= #[trigger] part@.states[p].silent[k] < part@.states.len() by {
                assert(part@.states[p].silent[k] == states[p].silent[k]);
            }
            assert forall|p: int, x: int, k: int|
                0 <= p < part@.states.len() && 0 <= x < places.len() && 0 <= k
                    < part@.states[p].moves[x].len() implies 0
                <= #[trigger] part@.states[p].moves[x][k] < part@.states.len() by {
                assert(part@.states[p].moves[x][k] == states[p].moves[x][k]);
            }
            assert forall|p: int| 0 <= p < part@.states.len() implies (
            #[trigger] part@.states[p]).moves.len() == places.len() by {
                assert(part@.states[p] == states[p]@);
            }
        }
        part
    }

    /// The automaton that the part is over the given alphabet.
    pub(crate) fn into_nfa(self, alphabet: Vec<String>) -> (nfa: Nfa)
        requires
            part_wf(self@, alphabet.len() as int),
            tokens_of(alphabet@).no_duplicates(),
        ensures
            nfa@ == nfa_of_part(self@, tokens_of(alphabet@)),
            nfa@.wf(),
    {
        let ghost want = nfa_of_part(self@, tokens_of(alphabet@));
        let mut states: Vec<NfaState> = Vec::new();
        let mut q: usize = 0;
        while q < self.states.len()
            invariant
                q <= self.states.len(),
                states.len() == q,
                want == nfa_of_part(self@, tokens_of(alphabet@)),
                forall|j: int| 0 <= j < q ==> (#[trigger] states[j])@ == want.states[j],
            decreases self.states.len() - q,
        {
            let state = &self.states[q];
            assert(self@.states[q as int] == state@);
            let mut name: String = String::new();
            name.push('q');
            push_digits(&mut name, q);
            let made = NfaState::from_parts(
                name,
                q == self.initial,
                state.accepting,
                clone_indices(state.silent.as_slice()),
                crate::nfa::clone_row(&state.moves),
            );
            assert(made@.name =~= state_name(q as int));
            states.push(made);
            q += 1;
        }
        proof {
            let n = nfa_model(alphabet@, states@, self.initial);
            assert(n.states =~= want.states);
            assert(n == want);
            assert(want.wf());
        }
        Nfa::from_parts(alphabet, states, self.initial)
    }
}

impl Regex {
    /// The automaton for the expression, built part by part: a part of two
    /// states for a symbol, and parts joined by moves that read nothing
    /// for the expressions made of expressions. Its alphabet holds the
    /// symbols of the expression in the order in which they first stand in
    /// it.
    #[verifier::loop_isolation(false)]
    #[verifier::rlimit(50)]
    pub fn to_nfa(&self) -> (nfa: Nfa)
        requires
            part_size(self@) <= usize::MAX,
        ensures
            nfa@ == thompson(self@),
            nfa@.wf(),
            forall|word: Seq<char>|
                nfa@.accepts(#[trigger] crate::regex::matching::as_tokens(word))
                    == crate::regex::matching::matches(self@, word),
    {
        let mut symbols: Vec<char> = Vec::new();
        self.collect_symbols(&mut symbols);
        let part = self.part(&symbols);
        let ghost p = part@;
        let ghost want = thompson(self@);
        let mut alphabet: Vec<String> = Vec::new();
        let mut x: usize = 0;
        while x < symbols.len()
            invariant
                x <= symbols.len(),
                alphabet.len() == x,
                forall|y: int| 0 <= y < x ==> (#[trigger] alphabet[y])@ == seq![symbols@[y]],
            decreases symbols.len() - x,
        {
            let mut token: String = String::new();
            token.push(symbols[x]);
            assert(token@ =~= seq![symbols@[x as int]]);
            alphabet.push(token);
            x += 1;
        }
        assert(tokens_of(alphabet@) =~= want.alphabet);
        proof {
            crate::regex::matching::lemma_symbol_tokens(symbols@);
            crate::regex::matching::lemma_gathered(self@, Seq::empty());
            assert forall|word: Seq<char>|
                want.accepts(#[trigger] crate::regex::matching::as_tokens(word))
                    == crate::regex::matching::matches(self@, word) by {
                crate::regex::matching::law_thompson(self@, word);
            }
        }
        part.into_nfa(alphabet)
    }

    /// The deterministic automaton for the expression: that of the sets of
    /// states of the automaton that `to_nfa` builds.
    pub fn to_dfa(&self) -> (dfa: Dfa)
        requires
            part_size(self@) <= usize::MAX,
        ensures
            dfa@.wf(),
            dfa@.alphabet == thompson(self@).alphabet,
            forall|word: Seq<Seq<char>>| dfa@.accepts(word) == thompson(self@).accepts(word),
            forall|word: Seq<char>|
                dfa@.accepts(#[trigger] crate::regex::matching::as_tokens(word))
                    == crate::regex::matching::matches(self@, word),
    {
        let nfa = self.to_nfa();
        let dfa = nfa.to_dfa();
        proof {
            assert forall|word: Seq<char>|
                dfa@.accepts(#[trigger] crate::regex::matching::as_tokens(word))
                    == crate::regex::matching::matches(self@, word) by {
                assert(dfa@.accepts(crate::regex::matching::as_tokens(word)) == nfa@.accepts(
                    crate::regex::matching::as_tokens(word),
                ));
            }
        }
        dfa
    }
}

} // verus!
