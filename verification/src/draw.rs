//! Diagrams of automata drawn with characters: the states stand in a row,
//! and every transition is an arrow above that row.

use vstd::prelude::*;
use crate::dfa::{Dfa, DfaModel, DfaState};
use crate::nfa::{Nfa, NfaModel, NfaState};
use crate::text::{chars_of, push_chars};

verus! {

/// The way an arrow points along the row of states.
#[derive(Debug, PartialEq, Eq, Clone, Copy, Hash, Structural)]
pub enum Direction {
    Left,
    Right,
    Spot,
}

/// What an arrow holds: the two states it joins, the smaller index first,
/// the way it points, and the symbol it is labelled with.
pub struct ArrowModel {
    pub left: int,
    pub right: int,
    pub direction: Direction,
    pub label: Seq<char>,
}

/// The arrow for a transition from state `from` to state `to`.
pub open spec fn arrow_between(from: int, to: int, label: Seq<char>) -> ArrowModel {
    if from < to {
        ArrowModel { left: from, right: to, direction: Direction::Right, label }
    } else if from == to {
        ArrowModel { left: from, right: to, direction: Direction::Spot, label }
    } else {
        ArrowModel { left: to, right: from, direction: Direction::Left, label }
    }
}

/// One transition of an automaton, as an arrow between two positions of the
/// row of states.
#[derive(Debug, PartialEq, Eq)]
pub struct Arrow<'a> {
    left: usize,
    right: usize,
    direction: Direction,
    label: &'a str,
}

impl<'a> View for Arrow<'a> {
    type V = ArrowModel;

    closed spec fn view(&self) -> ArrowModel {
        ArrowModel {
            left: self.left as int,
            right: self.right as int,
            direction: self.direction,
            label: self.label@,
        }
    }
}

impl<'a> Arrow<'a> {
    /// The arrow for a transition from state `from` to state `to`.
    pub fn new(from: usize, to: usize, label: &'a str) -> (arrow: Self)
        ensures
            arrow@ == arrow_between(from as int, to as int, label@),
    {
        if from < to {
            Arrow { left: from, right: to, direction: Direction::Right, label }
        } else if from == to {
            Arrow { left: from, right: to, direction: Direction::Spot, label }
        } else {
            Arrow { left: to, right: from, direction: Direction::Left, label }
        }
    }

    /// The smaller of the two positions.
    pub fn left(&self) -> (left: usize)
        ensures
            left == self@.left,
    {
        self.left
    }

    /// The larger of the two positions.
    pub fn right(&self) -> (right: usize)
        ensures
            right == self@.right,
    {
        self.right
    }

    /// The way the arrow points.
    pub fn direction(&self) -> (direction: Direction)
        ensures
            direction == self@.direction,
    {
        self.direction
    }

    /// The text written at the arrow.
    pub fn label(&self) -> (label: String)
        ensures
            label@ == self@.label,
    {
        self.label.to_owned()
    }
}

/// The arrows of the first `upto` symbols of state `q`.
pub open spec fn dfa_state_arrows(m: DfaModel, q: int, upto: int) -> Seq<ArrowModel>
    decreases upto,
{
    if upto <= 0 {
        Seq::empty()
    } else {
        dfa_state_arrows(m, q, upto - 1).push(
            arrow_between(q, m.states[q].transitions[upto - 1], m.alphabet[upto - 1]),
        )
    }
}

/// The arrows of the first `upto` states: state by state, and within a state
/// symbol by symbol.
pub open spec fn dfa_arrows(m: DfaModel, upto: int) -> Seq<ArrowModel>
    decreases upto,
{
    if upto <= 0 {
        Seq::empty()
    } else {
        dfa_arrows(m, upto - 1) + dfa_state_arrows(m, upto - 1, m.alphabet.len() as int)
    }
}

/// The models of a list of arrows.
pub open spec fn arrow_models(arrows: Seq<Arrow>) -> Seq<ArrowModel> {
    arrows.map_values(|a: Arrow| a@)
}

/// One arrow for every transition of the automaton.
pub fn dfa_to_arrows<'a>(dfa: &'a Dfa) -> (arrows: Vec<Arrow<'a>>)
    ensures
        dfa@.wf(),
        arrow_models(arrows@) == dfa_arrows(dfa@, dfa@.states.len() as int),
        forall|i: int|
            0 <= i < arrows.len() ==> (#[trigger] arrows[i])@.right < dfa@.states.len(),
{
    let states = dfa.states();
    let alphabet = dfa.alphabet();
    let mut arrows: Vec<Arrow<'a>> = Vec::new();
    let mut from: usize = 0;
    while from < states.len()
        invariant
            dfa@.wf(),
            states@.map_values(|s: DfaState| s@) == dfa@.states,
            crate::alphabet::tokens_of(alphabet@) == dfa@.alphabet,
            from <= states.len(),
            arrow_models(arrows@) == dfa_arrows(dfa@, from as int),
            forall|i: int|
                0 <= i < arrows.len() ==> (#[trigger] arrows[i])@.right < dfa@.states.len(),
        decreases states.len() - from,
    {
        let targets = states[from].transitions();
        let ghost before = arrows@;
        assert(dfa@.states[from as int] == states[from as int]@);
        let mut idx: usize = 0;
        while idx < targets.len()
            invariant
                dfa@.wf(),
                crate::alphabet::tokens_of(alphabet@) == dfa@.alphabet,
                from < dfa@.states.len(),
                targets@.map_values(|t: usize| t as int) == dfa@.states[from as int].transitions,
                idx <= targets.len(),
                arrow_models(arrows@) == arrow_models(before) + dfa_state_arrows(
                    dfa@,
                    from as int,
                    idx as int,
                ),
                forall|i: int|
                    0 <= i < arrows.len() ==> (#[trigger] arrows[i])@.right < dfa@.states.len(),
            decreases targets.len() - idx,
        {
            assert(targets@.map_values(|t: usize| t as int)[idx as int] == targets[idx as int]);
            assert(crate::alphabet::tokens_of(alphabet@)[idx as int] == alphabet[idx as int]@);
            let ghost old_arrows = arrows@;
            let arrow = Arrow::new(from, targets[idx], alphabet[idx].as_str());
            arrows.push(arrow);
            assert(arrow_models(arrows@) =~= arrow_models(old_arrows).push(arrow@));
            assert(arrow_models(arrows@) =~= arrow_models(before) + dfa_state_arrows(
                dfa@,
                from as int,
                idx + 1,
            ));
            idx += 1;
        }
        assert(arrow_models(arrows@) =~= dfa_arrows(dfa@, from + 1));
        from += 1;
    }
    arrows
}

/// The arrows from state `from` to the first `upto` of `targets`.
pub open spec fn arrows_to(from: int, targets: Seq<int>, label: Seq<char>, upto: int) -> Seq<
    ArrowModel,
>
    decreases upto,
{
    if upto <= 0 {
        Seq::empty()
    } else {
        arrows_to(from, targets, label, upto - 1).push(
            arrow_between(from, targets[upto - 1], label),
        )
    }
}

/// The arrows of state `q` for the first `upto` symbols.
pub open spec fn nfa_symbol_arrows(m: NfaModel, q: int, upto: int) -> Seq<ArrowModel>
    decreases upto,
{
    if upto <= 0 {
        Seq::empty()
    } else {
        let targets = m.states[q].transitions[upto - 1];
        nfa_symbol_arrows(m, q, upto - 1) + arrows_to(
            q,
            targets,
            m.alphabet[upto - 1],
            targets.len() as int,
        )
    }
}

/// The label of the moves that read nothing.
pub open spec fn epsilon_label() -> Seq<char> {
    seq!['\u{3b5}']
}

/// The arrows of state `q`: those of its symbols, then those of its moves
/// that read nothing.
pub open spec fn nfa_state_arrows(m: NfaModel, q: int) -> Seq<ArrowModel> {
    let eps = m.states[q].epsilon_transitions;
    nfa_symbol_arrows(m, q, m.alphabet.len() as int) + arrows_to(
        q,
        eps,
        epsilon_label(),
        eps.len() as int,
    )
}

/// The arrows of the first `upto` states.
pub open spec fn nfa_arrows(m: NfaModel, upto: int) -> Seq<ArrowModel>
    decreases upto,
{
    if upto <= 0 {
        Seq::empty()
    } else {
        nfa_arrows(m, upto - 1) + nfa_state_arrows(m, upto - 1)
    }
}

/// Adds the arrows from `from` to each of `targets`.
fn push_arrows<'a>(arrows: &mut Vec<Arrow<'a>>, from: usize, targets: &[usize], label: &'a str)
    ensures
        arrow_models(final(arrows)@) == arrow_models(old(arrows)@) + arrows_to(
            from as int,
            crate::nfa::targets_of(targets@),
            label@,
            targets@.len() as int,
        ),
{
    let ghost before = arrows@;
    let mut k: usize = 0;
    assert(arrow_models(arrows@) =~= arrow_models(before) + arrows_to(
        from as int,
        crate::nfa::targets_of(targets@),
        label@,
        0,
    ));
    while k < targets.len()
        invariant
            k <= targets.len(),
            arrow_models(arrows@) == arrow_models(before) + arrows_to(
                from as int,
                crate::nfa::targets_of(targets@),
                label@,
                k as int,
            ),
        decreases targets.len() - k,
    {
        let ghost old_arrows = arrows@;
        let arrow = Arrow::new(from, targets[k], label);
        arrows.push(arrow);
        assert(arrow_models(arrows@) =~= arrow_models(old_arrows).push(arrow@));
        assert(arrow_models(arrows@) =~= arrow_models(before) + arrows_to(
            from as int,
            crate::nfa::targets_of(targets@),
            label@,
            k + 1,
        ));
        k += 1;
    }
}

/// One arrow for every transition of the automaton, with the label `ε` for
/// the moves that read nothing.
pub fn nfa_to_arrows<'a>(nfa: &'a Nfa) -> (arrows: Vec<Arrow<'a>>)
    ensures
        nfa@.wf(),
        arrow_models(arrows@) == nfa_arrows(nfa@, nfa@.states.len() as int),
{
    let states = nfa.states();
    let alphabet = nfa.alphabet();
    let mut arrows: Vec<Arrow<'a>> = Vec::new();
    let mut from: usize = 0;
    while from < states.len()
        invariant
            nfa@.wf(),
            states@.map_values(|s: NfaState| s@) == nfa@.states,
            crate::alphabet::tokens_of(alphabet@) == nfa@.alphabet,
            from <= states.len(),
            arrow_models(arrows@) == nfa_arrows(nfa@, from as int),
        decreases states.len() - from,
    {
        let row = states[from].transitions();
        let ghost before = arrows@;
        assert(nfa@.states[from as int] == states[from as int]@);
        let mut idx: usize = 0;
        assert(arrow_models(arrows@) =~= arrow_models(before) + nfa_symbol_arrows(
            nfa@,
            from as int,
            0,
        ));
        while idx < row.len()
            invariant
                nfa@.wf(),
                crate::alphabet::tokens_of(alphabet@) == nfa@.alphabet,
                from < nfa@.states.len(),
                crate::nfa::target_lists_of(row@) == nfa@.states[from as int].transitions,
                idx <= row.len(),
                arrow_models(arrows@) == arrow_models(before) + nfa_symbol_arrows(
                    nfa@,
                    from as int,
                    idx as int,
                ),
            decreases row.len() - idx,
        {
            assert(crate::nfa::target_lists_of(row@)[idx as int] == crate::nfa::targets_of(
                row[idx as int]@,
            ));
            assert(crate::alphabet::tokens_of(alphabet@)[idx as int] == alphabet[idx as int]@);
            push_arrows(&mut arrows, from, row[idx].as_slice(), alphabet[idx].as_str());
            assert(arrow_models(arrows@) =~= arrow_models(before) + nfa_symbol_arrows(
                nfa@,
                from as int,
                idx + 1,
            ));
            idx += 1;
        }
        proof {
            reveal_strlit("ε");
            assert("ε"@ =~= epsilon_label());
        }
        push_arrows(&mut arrows, from, states[from].epsilon_transitions(), "ε");
        assert(arrow_models(arrows@) =~= nfa_arrows(nfa@, from + 1));
        from += 1;
    }
    arrows
}

/// What a bundle of arrows between the same two states holds: the labels of
/// all of them, in the order of the arrows.
pub struct GroupModel {
    pub left: int,
    pub right: int,
    pub direction: Direction,
    pub labels: Seq<Seq<char>>,
}

/// Whether `arrow` belongs to `group`.
pub open spec fn in_group(group: GroupModel, arrow: ArrowModel) -> bool {
    group.left == arrow.left && group.right == arrow.right && group.direction == arrow.direction
}

/// The first position from `from` on whose group takes `arrow`; the number of
/// groups if there is none.
pub open spec fn group_position(groups: Seq<GroupModel>, arrow: ArrowModel, from: int) -> int
    decreases groups.len() - from,
{
    if from < 0 || from >= groups.len() {
        groups.len() as int
    } else if in_group(groups[from], arrow) {
        from
    } else {
        group_position(groups, arrow, from + 1)
    }
}

/// The groups after `arrow` has joined them: its label is added to the group
/// of its two states and direction, or it starts a new last group.
pub open spec fn with_arrow(groups: Seq<GroupModel>, arrow: ArrowModel) -> Seq<GroupModel> {
    let at = group_position(groups, arrow, 0);
    if at < groups.len() {
        groups.update(at, GroupModel { labels: groups[at].labels.push(arrow.label), ..groups[at] })
    } else {
        groups.push(
            GroupModel {
                left: arrow.left,
                right: arrow.right,
                direction: arrow.direction,
                labels: seq![arrow.label],
            },
        )
    }
}

/// The groups of a list of arrows, in the order in which their first arrows
/// stand in the list.
pub open spec fn grouped(arrows: Seq<ArrowModel>) -> Seq<GroupModel>
    decreases arrows.len(),
{
    if arrows.len() == 0 {
        Seq::empty()
    } else {
        with_arrow(grouped(arrows.drop_last()), arrows.last())
    }
}

/// The arrows between the same two states with the same direction, drawn as
/// one arrow that bears all their labels.
#[derive(Debug, PartialEq, Eq)]
pub struct GroupedArrow<'a> {
    left: usize,
    right: usize,
    direction: Direction,
    labels: Vec<&'a str>,
}

impl<'a> View for GroupedArrow<'a> {
    type V = GroupModel;

    closed spec fn view(&self) -> GroupModel {
        GroupModel {
            left: self.left as int,
            right: self.right as int,
            direction: self.direction,
            labels: crate::alphabet::word_of(self.labels@),
        }
    }
}

/// The labels joined by a comma and a space, up to the label at `upto`.
pub open spec fn joined_labels(labels: Seq<Seq<char>>, upto: int) -> Seq<char>
    decreases upto,
{
    if upto <= 0 {
        Seq::empty()
    } else if upto == 1 {
        labels[0]
    } else {
        joined_labels(labels, upto - 1) + seq![',', ' '] + labels[upto - 1]
    }
}

impl GroupModel {
    /// The text written at the arrow.
    pub open spec fn label(self) -> Seq<char> {
        joined_labels(self.labels, self.labels.len() as int)
    }
}

impl<'a> GroupedArrow<'a> {
    /// The smaller of the two positions.
    pub fn left(&self) -> (left: usize)
        ensures
            left == self@.left,
    {
        self.left
    }

    /// The larger of the two positions.
    pub fn right(&self) -> (right: usize)
        ensures
            right == self@.right,
    {
        self.right
    }

    /// The way the arrow points.
    pub fn direction(&self) -> (direction: Direction)
        ensures
            direction == self@.direction,
    {
        self.direction
    }

    /// The text written at the arrow: its labels, joined by a comma and a
    /// space.
    pub fn label(&self) -> (label: String)
        ensures
            label@ == self@.label(),
    {
        let mut label: String = String::new();
        let mut k: usize = 0;
        while k < self.labels.len()
            invariant
                k <= self.labels.len(),
                label@ == joined_labels(self@.labels, k as int),
            decreases self.labels.len() - k,
        {
            if k > 0 {
                proof {
                    reveal_strlit(", ");
                    assert(", "@ =~= seq![',', ' ']);
                }
                label.append(", ");
            }
            label.append(self.labels[k]);
            assert(self@.labels[k as int] == self.labels[k as int]@);
            assert(label@ =~= joined_labels(self@.labels, k + 1));
            k += 1;
        }
        label
    }
}

/// The models of a list of grouped arrows.
pub open spec fn group_models(groups: Seq<GroupedArrow>) -> Seq<GroupModel> {
    groups.map_values(|g: GroupedArrow| g@)
}

/// Bundles the arrows that join the same two states in the same direction.
/// The bundles keep the order in which their first arrows stand in the list.
pub fn group_arrows<'a>(arrows: Vec<Arrow<'a>>) -> (groups: Vec<GroupedArrow<'a>>)
    ensures
        group_models(groups@) == grouped(arrow_models(arrows@)),
{
    let mut groups: Vec<GroupedArrow<'a>> = Vec::new();
    let mut i: usize = 0;
    assert(arrow_models(arrows@).take(0) =~= Seq::<ArrowModel>::empty());
    while i < arrows.len()
        invariant
            i <= arrows.len(),
            group_models(groups@) == grouped(arrow_models(arrows@).take(i as int)),
        decreases arrows.len() - i,
    {
        let arrow = &arrows[i];
        let ghost models = group_models(groups@);
        let mut at: usize = 0;
        while at < groups.len() && !(groups[at].left == arrow.left && groups[at].right
            == arrow.right && groups[at].direction == arrow.direction)
            invariant
                at <= groups.len(),
                models == group_models(groups@),
                group_position(models, arrow@, 0) == group_position(models, arrow@, at as int),
            decreases groups.len() - at,
        {
            assert(models[at as int] == groups[at as int]@);
            at += 1;
        }
        if at < groups.len() {
            assert(models[at as int] == groups[at as int]@);
            let ghost before = groups[at as int]@;
            let mut group = groups.remove(at);
            group.labels.push(arrow.label);
            assert(group@.labels =~= before.labels.push(arrow@.label));
            groups.insert(at, group);
            assert(group_models(groups@) =~= with_arrow(models, arrow@));
        } else {
            let mut labels: Vec<&'a str> = Vec::new();
            labels.push(arrow.label);
            let group = GroupedArrow {
                left: arrow.left,
                right: arrow.right,
                direction: arrow.direction,
                labels,
            };
            assert(group@.labels =~= seq![arrow@.label]);
            groups.push(group);
            assert(group_models(groups@) =~= with_arrow(models, arrow@));
        }
        proof {
            let upto = arrow_models(arrows@).take(i + 1);
            assert(upto.drop_last() =~= arrow_models(arrows@).take(i as int));
            assert(upto.last() == arrow@);
        }
        i += 1;
    }
    assert(arrow_models(arrows@).take(i as int) =~= arrow_models(arrows@));
    groups
}

/// The first position from `from` on whose group ends at or after the end
/// of `group`; the number of groups if there is none.
pub open spec fn insert_position(order: Seq<GroupModel>, group: GroupModel, from: int) -> int
    decreases order.len() - from,
{
    if from < 0 || from >= order.len() {
        order.len() as int
    } else if order[from].right >= group.right {
        from
    } else {
        insert_position(order, group, from + 1)
    }
}

/// The order in which arrows are tried for a level: by the position at
/// which they end, and among those that end at the same position the later
/// one of the list first.
pub open spec fn processing_order(groups: Seq<GroupModel>) -> Seq<GroupModel>
    decreases groups.len(),
{
    if groups.len() == 0 {
        Seq::empty()
    } else {
        let order = processing_order(groups.drop_last());
        order.insert(insert_position(order, groups.last(), 0), groups.last())
    }
}

/// The position from which the next arrow of a level may start, once
/// `group` is on that level.
pub open spec fn end_after(group: GroupModel) -> int {
    if group.left == group.right {
        group.right + 1
    } else {
        group.right
    }
}

/// The arrows that one sweep over `order` puts on a level on which the
/// positions before `end` are taken: each arrow that starts at or after the
/// end of the one taken before it.
pub open spec fn pass_placed(order: Seq<GroupModel>, end: int) -> Seq<GroupModel>
    decreases order.len(),
{
    if order.len() == 0 {
        Seq::empty()
    } else if order[0].left >= end {
        seq![order[0]] + pass_placed(order.drop_first(), end_after(order[0]))
    } else {
        pass_placed(order.drop_first(), end)
    }
}

/// The arrows that the sweep leaves for the levels above.
pub open spec fn pass_rest(order: Seq<GroupModel>, end: int) -> Seq<GroupModel>
    decreases order.len(),
{
    if order.len() == 0 {
        Seq::empty()
    } else if order[0].left >= end {
        pass_rest(order.drop_first(), end_after(order[0]))
    } else {
        seq![order[0]] + pass_rest(order.drop_first(), end)
    }
}

/// A sweep places or leaves every arrow.
pub proof fn lemma_pass_lengths(order: Seq<GroupModel>, end: int)
    ensures
        pass_placed(order, end).len() + pass_rest(order, end).len() == order.len(),
        order.len() > 0 && order[0].left >= end ==> pass_rest(order, end).len() < order.len(),
    decreases order.len(),
{
    if order.len() > 0 {
        lemma_pass_lengths(order.drop_first(), end);
        lemma_pass_lengths(order.drop_first(), end_after(order[0]));
    }
}

/// An arrow together with the level on which it is drawn.
pub struct PlacedModel {
    pub arrow: GroupModel,
    pub level: int,
}

/// The arrows of `order` with their levels, from `level` upwards: a sweep
/// fills one level, and what it leaves goes to the levels above.
pub open spec fn placement(order: Seq<GroupModel>, level: int) -> Seq<PlacedModel>
    decreases order.len(),
{
    if order.len() == 0 || order[0].left < 0 {
        Seq::empty()
    } else {
        proof {
            lemma_pass_lengths(order, 0);
        }
        pass_placed(order, 0).map_values(|g: GroupModel| PlacedModel { arrow: g, level })
            + placement(pass_rest(order, 0), level + 1)
    }
}

/// The number of levels that the arrows of `order` take.
pub open spec fn level_count(order: Seq<GroupModel>) -> int
    decreases order.len(),
{
    if order.len() == 0 || order[0].left < 0 {
        0
    } else {
        proof {
            lemma_pass_lengths(order, 0);
        }
        1 + level_count(pass_rest(order, 0))
    }
}

/// An arrow together with the level on which it is drawn.
#[derive(Debug, PartialEq, Eq)]
pub struct PlacedArrow<'a> {
    arrow: GroupedArrow<'a>,
    level: usize,
}

impl<'a> View for PlacedArrow<'a> {
    type V = PlacedModel;

    closed spec fn view(&self) -> PlacedModel {
        PlacedModel { arrow: self.arrow@, level: self.level as int }
    }
}

impl<'a> PlacedArrow<'a> {
    /// The arrow.
    pub fn arrow(&self) -> (arrow: &GroupedArrow<'a>)
        ensures
            arrow@ == self@.arrow,
    {
        &self.arrow
    }

    /// The level on which the arrow is drawn, counted from the row of
    /// states upwards.
    pub fn level(&self) -> (level: usize)
        ensures
            level == self@.level,
    {
        self.level
    }
}

/// The models of a list of placed arrows.
pub open spec fn placed_models(placed: Seq<PlacedArrow>) -> Seq<PlacedModel> {
    placed.map_values(|p: PlacedArrow| p@)
}

/// The list in the opposite order.
fn reversed<'a>(list: Vec<GroupedArrow<'a>>) -> (out: Vec<GroupedArrow<'a>>)
    ensures
        group_models(out@) == group_models(list@).reverse(),
        out.len() == list.len(),
        forall|i: int|
            0 <= i < out.len() ==> (#[trigger] out[i])@ == group_models(list@)[list.len() - 1 - i],
{
    let mut list = list;
    let mut out: Vec<GroupedArrow<'a>> = Vec::new();
    let ghost all = group_models(list@);
    while list.len() > 0
        invariant
            list.len() <= all.len(),
            group_models(list@) == all.take(list.len() as int),
            out.len() + list.len() == all.len(),
            forall|i: int| 0 <= i < out.len() ==> (#[trigger] out[i])@ == all[all.len() - 1 - i],
        decreases list.len(),
    {
        let ghost before = group_models(list@);
        let item = list.pop().unwrap();
        assert(item@ == before[before.len() - 1]);
        assert(group_models(list@) =~= all.take(list.len() as int));
        out.push(item);
    }
    assert(group_models(out@) =~= all.reverse());
    out
}

/// The list in the order in which the arrows are tried for a level.
fn in_processing_order<'a>(arrows: Vec<GroupedArrow<'a>>) -> (order: Vec<GroupedArrow<'a>>)
    ensures
        group_models(order@) == processing_order(group_models(arrows@)),
        order.len() == arrows.len(),
{
    let ghost all = group_models(arrows@);
    let mut stack = reversed(arrows);
    let mut order: Vec<GroupedArrow<'a>> = Vec::new();
    let ghost mut done: int = 0;
    assert(all.take(0) =~= Seq::<GroupModel>::empty());
    while stack.len() > 0
        invariant
            0 <= done <= all.len(),
            stack.len() + done == all.len(),
            forall|i: int|
                0 <= i < stack.len() ==> (#[trigger] stack[i])@ == all[all.len() - 1 - i],
            group_models(order@) == processing_order(all.take(done)),
            order.len() == done,
        decreases stack.len(),
    {
        let item = stack.pop().unwrap();
        assert(item@ == all[done]);
        let ghost models = group_models(order@);
        let mut at: usize = 0;
        while at < order.len() && order[at].right < item.right
            invariant
                at <= order.len(),
                models == group_models(order@),
                insert_position(models, item@, 0) == insert_position(models, item@, at as int),
            decreases order.len() - at,
        {
            assert(models[at as int] == order[at as int]@);
            at += 1;
        }
        proof {
            if at < order.len() {
                assert(models[at as int] == order[at as int]@);
            }
            let upto = all.take(done + 1);
            assert(upto.drop_last() =~= all.take(done));
            assert(upto.last() == item@);
        }
        order.insert(at, item);
        assert(group_models(order@) =~= models.insert(at as int, item@));
        proof {
            done = done + 1;
        }
    }
    assert(all.take(done) =~= all);
    order
}

/// Puts every arrow on a level, so that the arrows of one level stand side
/// by side: the level nearest to the states is filled first, with as many
/// arrows as fit when they are tried in the order of their ends, and each
/// further level takes what the levels below left. Returns the arrows with
/// their levels, and the number of levels.
pub fn place_arrows<'a>(arrows: Vec<GroupedArrow<'a>>) -> (placed: (Vec<PlacedArrow<'a>>, usize))
    ensures
        placed_models(placed.0@) == placement(processing_order(group_models(arrows@)), 0),
        placed.1 == level_count(processing_order(group_models(arrows@))),
        placed.0.len() == arrows.len(),
{
    let ghost total = arrows.len();
    let ghost all = processing_order(group_models(arrows@));
    let mut unplaced = in_processing_order(arrows);
    let mut placed: Vec<PlacedArrow<'a>> = Vec::new();
    let mut depth: usize = 0;
    assert(placed_models(placed@) + placement(all, 0) =~= placement(all, 0));
    while unplaced.len() > 0
        invariant
            depth + unplaced.len() <= total,
            placed.len() + unplaced.len() == total,
            total <= usize::MAX,
            placed_models(placed@) + placement(group_models(unplaced@), depth as int)
                == placement(all, 0),
            depth + level_count(group_models(unplaced@)) == level_count(all),
        decreases unplaced.len(),
    {
        let ghost order = group_models(unplaced@);
        let ghost before = placed_models(placed@);
        let mut stack = reversed(unplaced);
        let mut rest: Vec<GroupedArrow<'a>> = Vec::new();
        let mut end: usize = 0;
        let mut full: bool = false;
        let ghost mut limit: int = 0;
        let ghost mut here: Seq<GroupModel> = Seq::empty();
        assert(stack@.len() == order.len());
        assert(group_models(stack@).reverse() =~= order);
        while stack.len() > 0
            invariant
                stack.len() + rest.len() + here.len() == order.len(),
                placed.len() == before.len() + here.len(),
                limit == (if full {
                    usize::MAX + 1
                } else {
                    end as int
                }),
                pass_placed(order, 0) == here + pass_placed(group_models(stack@).reverse(), limit),
                pass_rest(order, 0) == group_models(rest@) + pass_rest(
                    group_models(stack@).reverse(),
                    limit,
                ),
                placed_models(placed@) == before + here.map_values(
                    |g: GroupModel| PlacedModel { arrow: g, level: depth as int },
                ),
            decreases stack.len(),
        {
            let ghost waiting = group_models(stack@).reverse();
            let arrow = stack.pop().unwrap();
            proof {
                assert(waiting[0] == arrow@);
                assert(group_models(stack@).reverse() =~= waiting.drop_first());
            }
            if !full && arrow.left >= end {
                if arrow.left != arrow.right {
                    end = arrow.right;
                } else if arrow.right < usize::MAX {
                    end = arrow.right + 1;
                } else {
                    full = true;
                }
                proof {
                    limit = end_after(arrow@);
                }
                let ghost old_placed = placed_models(placed@);
                placed.push(PlacedArrow { arrow, level: depth });
                proof {
                    assert(placed_models(placed@) =~= old_placed.push(
                        PlacedModel { arrow: arrow@, level: depth as int },
                    ));
                    let tag = |g: GroupModel| PlacedModel { arrow: g, level: depth as int };
                    assert(here.push(arrow@).map_values(tag) =~= here.map_values(tag).push(
                        tag(arrow@),
                    ));
                    assert(here + (seq![arrow@] + pass_placed(waiting.drop_first(), limit))
                        =~= here.push(arrow@) + pass_placed(waiting.drop_first(), limit));
                    here = here.push(arrow@);
                }
            } else {
                let ghost old_rest = group_models(rest@);
                rest.push(arrow);
                proof {
                    assert(group_models(rest@) =~= old_rest.push(arrow@));
                    assert(old_rest + (seq![arrow@] + pass_rest(waiting.drop_first(), limit))
                        =~= old_rest.push(arrow@) + pass_rest(waiting.drop_first(), limit));
                }
            }
        }
        proof {
            assert(group_models(stack@).reverse() =~= Seq::<GroupModel>::empty());
            assert(pass_placed(order, 0) =~= here);
            assert(pass_rest(order, 0) =~= group_models(rest@));
            lemma_pass_lengths(order, 0);
            assert(order[0] == unplaced@[0]@);
            assert(before + (pass_placed(order, 0).map_values(
                |g: GroupModel| PlacedModel { arrow: g, level: depth as int },
            ) + placement(pass_rest(order, 0), depth + 1)) =~= placed_models(placed@) + placement(
                group_models(rest@),
                depth + 1,
            ));
        }
        depth += 1;
        unplaced = rest;
    }
    assert(placed_models(placed@) + placement(group_models(unplaced@), depth as int)
        =~= placed_models(placed@));
    (placed, depth)
}

/// What the diagram shows of a state.
pub struct StateModel {
    pub name: Seq<char>,
    pub accepting: bool,
    pub initial: bool,
}

/// What the diagram shows of a state.
#[derive(Debug, PartialEq, Eq)]
pub struct State<'a> {
    name: &'a str,
    accepting: bool,
    initial: bool,
}

impl<'a> View for State<'a> {
    type V = StateModel;

    closed spec fn view(&self) -> StateModel {
        StateModel { name: self.name@, accepting: self.accepting, initial: self.initial }
    }
}

impl<'a> State<'a> {
    /// What the diagram shows of a state of a deterministic automaton.
    pub fn of_dfa_state(state: &'a DfaState) -> (shown: Self)
        ensures
            shown@ == (StateModel {
                name: state@.name,
                accepting: state@.accepting,
                initial: state@.initial,
            }),
    {
        State {
            name: state.name(),
            accepting: state.is_accepting(),
            initial: state.is_initial(),
        }
    }

    /// What the diagram shows of a state of a nondeterministic automaton.
    pub fn of_nfa_state(state: &'a NfaState) -> (shown: Self)
        ensures
            shown@ == (StateModel {
                name: state@.name,
                accepting: state@.accepting,
                initial: state@.initial,
            }),
    {
        State {
            name: state.name(),
            accepting: state.is_accepting(),
            initial: state.is_initial(),
        }
    }
}

/// The models of a list of shown states.
pub open spec fn state_models(states: Seq<State>) -> Seq<StateModel> {
    states.map_values(|s: State| s@)
}

/// The length of the longest name among the first `upto` states.
pub open spec fn widest_name(states: Seq<StateModel>, upto: int) -> int
    decreases upto,
{
    if upto <= 0 {
        0
    } else {
        let before = widest_name(states, upto - 1);
        if states[upto - 1].name.len() > before {
            states[upto - 1].name.len() as int
        } else {
            before
        }
    }
}

/// The column at which the box of the state at `idx` begins, for names of
/// at most `width` characters.
pub open spec fn left_x(width: int, idx: int) -> int {
    5 + (7 + width) * idx
}

/// The column at which the box of the state at `idx` ends.
pub open spec fn right_x(width: int, idx: int) -> int {
    6 + width + (7 + width) * idx
}

/// The number of columns of the lines that hold arrows, for `count` states.
pub open spec fn art_width(width: int, count: int) -> int {
    right_x(width, count) - 1
}

/// Whether every column of the diagram can be counted by the machine.
pub open spec fn art_fits(width: int, count: int) -> bool {
    art_width(width, count) + 2 <= usize::MAX
}

/// `count` spaces.
pub open spec fn spaces(count: int) -> Seq<char> {
    Seq::new(
        if count > 0 {
            count as nat
        } else {
            0
        },
        |x: int| ' ',
    )
}

/// The line with `c` at column `x`, if the line has that column.
pub open spec fn put(line: Seq<char>, x: int, c: char) -> Seq<char> {
    if 0 <= x < line.len() {
        line.update(x, c)
    } else {
        line
    }
}

/// The line with `c` at the columns from `lo` to `hi`, both included.
pub open spec fn filled(line: Seq<char>, lo: int, hi: int, c: char) -> Seq<char> {
    Seq::new(
        line.len(),
        |x: int|
            if lo <= x <= hi {
                c
            } else {
                line[x]
            },
    )
}

/// The line with `text` written over it from column `at` on, as far as the
/// line reaches.
pub open spec fn overwritten(line: Seq<char>, at: int, text: Seq<char>) -> Seq<char> {
    Seq::new(
        line.len(),
        |x: int|
            if at <= x < at + text.len() {
                text[x - at]
            } else {
                line[x]
            },
    )
}

/// The line with a bar at both ends of the arrow.
pub open spec fn with_feet(line: Seq<char>, arrow: GroupModel, width: int) -> Seq<char> {
    put(put(line, right_x(width, arrow.left), '|'), left_x(width, arrow.right), '|')
}

/// The line with bars below the ends of those of the first `upto` arrows
/// that are drawn above `level`.
pub open spec fn with_bars(
    line: Seq<char>,
    placed: Seq<PlacedModel>,
    level: int,
    width: int,
    upto: int,
) -> Seq<char>
    decreases upto,
{
    if upto <= 0 {
        line
    } else {
        let before = with_bars(line, placed, level, width, upto - 1);
        if placed[upto - 1].level > level {
            with_feet(before, placed[upto - 1].arrow, width)
        } else {
            before
        }
    }
}

/// The line with the shaft and the head of the arrow: dashes from one of
/// its states to the other, or across the box of its one state, and a
/// pointer at the end to which it leads.
pub open spec fn with_shaft(line: Seq<char>, arrow: GroupModel, width: int) -> Seq<char> {
    match arrow.direction {
        Direction::Spot => put(
            filled(line, left_x(width, arrow.left), right_x(width, arrow.right), '-'),
            left_x(width, arrow.left) + 1,
            '>',
        ),
        Direction::Left => put(
            filled(line, right_x(width, arrow.left), left_x(width, arrow.right), '-'),
            left_x(width, arrow.right) - 1,
            '<',
        ),
        Direction::Right => put(
            filled(line, right_x(width, arrow.left), left_x(width, arrow.right), '-'),
            right_x(width, arrow.left) + 2,
            '>',
        ),
    }
}

/// The line with the shafts of those of the first `upto` arrows that are
/// drawn on `level`.
pub open spec fn with_shafts(
    line: Seq<char>,
    placed: Seq<PlacedModel>,
    level: int,
    width: int,
    upto: int,
) -> Seq<char>
    decreases upto,
{
    if upto <= 0 {
        line
    } else {
        let before = with_shafts(line, placed, level, width, upto - 1);
        if placed[upto - 1].level == level {
            with_shaft(before, placed[upto - 1].arrow, width)
        } else {
            before
        }
    }
}

/// The line with bars at the ends of those of the first `upto` arrows that
/// are drawn on `level`.
pub open spec fn with_level_feet(
    line: Seq<char>,
    placed: Seq<PlacedModel>,
    level: int,
    width: int,
    upto: int,
) -> Seq<char>
    decreases upto,
{
    if upto <= 0 {
        line
    } else {
        let before = with_level_feet(line, placed, level, width, upto - 1);
        if placed[upto - 1].level == level {
            with_feet(before, placed[upto - 1].arrow, width)
        } else {
            before
        }
    }
}

/// The line with the labels of those of the first `upto` arrows that are
/// drawn on `level` and join two different states, each written to the
/// right of the arrow's left end.
pub open spec fn with_labels(
    line: Seq<char>,
    placed: Seq<PlacedModel>,
    level: int,
    width: int,
    upto: int,
) -> Seq<char>
    decreases upto,
{
    if upto <= 0 {
        line
    } else {
        let before = with_labels(line, placed, level, width, upto - 1);
        let arrow = placed[upto - 1].arrow;
        if placed[upto - 1].level == level && arrow.left != arrow.right {
            overwritten(before, right_x(width, arrow.left) + 1, arrow.label())
        } else {
            before
        }
    }
}

/// The upper line of a level: the bars of the arrows above, then the shafts
/// of the arrows of the level.
pub open spec fn top_line(placed: Seq<PlacedModel>, level: int, width: int, count: int) -> Seq<
    char,
> {
    let all = placed.len() as int;
    with_shafts(
        with_bars(spaces(art_width(width, count)), placed, level, width, all),
        placed,
        level,
        width,
        all,
    )
}

/// The lower line of a level: the bars of the arrows above and of the
/// arrows of the level, then the labels of the level.
pub open spec fn bottom_line(placed: Seq<PlacedModel>, level: int, width: int, count: int) -> Seq<
    char,
> {
    let all = placed.len() as int;
    with_labels(
        with_level_feet(
            with_bars(spaces(art_width(width, count)), placed, level, width, all),
            placed,
            level,
            width,
            all,
        ),
        placed,
        level,
        width,
        all,
    )
}

/// The lines of the levels below `levels`, the highest first, each line
/// closed by a line feed.
pub open spec fn arrow_lines(placed: Seq<PlacedModel>, levels: int, width: int, count: int) -> Seq<
    char,
>
    decreases levels,
{
    if levels <= 0 {
        Seq::empty()
    } else {
        top_line(placed, levels - 1, width, count) + seq!['\n'] + bottom_line(
            placed,
            levels - 1,
            width,
            count,
        ) + seq!['\n'] + arrow_lines(placed, levels - 1, width, count)
    }
}

/// The name, followed by spaces up to `width` characters.
pub open spec fn padded(name: Seq<char>, width: int) -> Seq<char> {
    name + spaces(width - name.len())
}

/// The box of a state: double brackets round an accepting state, single
/// ones round another.
pub open spec fn state_box(state: StateModel, width: int) -> Seq<char> {
    if state.accepting {
        seq!['(', '(', ' '] + padded(state.name, width) + seq![' ', ')', ')', ' ']
    } else {
        seq!['(', ' ', ' '] + padded(state.name, width) + seq![' ', ' ', ')', ' ']
    }
}

/// The boxes of the first `upto` states.
pub open spec fn state_boxes(states: Seq<StateModel>, width: int, upto: int) -> Seq<char>
    decreases upto,
{
    if upto <= 0 {
        Seq::empty()
    } else {
        state_boxes(states, width, upto - 1) + state_box(states[upto - 1], width)
    }
}

/// The diagram of the given states and arrows: two lines for each level of
/// arrows, the highest level first, and below them the row of states,
/// which the entry arrow precedes.
pub open spec fn ascii_art_of(states: Seq<StateModel>, arrows: Seq<ArrowModel>) -> Seq<char> {
    let order = processing_order(grouped(arrows));
    let width = widest_name(states, states.len() as int);
    arrow_lines(placement(order, 0), level_count(order), width, states.len() as int) + seq![
        '-',
        '>',
        ' ',
    ] + state_boxes(states, width, states.len() as int)
}

/// Whether `x` holds the column `at`: the column itself, or nothing where
/// the column lies beyond every line that the machine can hold.
pub open spec fn holds_column(x: Option<usize>, at: int) -> bool {
    match x {
        Some(v) => at == v,
        None => at >= usize::MAX,
    }
}

/// The column at which the box of the state at `idx` begins.
fn left_column(width: usize, idx: usize) -> (x: Option<usize>)
    requires
        7 + width <= usize::MAX,
    ensures
        holds_column(x, left_x(width as int, idx as int)),
        x is None ==> left_x(width as int, idx as int) > usize::MAX,
{
    let cell: usize = 7 + width;
    assert(cell * idx == (7 + width) * idx) by (nonlinear_arith)
        requires
            cell == 7 + width,
    ;
    match cell.checked_mul(idx) {
        Some(product) => product.checked_add(5),
        None => None,
    }
}

/// The column at which the box of the state at `idx` ends.
fn right_column(width: usize, idx: usize) -> (x: Option<usize>)
    requires
        7 + width <= usize::MAX,
    ensures
        holds_column(x, right_x(width as int, idx as int)),
{
    let cell: usize = 7 + width;
    assert(cell * idx == (7 + width) * idx) by (nonlinear_arith)
        requires
            cell == 7 + width,
    ;
    match cell.checked_mul(idx) {
        Some(product) => product.checked_add(6 + width),
        None => None,
    }
}

/// The column `offset` to the right of `x`.
fn shifted(x: Option<usize>, offset: usize, Ghost(at): Ghost<int>) -> (y: Option<usize>)
    requires
        holds_column(x, at),
    ensures
        holds_column(y, at + offset),
{
    match x {
        Some(v) => v.checked_add(offset),
        None => None,
    }
}

/// Writes `c` at column `at`, if the line has that column.
fn put_at(line: &mut Vec<char>, x: Option<usize>, Ghost(at): Ghost<int>, c: char)
    requires
        holds_column(x, at),
    ensures
        final(line)@ == put(old(line)@, at, c),
{
    let columns: usize = line.len();
    if let Some(v) = x {
        if v < line.len() {
            line.set(v, c);
        }
    }
}

/// Writes `c` at the columns from `a` to `b`, both included, as far as the
/// line reaches.
fn fill(
    line: &mut Vec<char>,
    lo: Option<usize>,
    hi: Option<usize>,
    Ghost(a): Ghost<int>,
    Ghost(b): Ghost<int>,
    c: char,
)
    requires
        holds_column(lo, a),
        holds_column(hi, b),
    ensures
        final(line)@ == filled(old(line)@, a, b, c),
{
    let ghost before = line@;
    let columns: usize = line.len();
    if let Some(from) = lo {
        let last: usize = match hi {
            Some(to) => to,
            None => usize::MAX,
        };
        let mut x: usize = from;
        while x < line.len() && x <= last
            invariant
                from <= x,
                x == from || x <= last + 1,
                line@.len() == before.len(),
                forall|y: int|
                    0 <= y < line@.len() ==> #[trigger] line@[y] == (if from <= y < x {
                        c
                    } else {
                        before[y]
                    }),
            decreases line.len() - x,
        {
            line.set(x, c);
            x += 1;
        }
    }
    assert(line@ =~= filled(before, a, b, c));
}

/// Writes `text` over the line from column `at` on, as far as the line
/// reaches.
fn overwrite(line: &mut Vec<char>, x: Option<usize>, Ghost(at): Ghost<int>, text: &Vec<char>)
    requires
        holds_column(x, at),
    ensures
        final(line)@ == overwritten(old(line)@, at, text@),
{
    let ghost before = line@;
    let columns: usize = line.len();
    if let Some(from) = x {
        let mut k: usize = 0;
        while k < text.len() && from < line.len() && k < line.len() - from
            invariant
                k <= text.len(),
                line@.len() == before.len(),
                forall|y: int|
                    0 <= y < line@.len() ==> #[trigger] line@[y] == (if from <= y < from + k {
                        text@[y - from]
                    } else {
                        before[y]
                    }),
            decreases text.len() - k,
        {
            line.set(from + k, text[k]);
            k += 1;
        }
    }
    assert(line@ =~= overwritten(before, at, text@));
}

/// A line of `count` spaces.
fn blank_line(count: usize) -> (line: Vec<char>)
    ensures
        line@ == spaces(count as int),
{
    let mut line: Vec<char> = Vec::new();
    let mut x: usize = 0;
    while x < count
        invariant
            x <= count,
            line@ == spaces(x as int),
        decreases count - x,
    {
        line.push(' ');
        assert(line@ =~= spaces(x + 1));
        x += 1;
    }
    line
}

/// Writes a bar at both ends of the arrow.
fn draw_feet(line: &mut Vec<char>, arrow: &GroupedArrow, width: usize)
    requires
        7 + width <= usize::MAX,
    ensures
        final(line)@ == with_feet(old(line)@, arrow@, width as int),
{
    let ghost w = width as int;
    put_at(line, right_column(width, arrow.left), Ghost(right_x(w, arrow@.left)), '|');
    put_at(line, left_column(width, arrow.right), Ghost(left_x(w, arrow@.right)), '|');
}

/// Writes the shaft and the head of the arrow.
fn draw_shaft(line: &mut Vec<char>, arrow: &GroupedArrow, width: usize)
    requires
        7 + width <= usize::MAX,
    ensures
        final(line)@ == with_shaft(old(line)@, arrow@, width as int),
{
    let ghost w = width as int;
    let ghost ll = left_x(w, arrow@.left);
    let ghost rl = right_x(w, arrow@.left);
    let ghost lr = left_x(w, arrow@.right);
    let ghost rr = right_x(w, arrow@.right);
    let left_of_left = left_column(width, arrow.left);
    let right_of_left = right_column(width, arrow.left);
    let left_of_right = left_column(width, arrow.right);
    let right_of_right = right_column(width, arrow.right);
    match arrow.direction {
        Direction::Spot => {
            fill(line, left_of_left, right_of_right, Ghost(ll), Ghost(rr), '-');
            put_at(line, shifted(left_of_left, 1, Ghost(ll)), Ghost(ll + 1), '>');
        },
        Direction::Left => {
            fill(line, right_of_left, left_of_right, Ghost(rl), Ghost(lr), '-');
            let head: Option<usize> = match left_of_right {
                Some(x) => {
                    assert((7 + w) * arrow@.right >= 0) by (nonlinear_arith)
                        requires
                            w >= 0,
                            arrow@.right >= 0,
                    ;
                    Some(x - 1)
                },
                None => None,
            };
            put_at(line, head, Ghost(lr - 1), '<');
        },
        Direction::Right => {
            fill(line, right_of_left, left_of_right, Ghost(rl), Ghost(lr), '-');
            put_at(line, shifted(right_of_left, 2, Ghost(rl)), Ghost(rl + 2), '>');
        },
    }
}

/// Writes the label of the arrow to the right of its left end, unless the
/// arrow stays at one state.
fn draw_label(line: &mut Vec<char>, arrow: &GroupedArrow, width: usize)
    requires
        7 + width <= usize::MAX,
    ensures
        final(line)@ == (if arrow@.left != arrow@.right {
            overwritten(old(line)@, right_x(width as int, arrow@.left) + 1, arrow@.label())
        } else {
            old(line)@
        }),
{
    if arrow.left != arrow.right {
        let ghost rl = right_x(width as int, arrow@.left);
        let label = arrow.label();
        let text = chars_of(label.as_str());
        let at = shifted(right_column(width, arrow.left), 1, Ghost(rl));
        overwrite(line, at, Ghost(rl + 1), &text);
    }
}

/// The two lines of a level.
fn draw_level(placed: &Vec<PlacedArrow>, level: usize, width: usize, count: usize) -> (lines: (
    Vec<char>,
    Vec<char>,
))
    requires
        art_fits(width as int, count as int),
    ensures
        lines.0@ == top_line(placed_models(placed@), level as int, width as int, count as int),
        lines.1@ == bottom_line(placed_models(placed@), level as int, width as int, count as int),
{
    let ghost models = placed_models(placed@);
    let cell: usize = 7 + width;
    assert((7 + width) * count >= 0 && cell * count == (7 + width) * count) by (nonlinear_arith)
        requires
            width >= 0,
            count >= 0,
            cell == 7 + width,
    ;
    let columns: usize = 5 + width + cell * count;
    let mut top = blank_line(columns);
    let mut bottom = blank_line(columns);
    let mut i: usize = 0;
    while i < placed.len()
        invariant
            i <= placed.len(),
            7 + width <= usize::MAX,
            models == placed_models(placed@),
            top@ == with_bars(spaces(columns as int), models, level as int, width as int, i as int),
            bottom@ == top@,
        decreases placed.len() - i,
    {
        assert(models[i as int] == placed[i as int]@);
        if placed[i].level > level {
            draw_feet(&mut top, &placed[i].arrow, width);
            draw_feet(&mut bottom, &placed[i].arrow, width);
        }
        i += 1;
    }
    let ghost barred = top@;
    i = 0;
    while i < placed.len()
        invariant
            i <= placed.len(),
            7 + width <= usize::MAX,
            models == placed_models(placed@),
            top@ == with_shafts(barred, models, level as int, width as int, i as int),
            bottom@ == with_level_feet(barred, models, level as int, width as int, i as int),
        decreases placed.len() - i,
    {
        assert(models[i as int] == placed[i as int]@);
        if placed[i].level == level {
            draw_shaft(&mut top, &placed[i].arrow, width);
            draw_feet(&mut bottom, &placed[i].arrow, width);
        }
        i += 1;
    }
    let ghost footed = bottom@;
    i = 0;
    while i < placed.len()
        invariant
            i <= placed.len(),
            7 + width <= usize::MAX,
            models == placed_models(placed@),
            bottom@ == with_labels(footed, models, level as int, width as int, i as int),
        decreases placed.len() - i,
    {
        assert(models[i as int] == placed[i as int]@);
        if placed[i].level == level {
            draw_label(&mut bottom, &placed[i].arrow, width);
        }
        i += 1;
    }
    (top, bottom)
}

/// The length of the longest name.
fn widest(states: &Vec<State>) -> (width: usize)
    ensures
        width == widest_name(state_models(states@), states.len() as int),
{
    let mut width: usize = 0;
    let mut i: usize = 0;
    while i < states.len()
        invariant
            i <= states.len(),
            width == widest_name(state_models(states@), i as int),
        decreases states.len() - i,
    {
        assert(state_models(states@)[i as int] == states[i as int]@);
        let length = states[i].name.unicode_len();
        if length > width {
            width = length;
        }
        i += 1;
    }
    width
}

/// Appends the box of a state.
fn push_state_box(art: &mut String, state: &State, width: usize)
    ensures
        final(art)@ == old(art)@ + state_box(state@, width as int),
{
    let ghost before = art@;
    proof {
        reveal_strlit("(( ");
        reveal_strlit(" )) ");
        reveal_strlit("(  ");
        reveal_strlit("  ) ");
    }
    if state.accepting {
        art.append("(( ");
    } else {
        art.append("(  ");
    }
    art.append(state.name);
    let length = state.name.unicode_len();
    if length < width {
        let pad = blank_line(width - length);
        push_chars(art, &pad);
    }
    if state.accepting {
        art.append(" )) ");
        assert(art@ =~= before + state_box(state@, width as int));
    } else {
        art.append("  ) ");
        assert(art@ =~= before + state_box(state@, width as int));
    }
}

/// The diagram of the given states and arrows.
fn ascii_art<'a>(states: Vec<State<'a>>, arrows: Vec<Arrow<'a>>) -> (art: String)
    requires
        art_fits(
            widest_name(state_models(states@), states.len() as int),
            states.len() as int,
        ),
    ensures
        art@ == ascii_art_of(state_models(states@), arrow_models(arrows@)),
{
    let width = widest(&states);
    let count = states.len();
    let groups = group_arrows(arrows);
    let (placed, levels) = place_arrows(groups);
    let ghost models = placed_models(placed@);
    let mut art: String = String::new();
    let mut level: usize = levels;
    assert(art@ + arrow_lines(models, level as int, width as int, count as int) =~= arrow_lines(
        models,
        levels as int,
        width as int,
        count as int,
    ));
    while level > 0
        invariant
            art_fits(width as int, count as int),
            models == placed_models(placed@),
            art@ + arrow_lines(models, level as int, width as int, count as int) == arrow_lines(
                models,
                levels as int,
                width as int,
                count as int,
            ),
        decreases level,
    {
        let ghost before = art@;
        level -= 1;
        let (top, bottom) = draw_level(&placed, level, width, count);
        push_chars(&mut art, &top);
        art.push('\n');
        push_chars(&mut art, &bottom);
        art.push('\n');
        assert(art@ =~= before + (top@ + seq!['\n'] + bottom@ + seq!['\n']));
        assert(before + arrow_lines(models, level + 1, width as int, count as int) =~= art@
            + arrow_lines(models, level as int, width as int, count as int));
    }
    assert(art@ =~= arrow_lines(models, levels as int, width as int, count as int));
    proof {
        reveal_strlit("-> ");
    }
    art.append("-> ");
    let ghost head = art@;
    let mut i: usize = 0;
    assert(art@ =~= head + state_boxes(state_models(states@), width as int, 0));
    while i < states.len()
        invariant
            i <= states.len(),
            art@ == head + state_boxes(state_models(states@), width as int, i as int),
        decreases states.len() - i,
    {
        assert(state_models(states@)[i as int] == states[i as int]@);
        push_state_box(&mut art, &states[i], width);
        assert(art@ =~= head + state_boxes(state_models(states@), width as int, i + 1));
        i += 1;
    }
    assert(art@ =~= ascii_art_of(state_models(states@), arrow_models(arrows@)));
    art
}

/// What the diagram shows of the states of a deterministic automaton.
pub open spec fn dfa_state_models(m: DfaModel) -> Seq<StateModel> {
    m.states.map_values(
        |s: crate::dfa::DfaStateModel|
            StateModel { name: s.name, accepting: s.accepting, initial: s.initial },
    )
}

/// What the diagram shows of the states of a nondeterministic automaton.
pub open spec fn nfa_state_models(m: NfaModel) -> Seq<StateModel> {
    m.states.map_values(
        |s: crate::nfa::NfaStateModel|
            StateModel { name: s.name, accepting: s.accepting, initial: s.initial },
    )
}

/// Whether the machine can count the columns of the diagram of the
/// automaton.
pub open spec fn dfa_art_fits(m: DfaModel) -> bool {
    art_fits(
        widest_name(dfa_state_models(m), m.states.len() as int),
        m.states.len() as int,
    )
}

/// Whether the machine can count the columns of the diagram of the
/// automaton.
pub open spec fn nfa_art_fits(m: NfaModel) -> bool {
    art_fits(
        widest_name(nfa_state_models(m), m.states.len() as int),
        m.states.len() as int,
    )
}

/// Whether the machine can count the columns of a diagram of `count` states
/// with names of at most `width` characters.
fn fits(width: usize, count: usize) -> (fitting: bool)
    ensures
        fitting == art_fits(width as int, count as int),
{
    assert(7 + width + (7 + width) * count == (7 + width) * (count + 1) && (7 + width) * (count
        + 1) >= 7 + width && (7 + width) * (count + 1) >= 7 * (count + 1)) by (nonlinear_arith)
        requires
            width >= 0,
            count >= 0,
    ;
    match (7usize.checked_add(width), count.checked_add(1)) {
        (Some(cell), Some(boxes)) => cell.checked_mul(boxes).is_some(),
        _ => false,
    }
}

/// Whether `dfa_ascii_art` can draw the automaton.
pub fn can_draw_dfa(dfa: &Dfa) -> (fitting: bool)
    ensures
        fitting == dfa_art_fits(dfa@),
{
    let dfa_states = dfa.states();
    let mut width: usize = 0;
    let mut i: usize = 0;
    while i < dfa_states.len()
        invariant
            i <= dfa_states.len(),
            dfa_states@.map_values(|s: DfaState| s@) == dfa@.states,
            width == widest_name(dfa_state_models(dfa@), i as int),
        decreases dfa_states.len() - i,
    {
        assert(dfa@.states[i as int] == dfa_states[i as int]@);
        let length = dfa_states[i].name().unicode_len();
        if length > width {
            width = length;
        }
        i += 1;
    }
    fits(width, dfa_states.len())
}

/// Whether `nfa_ascii_art` can draw the automaton.
pub fn can_draw_nfa(nfa: &Nfa) -> (fitting: bool)
    ensures
        fitting == nfa_art_fits(nfa@),
{
    let nfa_states = nfa.states();
    let mut width: usize = 0;
    let mut i: usize = 0;
    while i < nfa_states.len()
        invariant
            i <= nfa_states.len(),
            nfa_states@.map_values(|s: NfaState| s@) == nfa@.states,
            width == widest_name(nfa_state_models(nfa@), i as int),
        decreases nfa_states.len() - i,
    {
        assert(nfa@.states[i as int] == nfa_states[i as int]@);
        let length = nfa_states[i].name().unicode_len();
        if length > width {
            width = length;
        }
        i += 1;
    }
    fits(width, nfa_states.len())
}

/// The diagram of a deterministic automaton.
pub fn dfa_ascii_art(dfa: &Dfa) -> (art: String)
    requires
        dfa_art_fits(dfa@),
    ensures
        art@ == ascii_art_of(
            dfa_state_models(dfa@),
            dfa_arrows(dfa@, dfa@.states.len() as int),
        ),
{
    let dfa_states = dfa.states();
    let mut states: Vec<State> = Vec::new();
    let mut i: usize = 0;
    while i < dfa_states.len()
        invariant
            i <= dfa_states.len(),
            dfa_states@.map_values(|s: DfaState| s@) == dfa@.states,
            states.len() == i,
            forall|j: int|
                0 <= j < i ==> (#[trigger] states[j])@ == dfa_state_models(dfa@)[j],
        decreases dfa_states.len() - i,
    {
        assert(dfa@.states[i as int] == dfa_states[i as int]@);
        states.push(State::of_dfa_state(&dfa_states[i]));
        i += 1;
    }
    assert(state_models(states@) =~= dfa_state_models(dfa@));
    let arrows = dfa_to_arrows(dfa);
    ascii_art(states, arrows)
}

/// The diagram of a nondeterministic automaton.
pub fn nfa_ascii_art(nfa: &Nfa) -> (art: String)
    requires
        nfa_art_fits(nfa@),
    ensures
        art@ == ascii_art_of(
            nfa_state_models(nfa@),
            nfa_arrows(nfa@, nfa@.states.len() as int),
        ),
{
    let nfa_states = nfa.states();
    let mut states: Vec<State> = Vec::new();
    let mut i: usize = 0;
    while i < nfa_states.len()
        invariant
            i <= nfa_states.len(),
            nfa_states@.map_values(|s: NfaState| s@) == nfa@.states,
            states.len() == i,
            forall|j: int|
                0 <= j < i ==> (#[trigger] states[j])@ == nfa_state_models(nfa@)[j],
        decreases nfa_states.len() - i,
    {
        assert(nfa@.states[i as int] == nfa_states[i as int]@);
        states.push(State::of_nfa_state(&nfa_states[i]));
        i += 1;
    }
    assert(state_models(states@) =~= nfa_state_models(nfa@));
    let arrows = nfa_to_arrows(nfa);
    ascii_art(states, arrows)
}

} // verus!
