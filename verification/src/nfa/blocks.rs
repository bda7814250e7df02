//! Automata that hold other automata as blocks of their states: how sets
//! of states of a block behave within the whole.

use vstd::prelude::*;
use crate::graph::{edge, is_path, reaches, reached_from};
use crate::nfa::NfaModel;
use crate::nfa::words::{run_indices, is_index_word};

verus! {

/// The states of `set`, each moved by `by` places.
pub open spec fn lifted(set: Set<int>, by: int) -> Set<int> {
    Set::new(|q: int| set.contains(q - by))
}

/// Whether every state of the set is a state of the automaton.
pub open spec fn inside(m: NfaModel, set: Set<int>) -> bool {
    forall|q: int| set.contains(q) ==> 0 <= q < m.states.len()
}

/// Whether `set` holds the states of `seeds` and, with each state, the
/// states to which edges of the graph lead from it.
pub open spec fn holds_closed(graph: Seq<Seq<int>>, seeds: Set<int>, set: Set<int>) -> bool {
    &&& forall|p: int| seeds.contains(p) ==> set.contains(p)
    &&& forall|p: int, q: int| set.contains(p) && #[trigger] edge(graph, p, q) ==> set.contains(q)
}

/// A set that holds its successors holds the ends of the paths that begin
/// in it.
pub proof fn lemma_closed_path(graph: Seq<Seq<int>>, set: Set<int>, path: Seq<int>)
    requires
        forall|p: int, q: int| set.contains(p) && #[trigger] edge(graph, p, q) ==> set.contains(q),
        is_path(graph, path),
        set.contains(path[0]),
    ensures
        set.contains(path.last()),
    decreases path.len(),
{
    if path.len() > 1 {
        lemma_closed_path(graph, set, path.drop_last());
        assert(edge(graph, path[path.len() - 2], path.last()));
    }
}

/// A set that holds the seeds and its successors holds all that is reached
/// from the seeds.
pub proof fn lemma_closed_set(graph: Seq<Seq<int>>, seeds: Set<int>, set: Set<int>)
    requires
        holds_closed(graph, seeds, set),
    ensures
        forall|q: int| reached_from(graph, seeds).contains(q) ==> set.contains(q),
{
    assert forall|q: int| reached_from(graph, seeds).contains(q) implies set.contains(q) by {
        let p = choose|p: int| seeds.contains(p) && reaches(graph, p, q);
        let path = choose|path: Seq<int>| is_path(graph, path) && path[0] == p && path.last() == q;
        lemma_closed_path(graph, set, path);
    }
}

/// Reading a word and then one symbol more.
pub proof fn lemma_run_indices_more(m: NfaModel, set: Set<int>, word: Seq<int>, x: int)
    ensures
        run_indices(m, set, word.push(x)) == m.closure(m.moved(run_indices(m, set, word), x)),
    decreases word.len(),
{
    let longer = word.push(x);
    if word.len() == 0 {
        assert(longer[0] == x);
        assert(longer.drop_first() =~= word);
        let next = m.closure(m.moved(set, x));
        assert(run_indices(m, next, word) == next);
    } else {
        assert(longer[0] == word[0]);
        assert(longer.drop_first() =~= word.drop_first().push(x));
        lemma_run_indices_more(m, m.closure(m.moved(set, word[0])), word.drop_first(), x);
    }
}

/// Whether the automaton accepts the word that is given by positions.
pub open spec fn accepts_at(m: NfaModel, word: Seq<int>) -> bool {
    m.accepting_set(run_indices(m, m.start(), word))
}

/// The sets of a run hold states of the automaton.
pub proof fn lemma_run_inside(m: NfaModel, word: Seq<int>)
    requires
        m.wf(),
        is_index_word(m, word),
    ensures
        inside(m, run_indices(m, m.start(), word)),
    decreases word.len(),
{
    if word.len() == 0 {
        assert forall|q: int| m.start().contains(q) implies 0 <= q < m.states.len() by {
            let p = choose|p: int| set![m.initial].contains(p) && reaches(m.epsilon_graph(), p, q);
            crate::nfa::epsilon::lemma_reach_within(m, p, q);
        }
    } else {
        let shorter = word.drop_last();
        let x = word.last();
        assert(word =~= shorter.push(x));
        lemma_run_indices_more(m, m.start(), shorter, x);
        crate::nfa::epsilon::lemma_moved_within(m, run_indices(m, m.start(), shorter), x);
    }
}

} // verus!
