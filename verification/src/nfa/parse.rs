//! From the table of a nondeterministic automaton to the automaton: the
//! second pass, which checks what the table describes.

use vstd::prelude::*;
use crate::alphabet::{tokens_of, word_of};
use crate::error::{Error, ErrorModel};
use crate::lists::{first_repeated, find_repeated, find_position, lemma_no_repeat};
use crate::dfa::parse::{first_missing, lemma_none_missing};
use crate::nfa::{Nfa, NfaModel, NfaState, NfaStateModel, nfa_model, targets_of, target_lists_of};
use crate::parser::tables::{
    NfaAlphabetEntry,
    NfaSymbolModel,
    ParsedNfa,
    ParsedNfaModel,
    ParsedNfaStateModel,
    parsed_nfa,
};

verus! {

/// The word for an entry of the alphabet.
pub open spec fn entry_word(entry: NfaSymbolModel) -> Seq<char> {
    match entry {
        NfaSymbolModel::Element(w) => w,
        NfaSymbolModel::Eps => "\u{3b5}"@,
    }
}

/// The words of the alphabet, the move that reads nothing among them.
pub open spec fn head_words(p: ParsedNfaModel) -> Seq<Seq<char>> {
    p.head.map_values(|e: NfaSymbolModel| entry_word(e))
}

/// The first column from `from` on that belongs to the move that reads
/// nothing.
pub open spec fn eps_column(p: ParsedNfaModel, from: int) -> Option<int>
    decreases p.head.len() - from,
{
    if from < 0 || from >= p.head.len() {
        None
    } else if p.head[from] is Eps {
        Some(from)
    } else {
        eps_column(p, from + 1)
    }
}

/// The names of the states, in the order of the rows.
pub open spec fn nfa_state_names(p: ParsedNfaModel) -> Seq<Seq<char>> {
    p.states.map_values(|s: ParsedNfaStateModel| s.name)
}

/// The first row from `from` on that is marked as initial.
pub open spec fn first_initial_row(p: ParsedNfaModel, from: int) -> Option<int>
    decreases p.states.len() - from,
{
    if from < 0 || from >= p.states.len() {
        None
    } else if p.states[from].initial {
        Some(from)
    } else {
        first_initial_row(p, from + 1)
    }
}

/// The first target, set by set from set `from` on, that is not among
/// `names`.
pub open spec fn first_missing_in(
    names: Seq<Seq<char>>,
    cells: Seq<Seq<Seq<char>>>,
    from: int,
) -> Option<Seq<char>>
    decreases cells.len() - from,
{
    if from < 0 || from >= cells.len() {
        None
    } else {
        match first_missing(names, cells[from], 0) {
            Some(name) => Some(name),
            None => first_missing_in(names, cells, from + 1),
        }
    }
}

/// The first target, row by row from row `from` on, that names no state.
pub open spec fn first_unknown_target(p: ParsedNfaModel, from: int) -> Option<Seq<char>>
    decreases p.states.len() - from,
{
    if from < 0 || from >= p.states.len() {
        None
    } else {
        match first_missing_in(nfa_state_names(p), p.states[from].transitions, 0) {
            Some(name) => Some(name),
            None => first_unknown_target(p, from + 1),
        }
    }
}

/// The first row from `from` on that has not one set for each entry of the
/// alphabet.
pub open spec fn first_bad_row_width(p: ParsedNfaModel, from: int) -> Option<int>
    decreases p.states.len() - from,
{
    if from < 0 || from >= p.states.len() {
        None
    } else if p.states[from].transitions.len() != p.head.len() {
        Some(from)
    } else {
        first_bad_row_width(p, from + 1)
    }
}

/// The first fault of a table, if it has one. The checks are made in this
/// order: the alphabet holds no entry twice; no two states bear the same
/// name; exactly one state is initial; every target is a state; every row
/// has one set for each entry of the alphabet.
pub open spec fn nfa_fault(p: ParsedNfaModel) -> Option<ErrorModel> {
    if let Some(symbol) = first_repeated(head_words(p), 0) {
        Some(ErrorModel::DuplicateAlphabetSymbol(symbol))
    } else if let Some(name) = first_repeated(nfa_state_names(p), 0) {
        Some(ErrorModel::DuplicateStateName(name))
    } else if first_initial_row(p, 0) is None {
        Some(ErrorModel::NoInitialState)
    } else if first_initial_row(p, first_initial_row(p, 0).unwrap() + 1) is Some {
        Some(ErrorModel::MultipleInitialStates)
    } else if let Some(name) = first_unknown_target(p, 0) {
        Some(ErrorModel::UnknownStateReference(name))
    } else if let Some(row) = first_bad_row_width(p, 0) {
        Some(
            ErrorModel::RowWidthMismatch(
                p.states[row].name,
                p.states[row].transitions.len() as int,
                p.head.len() as int,
            ),
        )
    } else {
        None
    }
}

/// The list without the item at `k`; the list where `k` is no place of it.
pub open spec fn without<A>(list: Seq<A>, k: Option<int>) -> Seq<A> {
    match k {
        Some(k) => if 0 <= k < list.len() {
            list.take(k) + list.skip(k + 1)
        } else {
            list
        },
        None => list,
    }
}

/// The rows that bear the names of a set of targets.
pub open spec fn named_targets(names: Seq<Seq<char>>, cell: Seq<Seq<char>>) -> Seq<int> {
    cell.map_values(|c: Seq<char>| names.index_of(c))
}

/// The automaton that a table without fault describes: the states stand in
/// the order of the rows, each target is the row that bears its name, and
/// the column of the move that reads nothing gives the moves that read
/// nothing.
pub open spec fn nfa_from(p: ParsedNfaModel) -> NfaModel {
    let eps = eps_column(p, 0);
    let names = nfa_state_names(p);
    NfaModel {
        alphabet: without(head_words(p), eps),
        states: p.states.map_values(
            |s: ParsedNfaStateModel|
                NfaStateModel {
                    name: s.name,
                    initial: s.initial,
                    accepting: s.accepting,
                    epsilon_transitions: match eps {
                        Some(k) => named_targets(names, s.transitions[k]),
                        None => Seq::empty(),
                    },
                    transitions: without(s.transitions, eps).map_values(
                        |cell: Seq<Seq<char>>| named_targets(names, cell),
                    ),
                },
        ),
        initial: first_initial_row(p, 0).unwrap(),
    }
}

/// The automaton that a text describes, or the first error of the text.
pub open spec fn nfa_of_text(text: Seq<char>) -> Result<NfaModel, ErrorModel> {
    match parsed_nfa(text) {
        Err(e) => Err(e),
        Ok(p) => match nfa_fault(p) {
            Some(e) => Err(e),
            None => Ok(nfa_from(p)),
        },
    }
}

/// No row from `from` on is initial where none is found.
pub proof fn lemma_no_initial_row(p: ParsedNfaModel, from: int)
    requires
        0 <= from <= p.states.len(),
        first_initial_row(p, from) is None,
    ensures
        forall|q: int| from <= q < p.states.len() ==> !(#[trigger] p.states[q]).initial,
    decreases p.states.len() - from,
{
    if from < p.states.len() {
        lemma_no_initial_row(p, from + 1);
    }
}

/// The first initial row is initial, and no row before it is.
pub proof fn lemma_first_initial_row(p: ParsedNfaModel, from: int)
    requires
        0 <= from <= p.states.len(),
        first_initial_row(p, from) is Some,
    ensures
        from <= first_initial_row(p, from).unwrap() < p.states.len(),
        p.states[first_initial_row(p, from).unwrap()].initial,
        forall|q: int|
            from <= q < first_initial_row(p, from).unwrap() ==> !(#[trigger] p.states[q]).initial,
    decreases p.states.len() - from,
{
    if from < p.states.len() && !p.states[from].initial {
        lemma_first_initial_row(p, from + 1);
    }
}

/// The column of the move that reads nothing is such a column, and the
/// first.
pub proof fn lemma_eps_column(p: ParsedNfaModel, from: int)
    requires
        0 <= from <= p.head.len(),
    ensures
        match eps_column(p, from) {
            Some(k) => from <= k < p.head.len() && p.head[k] is Eps,
            None => forall|x: int| from <= x < p.head.len() ==> !((#[trigger] p.head[x]) is Eps),
        },
    decreases p.head.len() - from,
{
    if from < p.head.len() && !(p.head[from] is Eps) {
        lemma_eps_column(p, from + 1);
    }
}

/// Where no target is missing, every target of every set names a state.
pub proof fn lemma_none_missing_in(names: Seq<Seq<char>>, cells: Seq<Seq<Seq<char>>>, from: int)
    requires
        0 <= from <= cells.len(),
        first_missing_in(names, cells, from) is None,
    ensures
        forall|x: int, k: int|
            from <= x < cells.len() && 0 <= k < cells[x].len() ==> names.contains(
                #[trigger] cells[x][k],
            ),
    decreases cells.len() - from,
{
    if from < cells.len() {
        lemma_none_missing_in(names, cells, from + 1);
        lemma_none_missing(names, cells[from], 0);
    }
}

/// Where no target is unknown, every target of every row names a state.
pub proof fn lemma_no_unknown_target(p: ParsedNfaModel, from: int)
    requires
        0 <= from <= p.states.len(),
        first_unknown_target(p, from) is None,
    ensures
        forall|q: int, x: int, k: int|
            from <= q < p.states.len() && 0 <= x < p.states[q].transitions.len() && 0 <= k
                < p.states[q].transitions[x].len() ==> nfa_state_names(p).contains(
                #[trigger] p.states[q].transitions[x][k],
            ),
    decreases p.states.len() - from,
{
    if from < p.states.len() {
        lemma_no_unknown_target(p, from + 1);
        lemma_none_missing_in(nfa_state_names(p), p.states[from].transitions, 0);
    }
}

/// Where no row has a bad width, every row has one set for each entry.
pub proof fn lemma_row_widths(p: ParsedNfaModel, from: int)
    requires
        0 <= from <= p.states.len(),
        first_bad_row_width(p, from) is None,
    ensures
        forall|q: int|
            from <= q < p.states.len() ==> (#[trigger] p.states[q]).transitions.len()
                == p.head.len(),
    decreases p.states.len() - from,
{
    if from < p.states.len() {
        lemma_row_widths(p, from + 1);
    }
}

/// A table without fault describes a well-formed automaton.
pub proof fn lemma_nfa_from(p: ParsedNfaModel)
    requires
        nfa_fault(p) is None,
    ensures
        nfa_from(p).wf(),
{
    let n = nfa_from(p);
    let names = nfa_state_names(p);
    let words = head_words(p);
    let eps = eps_column(p, 0);
    lemma_no_repeat(words, 0);
    lemma_eps_column(p, 0);
    lemma_first_initial_row(p, 0);
    let initial = first_initial_row(p, 0).unwrap();
    lemma_no_initial_row(p, initial + 1);
    lemma_no_unknown_target(p, 0);
    lemma_row_widths(p, 0);
    assert(n.alphabet.no_duplicates()) by {
        assert forall|i: int, j: int|
            0 <= i < n.alphabet.len() && 0 <= j < n.alphabet.len() && i != j implies n.alphabet[i]
            != n.alphabet[j] by {
            match eps {
                Some(k) => {
                    let a = if i < k {
                        i
                    } else {
                        i + 1
                    };
                    let b = if j < k {
                        j
                    } else {
                        j + 1
                    };
                    assert(n.alphabet[i] == words[a] && n.alphabet[j] == words[b]);
                    if a < b {
                        assert(words[a] != words[b]);
                    } else {
                        assert(words[b] != words[a]);
                    }
                },
                None => {
                    if i < j {
                        assert(words[i] != words[j]);
                    } else {
                        assert(words[j] != words[i]);
                    }
                },
            }
        }
    }
    assert forall|q: int| 0 <= q < n.states.len() implies (#[trigger] n.states[q]).transitions.len()
        == n.alphabet.len() by {
        assert(p.states[q].transitions.len() == p.head.len());
    }
    assert forall|q: int, x: int, k: int|
        0 <= q < n.states.len() && 0 <= x < n.alphabet.len() && 0 <= k
            < n.states[q].transitions[x].len() implies 0
        <= #[trigger] n.states[q].transitions[x][k] < n.states.len() by {
        assert(p.states[q].transitions.len() == p.head.len());
        let column = match eps {
            Some(e) => if x < e {
                x
            } else {
                x + 1
            },
            None => x,
        };
        assert(without(p.states[q].transitions, eps)[x] == p.states[q].transitions[column]);
        let c = p.states[q].transitions[column][k];
        assert(names.contains(c));
    }
    assert forall|q: int, k: int|
        0 <= q < n.states.len() && 0 <= k < n.states[q].epsilon_transitions.len() implies 0
        <= #[trigger] n.states[q].epsilon_transitions[k] < n.states.len() by {
        assert(p.states[q].transitions.len() == p.head.len());
        let e = eps.unwrap();
        let c = p.states[q].transitions[e][k];
        assert(names.contains(c));
    }
}

impl Nfa {
    /// Checks the table that was read: the automaton that it describes, or
    /// the first fault of the table.
    #[verifier::loop_isolation(false)]
    #[verifier::rlimit(50)]
    pub fn try_from(parsed: ParsedNfa) -> (checked: Result<Nfa, Error>)
        ensures
            match checked {
                Ok(n) => nfa_fault(parsed@) is None && n@ == nfa_from(parsed@) && n@.wf(),
                Err(e) => nfa_fault(parsed@) == Some(e@),
            },
    {
        let ghost p = parsed@;
        let ghost names_model = nfa_state_names(p);
        let mut words: Vec<&str> = Vec::new();
        let mut eps: Option<usize> = None;
        let mut x: usize = 0;
        while x < parsed.head.len()
            invariant
                x <= parsed.head.len(),
                words.len() == x,
                forall|y: int| 0 <= y < x ==> (#[trigger] words[y])@ == head_words(p)[y],
                match eps {
                    Some(k) => eps_column(p, 0) == Some(k as int) && k < x,
                    None => eps_column(p, 0) == eps_column(p, x as int),
                },
            decreases parsed.head.len() - x,
        {
            assert(p.head[x as int] == parsed.head[x as int]@);
            match parsed.head[x] {
                NfaAlphabetEntry::Element(w) => {
                    words.push(w);
                },
                NfaAlphabetEntry::Eps => {
                    words.push("\u{3b5}");
                    if eps.is_none() {
                        eps = Some(x);
                    }
                },
            }
            x += 1;
        }
        assert(word_of(words@) =~= head_words(p));
        if let Some(symbol) = find_repeated(&words) {
            return Err(Error::DuplicateAlphabetSymbol(symbol.to_owned()));
        }
        let mut names: Vec<&str> = Vec::new();
        let mut q: usize = 0;
        while q < parsed.states.len()
            invariant
                q <= parsed.states.len(),
                names.len() == q,
                forall|j: int| 0 <= j < q ==> (#[trigger] names[j])@ == p.states[j].name,
            decreases parsed.states.len() - q,
        {
            assert(p.states[q as int] == parsed.states[q as int]@);
            names.push(parsed.states[q].name);
            q += 1;
        }
        assert(word_of(names@) =~= names_model);
        if let Some(name) = find_repeated(&names) {
            return Err(Error::DuplicateStateName(name.to_owned()));
        }
        let mut initial: usize = 0;
        while initial < parsed.states.len() && !parsed.states[initial].initial
            invariant
                initial <= parsed.states.len(),
                first_initial_row(p, 0) == first_initial_row(p, initial as int),
            decreases parsed.states.len() - initial,
        {
            assert(p.states[initial as int] == parsed.states[initial as int]@);
            initial += 1;
        }
        if initial >= parsed.states.len() {
            return Err(Error::NoInitialState);
        }
        assert(p.states[initial as int] == parsed.states[initial as int]@);
        let mut other: usize = initial + 1;
        while other < parsed.states.len() && !parsed.states[other].initial
            invariant
                initial < other <= parsed.states.len(),
                first_initial_row(p, initial + 1) == first_initial_row(p, other as int),
            decreases parsed.states.len() - other,
        {
            assert(p.states[other as int] == parsed.states[other as int]@);
            other += 1;
        }
        if other < parsed.states.len() {
            assert(p.states[other as int] == parsed.states[other as int]@);
            return Err(Error::MultipleInitialStates);
        }
        proof {
            lemma_no_repeat(names_model, 0);
        }
        let mut targets: Vec<Vec<Vec<usize>>> = Vec::new();
        q = 0;
        while q < parsed.states.len()
            invariant
                q <= parsed.states.len(),
                targets.len() == q,
                first_unknown_target(p, 0) == first_unknown_target(p, q as int),
                forall|j: int|
                    0 <= j < q ==> target_lists_of((#[trigger] targets[j])@)
                        == p.states[j].transitions.map_values(
                        |cell: Seq<Seq<char>>| named_targets(names_model, cell),
                    ),
            decreases parsed.states.len() - q,
        {
            let cells = &parsed.states[q].transitions;
            assert(p.states[q as int] == parsed.states[q as int]@);
            let ghost row_model = p.states[q as int].transitions;
            let mut row: Vec<Vec<usize>> = Vec::new();
            let mut c: usize = 0;
            while c < cells.len()
                invariant
                    c <= cells.len(),
                    row.len() == c,
                    first_missing_in(names_model, row_model, 0) == first_missing_in(
                        names_model,
                        row_model,
                        c as int,
                    ),
                    forall|j: int|
                        0 <= j < c ==> targets_of((#[trigger] row[j])@) == named_targets(
                            names_model,
                            row_model[j],
                        ),
                decreases cells.len() - c,
            {
                let cell = &cells[c];
                assert(row_model[c as int] == word_of(cell@));
                let mut list: Vec<usize> = Vec::new();
                let mut k: usize = 0;
                while k < cell.len()
                    invariant
                        k <= cell.len(),
                        list.len() == k,
                        first_missing(names_model, word_of(cell@), 0) == first_missing(
                            names_model,
                            word_of(cell@),
                            k as int,
                        ),
                        forall|j: int|
                            0 <= j < k ==> #[trigger] list[j] == names_model.index_of(
                                word_of(cell@)[j],
                            ),
                    decreases cell.len() - k,
                {
                    assert(word_of(cell@)[k as int] == cell[k as int]@);
                    match find_position(&names, cell[k]) {
                        Some(at) => {
                            proof {
                                let chosen = names_model.index_of(cell[k as int]@);
                                assert(names_model.contains(cell[k as int]@));
                                if chosen < at {
                                    assert(names_model[chosen] != names_model[at as int]);
                                } else if at < chosen {
                                    assert(names_model[at as int] != names_model[chosen]);
                                }
                            }
                            list.push(at);
                        },
                        None => {
                            return Err(Error::UnknownStateReference(cell[k].to_owned()));
                        },
                    }
                    k += 1;
                }
                assert(targets_of(list@) =~= named_targets(names_model, row_model[c as int]));
                row.push(list);
                c += 1;
            }
            assert(target_lists_of(row@) =~= row_model.map_values(
                |cell: Seq<Seq<char>>| named_targets(names_model, cell),
            ));
            targets.push(row);
            q += 1;
        }
        q = 0;
        while q < parsed.states.len()
            invariant
                q <= parsed.states.len(),
                first_bad_row_width(p, 0) == first_bad_row_width(p, q as int),
            decreases parsed.states.len() - q,
        {
            assert(p.states[q as int] == parsed.states[q as int]@);
            if parsed.states[q].transitions.len() != parsed.head.len() {
                return Err(
                    Error::RowWidthMismatch(
                        parsed.states[q].name.to_owned(),
                        parsed.states[q].transitions.len(),
                        parsed.head.len(),
                    ),
                );
            }
            q += 1;
        }
        proof {
            assert(nfa_fault(p) is None);
            lemma_nfa_from(p);
            lemma_row_widths(p, 0);
            lemma_eps_column(p, 0);
        }
        let ghost want = nfa_from(p);
        let mut states: Vec<NfaState> = Vec::new();
        q = 0;
        while q < parsed.states.len()
            invariant
                q <= parsed.states.len(),
                states.len() == q,
                forall|j: int| 0 <= j < q ==> (#[trigger] states[j])@ == want.states[j],
            decreases parsed.states.len() - q,
        {
            assert(p.states[q as int] == parsed.states[q as int]@);
            assert(p.states[q as int].transitions.len() == p.head.len());
            let ghost lists = target_lists_of(targets[q as int]@);
            let mut silent: Vec<usize> = Vec::new();
            let mut row: Vec<Vec<usize>> = Vec::new();
            let mut c: usize = 0;
            while c < targets[q].len()
                invariant
                    c <= targets[q as int].len(),
                    q < parsed.states.len(),
                    match eps {
                        Some(e) => targets_of(silent@) == (if c > e {
                            lists[e as int]
                        } else {
                            Seq::empty()
                        }) && target_lists_of(row@) == without(lists.take(c as int), Some(e as int)),
                        None => silent@.len() == 0 && target_lists_of(row@) == lists.take(
                            c as int,
                        ),
                    },
                decreases targets[q as int].len() - c,
            {
                let list = crate::alphabet::clone_indices(targets[q][c].as_slice());
                assert(lists[c as int] == targets_of(targets[q as int][c as int]@));
                let ghost before = target_lists_of(row@);
                if eps == Some(c) {
                    silent = list;
                    assert(without(lists.take(c + 1), Some(c as int)) =~= lists.take(c as int));
                    assert(without(lists.take(c as int), Some(c as int)) =~= lists.take(c as int));
                } else {
                    row.push(list);
                    proof {
                        assert(target_lists_of(row@) =~= before.push(lists[c as int]));
                        match eps {
                            Some(e) => {
                                assert(without(lists.take(c + 1), Some(e as int)) =~= without(
                                    lists.take(c as int),
                                    Some(e as int),
                                ).push(lists[c as int]));
                            },
                            None => {
                                assert(lists.take(c + 1) =~= lists.take(c as int).push(
                                    lists[c as int],
                                ));
                            },
                        }
                    }
                }
                c += 1;
            }
            let state = NfaState::from_parts(
                parsed.states[q].name.to_owned(),
                parsed.states[q].initial,
                parsed.states[q].accepting,
                silent,
                row,
            );
            proof {
                assert(lists.take(lists.len() as int) =~= lists);
                let cells = p.states[q as int].transitions;
                let view = |cell: Seq<Seq<char>>| named_targets(names_model, cell);
                assert(lists == cells.map_values(view));
                match eps {
                    Some(e) => {
                        assert(without(lists, Some(e as int)) =~= without(
                            cells,
                            Some(e as int),
                        ).map_values(view));
                    },
                    None => {
                        assert(targets_of(silent@) =~= Seq::<int>::empty());
                    },
                }
                assert(state@.transitions =~= want.states[q as int].transitions);
                assert(state@.epsilon_transitions =~= want.states[q as int].epsilon_transitions);
            }
            states.push(state);
            q += 1;
        }
        let mut alphabet: Vec<String> = Vec::new();
        x = 0;
        while x < words.len()
            invariant
                x <= words.len(),
                tokens_of(alphabet@) == without(
                    head_words(p).take(x as int),
                    match eps {
                        Some(e) => Some(e as int),
                        None => None,
                    },
                ),
            decreases words.len() - x,
        {
            let ghost before = tokens_of(alphabet@);
            let ghost e_model: Option<int> = match eps {
                Some(e) => Some(e as int),
                None => None,
            };
            if eps != Some(x) {
                alphabet.push(words[x].to_owned());
                proof {
                    assert(tokens_of(alphabet@) =~= before.push(head_words(p)[x as int]));
                    assert(without(head_words(p).take(x + 1), e_model) =~= without(
                        head_words(p).take(x as int),
                        e_model,
                    ).push(head_words(p)[x as int]));
                }
            } else {
                assert(without(head_words(p).take(x + 1), e_model) =~= head_words(p).take(
                    x as int,
                ));
                assert(without(head_words(p).take(x as int), e_model) =~= head_words(p).take(
                    x as int,
                ));
            }
            x += 1;
        }
        proof {
            assert(head_words(p).take(words.len() as int) =~= head_words(p));
            let n = nfa_model(alphabet@, states@, initial);
            assert(n.states =~= want.states);
            assert(n.alphabet == want.alphabet);
            assert(n == want);
        }
        Ok(Nfa::from_parts(alphabet, states, initial))
    }

    /// Reads and checks the table of an automaton: the automaton that the
    /// text describes, or the first error of the text.
    pub fn parse(text: &str) -> (outcome: Result<Nfa, Error>)
        ensures
            match outcome {
                Ok(n) => nfa_of_text(text@) == Ok::<NfaModel, ErrorModel>(n@) && n@.wf(),
                Err(e) => nfa_of_text(text@) == Err::<NfaModel, ErrorModel>(e@),
            },
    {
        match crate::parser::nfa(text) {
            Err(e) => Err(e),
            Ok(parsed) => Nfa::try_from(parsed),
        }
    }
}

} // verus!
