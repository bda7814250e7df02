//! Alphabets: ordered lists of distinct symbol tokens, and words over them.

use vstd::prelude::*;

verus! {

/// The tokens that a list of strings stands for.
pub open spec fn tokens_of(strings: Seq<String>) -> Seq<Seq<char>> {
    strings.map_values(|s: String| s@)
}

/// The word that a list of string slices stands for.
pub open spec fn word_of(slices: Seq<&str>) -> Seq<Seq<char>> {
    slices.map_values(|s: &str| s@)
}

/// The position of `token` in `alphabet`, if it occurs there. In an alphabet
/// without duplicates that position is the only one.
pub open spec fn symbol_position(alphabet: Seq<Seq<char>>, token: Seq<char>) -> Option<int> {
    if alphabet.contains(token) {
        Some(alphabet.index_of(token))
    } else {
        None
    }
}

/// In an alphabet without duplicates, a token has position `i` exactly when
/// it stands at index `i`.
pub proof fn lemma_symbol_position(alphabet: Seq<Seq<char>>, token: Seq<char>, i: int)
    requires
        alphabet.no_duplicates(),
    ensures
        symbol_position(alphabet, token) == Some(i) <==> (0 <= i < alphabet.len() && alphabet[i]
            == token),
{
    if 0 <= i < alphabet.len() && alphabet[i] == token {
        assert(alphabet.contains(token));
    }
}

/// Searches `alphabet` for `token`.
pub fn find_symbol(alphabet: &[String], token: &String) -> (found: Option<usize>)
    requires
        tokens_of(alphabet@).no_duplicates(),
    ensures
        found matches Some(i) ==> symbol_position(tokens_of(alphabet@), token@) == Some(i as int),
        found is None ==> symbol_position(tokens_of(alphabet@), token@) is None,
{
    let mut i: usize = 0;
    while i < alphabet.len()
        invariant
            i <= alphabet.len(),
            tokens_of(alphabet@).no_duplicates(),
            forall|j: int| 0 <= j < i ==> tokens_of(alphabet@)[j] != token@,
        decreases alphabet.len() - i,
    {
        if alphabet[i] == *token {
            proof {
                lemma_symbol_position(tokens_of(alphabet@), token@, i as int);
            }
            return Some(i);
        }
        i += 1;
    }
    None
}

} // verus!

verus! {

/// A copy of a list of strings.
pub fn clone_strings(strings: &[String]) -> (copy: Vec<String>)
    ensures
        copy@ == strings@,
{
    let mut copy: Vec<String> = Vec::new();
    let mut i: usize = 0;
    while i < strings.len()
        invariant
            i <= strings.len(),
            copy@ == strings@.take(i as int),
        decreases strings.len() - i,
    {
        copy.push(strings[i].clone());
        assert(strings@.take(i + 1) =~= strings@.take(i as int).push(strings@[i as int]));
        i += 1;
    }
    assert(strings@.take(i as int) =~= strings@);
    copy
}

/// A copy of a list of indices.
pub fn clone_indices(indices: &[usize]) -> (copy: Vec<usize>)
    ensures
        copy@ == indices@,
{
    let mut copy: Vec<usize> = Vec::new();
    let mut i: usize = 0;
    while i < indices.len()
        invariant
            i <= indices.len(),
            copy@ == indices@.take(i as int),
        decreases indices.len() - i,
    {
        copy.push(indices[i]);
        assert(indices@.take(i + 1) =~= indices@.take(i as int).push(indices@[i as int]));
        i += 1;
    }
    assert(indices@.take(i as int) =~= indices@);
    copy
}

} // verus!
