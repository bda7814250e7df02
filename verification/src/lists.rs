//! Searching lists of words.

use vstd::prelude::*;
use crate::alphabet::word_of;
use crate::text::str_eq;

verus! {

/// The first item from `from` on that also stands before its own place.
pub open spec fn first_repeated(items: Seq<Seq<char>>, from: int) -> Option<Seq<char>>
    decreases items.len() - from,
{
    if from < 0 || from >= items.len() {
        None
    } else if items.take(from).contains(items[from]) {
        Some(items[from])
    } else {
        first_repeated(items, from + 1)
    }
}

/// The first item from `from` on that `others` holds too.
pub open spec fn first_shared(items: Seq<Seq<char>>, others: Seq<Seq<char>>, from: int) -> Option<
    Seq<char>,
>
    decreases items.len() - from,
{
    if from < 0 || from >= items.len() {
        None
    } else if others.contains(items[from]) {
        Some(items[from])
    } else {
        first_shared(items, others, from + 1)
    }
}

/// Whether one of the first `upto` of `items` is `item`.
pub fn holds(items: &Vec<&str>, upto: usize, item: &str) -> (found: bool)
    requires
        upto <= items.len(),
    ensures
        found == word_of(items@).take(upto as int).contains(item@),
{
    let mut i: usize = 0;
    while i < upto
        invariant
            i <= upto <= items.len(),
            forall|j: int| 0 <= j < i ==> word_of(items@)[j] != item@,
        decreases upto - i,
    {
        if str_eq(items[i], item) {
            assert(word_of(items@).take(upto as int)[i as int] == item@);
            return true;
        }
        i += 1;
    }
    false
}

/// The first item that also stands before its own place.
pub fn find_repeated<'a>(items: &Vec<&'a str>) -> (found: Option<&'a str>)
    ensures
        found matches Some(item) ==> first_repeated(word_of(items@), 0) == Some(item@),
        found is None ==> first_repeated(word_of(items@), 0) is None,
{
    let mut i: usize = 0;
    while i < items.len()
        invariant
            i <= items.len(),
            first_repeated(word_of(items@), 0) == first_repeated(word_of(items@), i as int),
        decreases items.len() - i,
    {
        if holds(items, i, items[i]) {
            return Some(items[i]);
        }
        i += 1;
    }
    None
}

/// The first of `items` that `others` holds too.
pub fn find_shared<'a>(items: &Vec<&'a str>, others: &Vec<&str>) -> (found: Option<&'a str>)
    ensures
        found matches Some(item) ==> first_shared(word_of(items@), word_of(others@), 0) == Some(
            item@,
        ),
        found is None ==> first_shared(word_of(items@), word_of(others@), 0) is None,
{
    let mut i: usize = 0;
    while i < items.len()
        invariant
            i <= items.len(),
            first_shared(word_of(items@), word_of(others@), 0) == first_shared(
                word_of(items@),
                word_of(others@),
                i as int,
            ),
        decreases items.len() - i,
    {
        assert(word_of(others@).take(others.len() as int) =~= word_of(others@));
        if holds(others, others.len(), items[i]) {
            return Some(items[i]);
        }
        i += 1;
    }
    None
}

/// The first place of `item` among `items`.
pub fn find_position(items: &Vec<&str>, item: &str) -> (found: Option<usize>)
    ensures
        match found {
            Some(at) => at < items.len() && word_of(items@)[at as int] == item@ && forall|j: int|
                0 <= j < at ==> word_of(items@)[j] != item@,
            None => !word_of(items@).contains(item@),
        },
{
    let mut i: usize = 0;
    while i < items.len()
        invariant
            i <= items.len(),
            forall|j: int| 0 <= j < i ==> word_of(items@)[j] != item@,
        decreases items.len() - i,
    {
        if str_eq(items[i], item) {
            return Some(i);
        }
        i += 1;
    }
    None
}

/// A list in which no item stands before its own place has no item twice.
pub proof fn lemma_no_repeat(items: Seq<Seq<char>>, from: int)
    requires
        0 <= from <= items.len(),
        first_repeated(items, from) is None,
    ensures
        forall|i: int, j: int| 0 <= i < j < items.len() && from <= j ==> items[i] != items[j],
    decreases items.len() - from,
{
    if from < items.len() {
        lemma_no_repeat(items, from + 1);
        assert forall|i: int| 0 <= i < from implies items[i] != items[from] by {
            if items[i] == items[from] {
                assert(items.take(from)[i] == items[from]);
                assert(items.take(from).contains(items[from]));
            }
        }
    }
}

} // verus!
