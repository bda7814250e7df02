//! The pairs of states that were found while an automaton of pairs is
//! built, each with its place in the order in which they were found.

use vstd::prelude::*;
use crate::counting::{
    clear_table,
    flags_of,
    lemma_table_marks_bound,
    lemma_table_marks_none,
    set_flag,
    table_marks,
};

verus! {

/// Whether the longer list of pairs begins with the shorter one.
pub open spec fn begins(shorter: Seq<(int, int)>, longer: Seq<(int, int)>) -> bool {
    &&& shorter.len() <= longer.len()
    &&& forall|k: int| 0 <= k < shorter.len() ==> #[trigger] longer[k] == shorter[k]
}

/// The pairs found so far, in the order in which they were found, and for
/// each pair of numbers whether it was found and at which place.
pub struct PairTable {
    height: usize,
    width: usize,
    seen: Vec<Vec<bool>>,
    index: Vec<Vec<usize>>,
    pairs: Vec<(usize, usize)>,
}

impl PairTable {
    /// The pairs, in the order in which they were found.
    pub closed spec fn spans(&self) -> Seq<(int, int)> {
        self.pairs@.map_values(|p: (usize, usize)| (p.0 as int, p.1 as int))
    }

    /// The bound of the first numbers of the pairs.
    pub closed spec fn height(&self) -> int {
        self.height as int
    }

    /// The bound of the second numbers of the pairs.
    pub closed spec fn width(&self) -> int {
        self.width as int
    }

    /// Whether the table agrees with the list of the pairs.
    pub closed spec fn ok(&self) -> bool {
        &&& self.seen.len() == self.height
        &&& self.index.len() == self.height
        &&& forall|i: int| 0 <= i < self.height ==> (#[trigger] self.seen[i]).len() == self.width
        &&& forall|i: int| 0 <= i < self.height ==> (#[trigger] self.index[i]).len() == self.width
        &&& self.pairs.len() == table_marks(flags_of(self.seen@))
        &&& forall|k: int|
            0 <= k < self.pairs.len() ==> {
                &&& (#[trigger] self.pairs[k]).0 < self.height
                &&& self.pairs[k].1 < self.width
                &&& self.seen[self.pairs[k].0 as int][self.pairs[k].1 as int]
                &&& self.index[self.pairs[k].0 as int][self.pairs[k].1 as int] == k
            }
        &&& forall|i: int, j: int|
            0 <= i < self.height && 0 <= j < self.width && #[trigger] self.seen[i][j]
                ==> self.index[i][j] < self.pairs.len() && self.pairs[self.index[i][j] as int] == (
                i as usize,
                j as usize,
            )
    }

    /// No pair stands twice in the list, the numbers of each pair are
    /// below the bounds, and there are no more pairs than pairs of numbers
    /// below the bounds.
    pub proof fn lemma_ok(&self)
        requires
            self.ok(),
        ensures
            self.spans().no_duplicates(),
            forall|k: int|
                0 <= k < self.spans().len() ==> 0 <= (#[trigger] self.spans()[k]).0 < self.height()
                    && 0 <= self.spans()[k].1 < self.width(),
            self.spans().len() <= self.height() * self.width(),
    {
        lemma_table_marks_bound(flags_of(self.seen@), self.width as nat);
        assert forall|k: int, l: int|
            0 <= k < self.spans().len() && 0 <= l < self.spans().len() && k
                != l implies self.spans()[k] != self.spans()[l] by {
            assert(self.index[self.pairs[k].0 as int][self.pairs[k].1 as int] == k);
            assert(self.index[self.pairs[l].0 as int][self.pairs[l].1 as int] == l);
        }
    }

    /// The table that holds the one pair of `i` and `j`.
    pub(crate) fn new(height: usize, width: usize, i: usize, j: usize) -> (table: PairTable)
        requires
            i < height,
            j < width,
        ensures
            table.ok(),
            table.height() == height,
            table.width() == width,
            table.spans() == seq![(i as int, j as int)],
    {
        let mut seen = clear_table(height, width);
        let mut index = Vec::<Vec<usize>>::new();
        let mut r: usize = 0;
        while r < height
            invariant
                r <= height,
                index.len() == r,
                forall|k: int| 0 <= k < r ==> (#[trigger] index[k]).len() == width,
            decreases height - r,
        {
            let mut row: Vec<usize> = Vec::new();
            let mut c: usize = 0;
            while c < width
                invariant
                    c <= width,
                    row.len() == c,
                decreases width - c,
            {
                row.push(0);
                c += 1;
            }
            index.push(row);
            r += 1;
        }
        proof {
            lemma_table_marks_none(flags_of(seen@));
        }
        let ghost unseen = seen@;
        set_flag(&mut seen, i, j);
        let mut pairs: Vec<(usize, usize)> = Vec::new();
        pairs.push((i, j));
        index[i][j] = 0;
        let table = PairTable { height, width, seen, index, pairs };
        proof {
            assert forall|a: int, b: int|
                0 <= a < height && 0 <= b < width && #[trigger] table.seen[a][b] implies a == i
                && b == j by {
                if a != i {
                    assert(table.seen[a] == unseen[a]);
                }
            }
            assert(table.spans() =~= seq![(i as int, j as int)]);
        }
        table
    }

    /// The number of pairs.
    pub(crate) fn len(&self) -> (count: usize)
        ensures
            count == self.spans().len(),
    {
        self.pairs.len()
    }

    /// The pair at place `k`.
    pub(crate) fn pair(&self, k: usize) -> (pair: (usize, usize))
        requires
            k < self.spans().len(),
        ensures
            (pair.0 as int, pair.1 as int) == self.spans()[k as int],
    {
        self.pairs[k]
    }

    /// The place of the pair of `i` and `j`, which is added to the pairs
    /// if it is not among them.
    pub(crate) fn place(&mut self, i: usize, j: usize) -> (at: usize)
        requires
            old(self).ok(),
            i < old(self).height(),
            j < old(self).width(),
        ensures
            final(self).ok(),
            final(self).height() == old(self).height(),
            final(self).width() == old(self).width(),
            begins(old(self).spans(), final(self).spans()),
            at < final(self).spans().len(),
            final(self).spans()[at as int] == (i as int, j as int),
    {
        if !self.seen[i][j] {
            let ghost old_seen = self.seen@;
            let ghost old_index = self.index@;
            let ghost old_pairs = self.pairs@;
            let at = self.pairs.len();
            set_flag(&mut self.seen, i, j);
            self.index[i][j] = at;
            self.pairs.push((i, j));
            proof {
                assert forall|k: int| 0 <= k < self.pairs.len() implies {
                    &&& (#[trigger] self.pairs[k]).0 < self.height
                    &&& self.pairs[k].1 < self.width
                    &&& self.seen[self.pairs[k].0 as int][self.pairs[k].1 as int]
                    &&& self.index[self.pairs[k].0 as int][self.pairs[k].1 as int] == k
                } by {
                    if k < at {
                        assert(self.pairs[k] == old_pairs[k]);
                        assert(old_seen[old_pairs[k].0 as int][old_pairs[k].1 as int]);
                    }
                }
                assert forall|a: int, b: int|
                    0 <= a < self.height && 0 <= b < self.width
                        && #[trigger] self.seen[a][b] implies self.index[a][b] < self.pairs.len()
                    && self.pairs[self.index[a][b] as int] == (a as usize, b as usize) by {
                    if a == i && b == j {
                    } else {
                        assert(old_seen[a][b]);
                        assert(self.index[a][b] == old_index[a][b]);
                        assert(self.pairs[self.index[a][b] as int]
                            == old_pairs[old_index[a][b] as int]);
                    }
                }
            }
            at
        } else {
            self.index[i][j]
        }
    }
}

} // verus!
