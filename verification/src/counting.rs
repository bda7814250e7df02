//! Counting the marks of a row and of a table of flags. The searches of this
//! library end because each of their steps sets a mark that was not set.

use vstd::prelude::*;
use vstd::arithmetic::power2::{pow2, lemma_pow2_unfold, lemma_pow2_pos};
use vstd::set_lib::{set_int_range, lemma_int_range, lemma_len_subset};

verus! {

/// The number of flags of `row` that are set.
pub open spec fn marks(row: Seq<bool>) -> nat
    decreases row.len(),
{
    if row.len() == 0 {
        0
    } else {
        marks(row.drop_last()) + if row.last() {
            1nat
        } else {
            0nat
        }
    }
}

/// A row has at most as many marks as flags.
pub proof fn lemma_marks_bound(row: Seq<bool>)
    ensures
        marks(row) <= row.len(),
    decreases row.len(),
{
    if row.len() > 0 {
        lemma_marks_bound(row.drop_last());
    }
}

/// Setting a flag that was not set adds one mark.
pub proof fn lemma_marks_set(row: Seq<bool>, i: int)
    requires
        0 <= i < row.len(),
        !row[i],
    ensures
        marks(row.update(i, true)) == marks(row) + 1,
    decreases row.len(),
{
    let after = row.update(i, true);
    if i == row.len() - 1 {
        assert(after.drop_last() =~= row.drop_last());
    } else {
        assert(after.drop_last() =~= row.drop_last().update(i, true));
        lemma_marks_set(row.drop_last(), i);
    }
}

/// A row without marks has no flag set.
pub proof fn lemma_marks_none(row: Seq<bool>)
    requires
        forall|i: int| 0 <= i < row.len() ==> !row[i],
    ensures
        marks(row) == 0,
    decreases row.len(),
{
    if row.len() > 0 {
        lemma_marks_none(row.drop_last());
    }
}

/// The number of flags that are set in all the rows of `table`.
pub open spec fn table_marks(table: Seq<Seq<bool>>) -> nat
    decreases table.len(),
{
    if table.len() == 0 {
        0
    } else {
        table_marks(table.drop_last()) + marks(table.last())
    }
}

/// A table of rows of `width` flags has at most `width` marks in each row.
pub proof fn lemma_table_marks_bound(table: Seq<Seq<bool>>, width: nat)
    requires
        forall|i: int| 0 <= i < table.len() ==> (#[trigger] table[i]).len() == width,
    ensures
        table_marks(table) <= table.len() * width,
    decreases table.len(),
{
    if table.len() > 0 {
        lemma_table_marks_bound(table.drop_last(), width);
        lemma_marks_bound(table.last());
        assert((table.len() - 1) * width + width == table.len() * width) by (nonlinear_arith);
    }
}

/// Setting a flag that was not set adds one mark to the table.
pub proof fn lemma_table_marks_set(table: Seq<Seq<bool>>, i: int, j: int)
    requires
        0 <= i < table.len(),
        0 <= j < table[i].len(),
        !table[i][j],
    ensures
        table_marks(table.update(i, table[i].update(j, true))) == table_marks(table) + 1,
    decreases table.len(),
{
    let after = table.update(i, table[i].update(j, true));
    if i == table.len() - 1 {
        assert(after.drop_last() =~= table.drop_last());
        lemma_marks_set(table[i], j);
    } else {
        assert(after.drop_last() =~= table.drop_last().update(i, table[i].update(j, true)));
        lemma_table_marks_set(table.drop_last(), i, j);
    }
}

/// A table without marks has no flag set.
pub proof fn lemma_table_marks_none(table: Seq<Seq<bool>>)
    requires
        forall|i: int, j: int|
            0 <= i < table.len() && 0 <= j < table[i].len() ==> !(#[trigger] table[i][j]),
    ensures
        table_marks(table) == 0,
    decreases table.len(),
{
    if table.len() > 0 {
        lemma_table_marks_none(table.drop_last());
        lemma_marks_none(table.last());
    }
}

/// The flags of a list of flag vectors.
pub open spec fn flags_of(table: Seq<Vec<bool>>) -> Seq<Seq<bool>> {
    table.map_values(|row: Vec<bool>| row@)
}

/// A row of `width` flags, none of them set.
pub fn clear_row(width: usize) -> (row: Vec<bool>)
    ensures
        row.len() == width,
        forall|i: int| 0 <= i < width ==> !row[i],
{
    let mut row: Vec<bool> = Vec::new();
    let mut i: usize = 0;
    while i < width
        invariant
            i <= width,
            row.len() == i,
            forall|j: int| 0 <= j < i ==> !row[j],
        decreases width - i,
    {
        row.push(false);
        i += 1;
    }
    row
}

/// A table of `height` rows of `width` flags, none of them set.
pub fn clear_table(height: usize, width: usize) -> (table: Vec<Vec<bool>>)
    ensures
        table.len() == height,
        forall|i: int| 0 <= i < height ==> (#[trigger] table[i]).len() == width,
        forall|i: int, j: int| 0 <= i < height && 0 <= j < width ==> !(#[trigger] table[i][j]),
{
    let mut table: Vec<Vec<bool>> = Vec::new();
    let mut i: usize = 0;
    while i < height
        invariant
            i <= height,
            table.len() == i,
            forall|k: int| 0 <= k < i ==> (#[trigger] table[k]).len() == width,
            forall|k: int, j: int| 0 <= k < i && 0 <= j < width ==> !(#[trigger] table[k][j]),
        decreases height - i,
    {
        table.push(clear_row(width));
        i += 1;
    }
    table
}

/// Sets the flag at row `i` and column `j`, which was not set.
pub fn set_flag(table: &mut Vec<Vec<bool>>, i: usize, j: usize)
    requires
        i < old(table).len(),
        j < old(table)[i as int].len(),
        !old(table)[i as int][j as int],
    ensures
        final(table).len() == old(table).len(),
        final(table)[i as int]@ == old(table)[i as int]@.update(j as int, true),
        forall|k: int|
            0 <= k < old(table).len() && k != i ==> (#[trigger] final(table)[k]) == old(table)[k],
        table_marks(flags_of(final(table)@)) == table_marks(flags_of(old(table)@)) + 1,
{
    proof {
        lemma_table_marks_set(flags_of(table@), i as int, j as int);
    }
    let ghost before = flags_of(table@);
    table[i][j] = true;
    assert(flags_of(table@) =~= before.update(i as int, before[i as int].update(j as int, true)));
}

/// The number of marked states before state `q`: the place of `q` among the
/// marked states.
pub open spec fn rank(flags: Seq<bool>, q: int) -> int {
    marks(flags.take(q)) as int
}

/// The marked states, in rising order.
pub open spec fn kept_states(flags: Seq<bool>) -> Seq<int>
    decreases flags.len(),
{
    if flags.len() == 0 {
        Seq::empty()
    } else if flags.last() {
        kept_states(flags.drop_last()).push(flags.len() - 1)
    } else {
        kept_states(flags.drop_last())
    }
}

/// The marked states are as many as the marks, each is marked, and each
/// stands at its rank.
pub proof fn lemma_kept_states(flags: Seq<bool>)
    ensures
        kept_states(flags).len() == marks(flags),
        forall|j: int|
            0 <= j < kept_states(flags).len() ==> 0 <= #[trigger] kept_states(flags)[j]
                < flags.len() && flags[kept_states(flags)[j]] && rank(
                flags,
                kept_states(flags)[j],
            ) == j,
        forall|q: int|
            0 <= q < flags.len() && flags[q] ==> 0 <= #[trigger] rank(flags, q) < marks(flags)
                && kept_states(flags)[rank(flags, q)] == q,
    decreases flags.len(),
{
    if flags.len() > 0 {
        let before = flags.drop_last();
        let last = flags.len() - 1;
        lemma_kept_states(before);
        assert(flags.take(last) =~= before);
        assert forall|q: int| 0 <= q <= last implies #[trigger] flags.take(q) =~= before.take(
            q,
        ) by {}
        assert forall|j: int| 0 <= j < kept_states(flags).len() implies 0
            <= #[trigger] kept_states(flags)[j] < flags.len() && flags[kept_states(flags)[j]]
            && rank(flags, kept_states(flags)[j]) == j by {
            if j < kept_states(before).len() {
                let q = kept_states(before)[j];
                assert(flags.take(q) =~= before.take(q));
            }
        }
        assert forall|q: int| 0 <= q < flags.len() && flags[q] implies 0 <= #[trigger] rank(
            flags,
            q,
        ) < marks(flags) && kept_states(flags)[rank(flags, q)] == q by {
            if q < last {
                assert(flags.take(q) =~= before.take(q));
                assert(before[q]);
                assert(0 <= rank(before, q) < marks(before));
                assert(kept_states(before)[rank(before, q)] == q);
            } else {
                assert(flags.take(q) =~= before);
                assert(flags.last());
                assert(kept_states(flags) == kept_states(before).push(last));
            }
        }
    }
}

/// The rank does not fall from a state to a later one, and rises from a
/// marked state to a later one.
pub proof fn lemma_rank_rises(flags: Seq<bool>, p: int, q: int)
    requires
        0 <= p <= q <= flags.len(),
    ensures
        rank(flags, p) <= rank(flags, q),
        p < q && flags[p] ==> rank(flags, p) < rank(flags, q),
    decreases q - p,
{
    if p < q {
        lemma_rank_rises(flags, p, q - 1);
        assert(flags.take(q).drop_last() =~= flags.take(q - 1));
        if p == q - 1 {
            assert(flags.take(q).last() == flags[p]);
        }
    }
}

/// The number that the flags spell in binary digits.
pub open spec fn code(flags: Seq<bool>) -> int
    decreases flags.len(),
{
    if flags.len() == 0 {
        0
    } else {
        2 * code(flags.drop_last()) + if flags.last() {
            1int
        } else {
            0int
        }
    }
}

/// The number that `width` flags spell has at most `width` binary digits.
pub proof fn lemma_code_bound(flags: Seq<bool>)
    ensures
        0 <= code(flags) < pow2(flags.len()),
    decreases flags.len(),
{
    if flags.len() == 0 {
        lemma_pow2_pos(0);
    } else {
        lemma_code_bound(flags.drop_last());
        lemma_pow2_unfold(flags.len());
    }
}

/// Rows of the same width that spell the same number are the same.
pub proof fn lemma_code_decides(a: Seq<bool>, b: Seq<bool>)
    requires
        a.len() == b.len(),
        code(a) == code(b),
    ensures
        a == b,
    decreases a.len(),
{
    if a.len() > 0 {
        lemma_code_decides(a.drop_last(), b.drop_last());
        assert(a =~= a.drop_last().push(a.last()));
        assert(b =~= b.drop_last().push(b.last()));
    } else {
        assert(a =~= b);
    }
}

/// There are at most two to the power of `width` different rows of `width`
/// flags.
pub proof fn lemma_distinct_rows(rows: Seq<Seq<bool>>, width: nat)
    requires
        forall|i: int| 0 <= i < rows.len() ==> (#[trigger] rows[i]).len() == width,
        forall|i: int, j: int| 0 <= i < j < rows.len() ==> rows[i] != rows[j],
    ensures
        rows.len() <= pow2(width),
{
    let codes = rows.map_values(|row: Seq<bool>| code(row));
    assert(codes.no_duplicates()) by {
        assert forall|i: int, j: int|
            0 <= i < codes.len() && 0 <= j < codes.len() && i != j implies codes[i] != codes[j] by {
            if codes[i] == codes[j] {
                lemma_code_decides(rows[i], rows[j]);
                if i < j {
                    assert(rows[i] != rows[j]);
                } else {
                    assert(rows[j] != rows[i]);
                }
            }
        }
    }
    codes.unique_seq_to_set();
    lemma_pow2_pos(width);
    lemma_int_range(0, pow2(width) as int);
    assert(codes.to_set().subset_of(set_int_range(0, pow2(width) as int))) by {
        assert forall|c: int| codes.to_set().contains(c) implies set_int_range(
            0,
            pow2(width) as int,
        ).contains(c) by {
            let i = choose|i: int| 0 <= i < codes.len() && codes[i] == c;
            lemma_code_bound(rows[i]);
        }
    }
    lemma_len_subset(codes.to_set(), set_int_range(0, pow2(width) as int));
}

} // verus!
