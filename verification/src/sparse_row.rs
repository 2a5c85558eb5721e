//! Sparse rows of `(key, value)` pairs, as the QUBO matrix stores them, with
//! the lemmas relating a loop over a row to a sum over all keys.

use vstd::prelude::*;
use crate::sums::{sum_to, sum_over, occurs, lemma_sum_over_distinct};

verus! {


/// The value stored under key `j` in a row of `(key, value)` pairs.
pub open spec fn row_lookup(row: Seq<(usize, i32)>, j: int) -> Option<i32>
    decreases row.len(),
{
    if row.len() == 0 {
        None
    } else if row.last().0 as int == j {
        Some(row.last().1)
    } else {
        row_lookup(row.drop_last(), j)
    }
}

/// No key occurs twice in the row.
pub open spec fn keys_unique(row: Seq<(usize, i32)>) -> bool {
    forall|a: int, b: int|
        0 <= a < row.len() && 0 <= b < row.len() && a != b ==> #[trigger] row[a].0 != #[trigger] row[b].0
}

/// The stored value under `j`, or `0`.
pub open spec fn row_value(row: Seq<(usize, i32)>, j: int) -> int {
    match row_lookup(row, j) {
        Some(v) => v as int,
        None => 0,
    }
}

/// The value under `j` if `p(j)`, else `0`.
pub open spec fn row_term(row: Seq<(usize, i32)>, p: spec_fn(int) -> bool, j: int) -> int {
    if p(j) {
        row_value(row, j)
    } else {
        0
    }
}

/// The sum of the values whose keys satisfy `p`.
pub open spec fn row_sum(row: Seq<(usize, i32)>, p: spec_fn(int) -> bool) -> int
    decreases row.len(),
{
    if row.len() == 0 {
        0
    } else {
        row_sum(row.drop_last(), p) + (if p(row.last().0 as int) { row.last().1 as int } else { 0 })
    }
}

/// The sum of the absolute values whose keys satisfy `p`.
pub open spec fn row_abs(row: Seq<(usize, i32)>, p: spec_fn(int) -> bool) -> int
    decreases row.len(),
{
    if row.len() == 0 {
        0
    } else {
        row_abs(row.drop_last(), p) + (if p(row.last().0 as int) { abs(row.last().1 as int) } else { 0 })
    }
}

pub open spec fn abs(v: int) -> int {
    if v < 0 { -v } else { v }
}

/// The keys of a row, in order.
pub open spec fn row_keys(row: Seq<(usize, i32)>) -> Seq<usize> {
    row.map_values(|e: (usize, i32)| e.0)
}

pub proof fn lemma_lookup_push(row: Seq<(usize, i32)>, e: (usize, i32), j: int)
    ensures
        row_lookup(row.push(e), j) == (if j == e.0 as int { Some(e.1) } else { row_lookup(row, j) }),
{
    assert(row.push(e).drop_last() =~= row);
}

/// A key absent from the row has no value.
pub proof fn lemma_lookup_absent(row: Seq<(usize, i32)>, j: int)
    requires
        forall|k: int| 0 <= k < row.len() ==> #[trigger] row[k].0 as int != j,
    ensures
        row_lookup(row, j) is None,
    decreases row.len(),
{
    if row.len() > 0 {
        let t = row.drop_last();
        assert forall|k: int| 0 <= k < t.len() implies #[trigger] t[k].0 as int != j by {
            assert(t[k] == row[k]);
        }
        lemma_lookup_absent(t, j);
    }
}

/// A present value sits at some index of the row.
pub proof fn lemma_lookup_present(row: Seq<(usize, i32)>, j: int)
    requires
        row_lookup(row, j) is Some,
    ensures
        exists|k: int| 0 <= k < row.len() && row[k].0 as int == j && row[k].1 == row_lookup(row, j)->0,
    decreases row.len(),
{
    if row.last().0 as int != j {
        let t = row.drop_last();
        lemma_lookup_present(t, j);
        let k = choose|k: int| 0 <= k < t.len() && t[k].0 as int == j && t[k].1 == row_lookup(t, j)->0;
        assert(row[k] == t[k]);
    }
}

/// In a row with unique keys, each key finds its own value.
pub proof fn lemma_lookup_at(row: Seq<(usize, i32)>, k: int)
    requires
        keys_unique(row),
        0 <= k < row.len(),
    ensures
        row_lookup(row, row[k].0 as int) == Some(row[k].1),
    decreases row.len(),
{
    if k < row.len() - 1 {
        let t = row.drop_last();
        assert(row[k].0 != row[row.len() - 1].0);
        assert forall|a: int, b: int| 0 <= a < t.len() && 0 <= b < t.len() && a != b implies #[trigger] t[a].0 != #[trigger] t[b].0 by {
            assert(t[a] == row[a] && t[b] == row[b]);
        }
        assert(t[k] == row[k]);
        lemma_lookup_at(t, k);
    }
}

/// Overwriting the value at index `k` changes only the lookup of its key.
pub proof fn lemma_lookup_update(row: Seq<(usize, i32)>, k: int, v: i32, j: int)
    requires
        keys_unique(row),
        0 <= k < row.len(),
    ensures
        row_lookup(row.update(k, (row[k].0, v)), j) == (if j == row[k].0 as int { Some(v) } else { row_lookup(row, j) }),
{
    let r2 = row.update(k, (row[k].0, v));
    assert forall|a: int, b: int| 0 <= a < r2.len() && 0 <= b < r2.len() && a != b implies #[trigger] r2[a].0 != #[trigger] r2[b].0 by {
        assert(r2[a].0 == row[a].0 && r2[b].0 == row[b].0);
    }
    if j == row[k].0 as int {
        lemma_lookup_at(r2, k);
    } else {
        lemma_lookup_update_other(row, k, v, j);
    }
}

proof fn lemma_lookup_update_other(row: Seq<(usize, i32)>, k: int, v: i32, j: int)
    requires
        0 <= k < row.len(),
        j != row[k].0 as int,
    ensures
        row_lookup(row.update(k, (row[k].0, v)), j) == row_lookup(row, j),
    decreases row.len(),
{
    let r2 = row.update(k, (row[k].0, v));
    if k == row.len() - 1 {
        assert(r2.drop_last() =~= row.drop_last());
    } else {
        assert(r2.drop_last() =~= row.drop_last().update(k, (row[k].0, v)));
        lemma_lookup_update_other(row.drop_last(), k, v, j);
    }
}

/// A row sum over unique keys below `n` is the sum over all indices below `n`.
pub proof fn lemma_row_sum_all(row: Seq<(usize, i32)>, p: spec_fn(int) -> bool, n: int)
    requires
        keys_unique(row),
        forall|k: int| 0 <= k < row.len() ==> #[trigger] row[k].0 < n,
    ensures
        row_sum(row, p) == sum_to(|j: int| row_term(row, p, j), n),
{
    let h = |j: int| row_term(row, p, j);
    let keys = row_keys(row);
    lemma_row_sum_prefix(row, p, row.len() as int);
    assert(row.take(row.len() as int) =~= row);
    assert(keys.take(row.len() as int) =~= keys);
    assert forall|a: int, b: int| 0 <= a < keys.len() && 0 <= b < keys.len() && a != b implies keys[a] != keys[b] by {
        assert(row[a].0 != row[b].0);
    }
    assert forall|k: int| 0 <= k < keys.len() implies #[trigger] keys[k] < n by {
        assert(row[k].0 < n);
    }
    assert forall|j: int| 0 <= j < n && !occurs(keys, j) implies #[trigger] h(j) == 0 by {
        assert forall|k: int| 0 <= k < row.len() implies #[trigger] row[k].0 as int != j by {
            if row[k].0 as int == j {
                assert(keys[k] as int == j);
            }
        }
        lemma_lookup_absent(row, j);
    }
    lemma_sum_over_distinct(keys, h, n);
}

/// The row sum of the first `m` entries, as a sum over their keys.
proof fn lemma_row_sum_prefix(row: Seq<(usize, i32)>, p: spec_fn(int) -> bool, m: int)
    requires
        keys_unique(row),
        0 <= m <= row.len(),
    ensures
        row_sum(row.take(m), p) == sum_over(row_keys(row).take(m), |j: int| row_term(row, p, j)),
    decreases m,
{
    let h = |j: int| row_term(row, p, j);
    if m > 0 {
        lemma_row_sum_prefix(row, p, m - 1);
        assert(row.take(m).drop_last() =~= row.take(m - 1));
        assert(row_keys(row).take(m).drop_last() =~= row_keys(row).take(m - 1));
        lemma_lookup_at(row, m - 1);
    }
}

/// A partial row sum is bounded by the absolute sum of the whole row.
pub proof fn lemma_row_sum_bound(row: Seq<(usize, i32)>, p: spec_fn(int) -> bool, m: int)
    requires
        0 <= m <= row.len(),
    ensures
        -row_abs(row.take(m), p) <= row_sum(row.take(m), p) <= row_abs(row.take(m), p),
        0 <= row_abs(row.take(m), p) <= row_abs(row, p),
    decreases row.len(),
{
    if m == row.len() {
        assert(row.take(m) =~= row);
        lemma_row_sum_abs(row, p);
    } else {
        let t = row.drop_last();
        assert(row.take(m) =~= t.take(m));
        lemma_row_sum_bound(t, p, m);
    }
}

proof fn lemma_row_sum_abs(row: Seq<(usize, i32)>, p: spec_fn(int) -> bool)
    ensures
        -row_abs(row, p) <= row_sum(row, p) <= row_abs(row, p),
        0 <= row_abs(row, p),
    decreases row.len(),
{
    if row.len() > 0 {
        lemma_row_sum_abs(row.drop_last(), p);
    }
}

/// The number of entries whose keys satisfy `p`.
pub open spec fn row_count(row: Seq<(usize, i32)>, p: spec_fn(int) -> bool) -> int
    decreases row.len(),
{
    if row.len() == 0 {
        0
    } else {
        row_count(row.drop_last(), p) + (if p(row.last().0 as int) { 1int } else { 0 })
    }
}

/// `1` if `p(j)` and `j` is a key of the row, else `0`.
pub open spec fn row_count_term(row: Seq<(usize, i32)>, p: spec_fn(int) -> bool, j: int) -> int {
    if p(j) && row_lookup(row, j) is Some {
        1
    } else {
        0
    }
}

/// Counting the entries of a row with unique keys below `n` is counting the
/// keys among all indices below `n`.
pub proof fn lemma_row_count_all(row: Seq<(usize, i32)>, p: spec_fn(int) -> bool, n: int)
    requires
        keys_unique(row),
        forall|k: int| 0 <= k < row.len() ==> #[trigger] row[k].0 < n,
    ensures
        row_count(row, p) == sum_to(|j: int| row_count_term(row, p, j), n),
{
    let h = |j: int| row_count_term(row, p, j);
    let keys = row_keys(row);
    lemma_row_count_prefix(row, p, row.len() as int);
    assert(row.take(row.len() as int) =~= row);
    assert(keys.take(row.len() as int) =~= keys);
    assert forall|a: int, b: int| 0 <= a < keys.len() && 0 <= b < keys.len() && a != b implies keys[a] != keys[b] by {
        assert(row[a].0 != row[b].0);
    }
    assert forall|k: int| 0 <= k < keys.len() implies #[trigger] keys[k] < n by {
        assert(row[k].0 < n);
    }
    assert forall|j: int| 0 <= j < n && !occurs(keys, j) implies #[trigger] h(j) == 0 by {
        assert forall|k: int| 0 <= k < row.len() implies #[trigger] row[k].0 as int != j by {
            if row[k].0 as int == j {
                assert(keys[k] as int == j);
            }
        }
        lemma_lookup_absent(row, j);
    }
    lemma_sum_over_distinct(keys, h, n);
}

proof fn lemma_row_count_prefix(row: Seq<(usize, i32)>, p: spec_fn(int) -> bool, m: int)
    requires
        keys_unique(row),
        0 <= m <= row.len(),
    ensures
        row_count(row.take(m), p) == sum_over(row_keys(row).take(m), |j: int| row_count_term(row, p, j)),
    decreases m,
{
    if m > 0 {
        lemma_row_count_prefix(row, p, m - 1);
        assert(row.take(m).drop_last() =~= row.take(m - 1));
        assert(row_keys(row).take(m).drop_last() =~= row_keys(row).take(m - 1));
        lemma_lookup_at(row, m - 1);
    }
}

/// Each stored value is at most `2^31` in absolute value, so a row's
/// absolute sum is at most its length times that.
pub proof fn lemma_row_abs_len(row: Seq<(usize, i32)>, p: spec_fn(int) -> bool)
    ensures
        0 <= row_abs(row, p) <= row.len() * 2147483648,
    decreases row.len(),
{
    if row.len() > 0 {
        lemma_row_abs_len(row.drop_last(), p);
    }
}

} // verus!
