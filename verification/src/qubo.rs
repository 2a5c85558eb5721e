//! Quadratic Unconstrained Binary Optimization: minimize
//! `E(x) = sum over j <= i of Q[i][j] * x[i] * x[j]` over binary `x`.
//!
//! The matrix is stored as a symmetric sparse adjacency list. Its model is
//! [`Qubo::entry`], the stored coefficient of `(i, j)` if there is one, with
//! [`Qubo::coef`] reading a missing entry as `0`.

use vstd::prelude::*;
use crate::text::{decimal, decimal_text};
use crate::sums::{sum_to, lemma_sum_to_ext, lemma_sum_to_zero};
use crate::sorted::{strictly_sorted, insert_unique_sorted};
use crate::sparse_row::{
    row_lookup, keys_unique, row_value, lemma_lookup_push, row_count, row_count_term,
    lemma_row_count_all, lemma_lookup_absent, lemma_lookup_present, lemma_lookup_at,
    lemma_lookup_update,
};

verus! {

/// Integer coefficient type used in the Q matrix.
pub type Coefficient = i32;

/// The summary `Qubo(variables: {vars}, entries: {entries})`, both counts
/// in decimal.
pub open spec fn qubo_summary(vars: nat, entries: nat) -> Seq<char> {
    "Qubo(variables: "@ + decimal(vars) + ", entries: "@ + decimal(entries) + ")"@
}

/// The summary text for the two counts.
fn summary_text(vars: usize, entries: usize) -> (r: String)
    ensures
        r@ == qubo_summary(vars as nat, entries as nat),
{
    let mut s = String::from_str("Qubo(variables: ");
    let v = decimal_text(vars);
    s.append(v.as_str());
    s.append(", entries: ");
    let e = decimal_text(entries);
    s.append(e.as_str());
    s.append(")");
    s
}

/// Counting the entries of a row with an always-true predicate counts them all.
proof fn lemma_row_count_true(row: Seq<(usize, i32)>)
    ensures
        row_count(row, |j: int| true) == row.len(),
    decreases row.len(),
{
    if row.len() > 0 {
        lemma_row_count_true(row.drop_last());
    }
}

/// The coefficient that a list of entries, applied in order with the last
/// write winning, gives to the pair `(a, b)` (and to `(b, a)`).
pub open spec fn entries_value(es: Seq<(usize, usize, i32)>, a: int, b: int) -> Option<i32>
    decreases es.len(),
{
    if es.len() == 0 {
        None
    } else {
        let e = es.last();
        if (a == e.0 && b == e.1) || (a == e.1 && b == e.0) {
            Some(e.2)
        } else {
            entries_value(es.drop_last(), a, b)
        }
    }
}

/// One more than the largest index that the entries name, `0` for none.
pub open spec fn entries_dim(es: Seq<(usize, usize, i32)>) -> int
    decreases es.len(),
{
    if es.len() == 0 {
        0
    } else {
        vstd::math::max(entries_dim(es.drop_last()), vstd::math::max(es.last().0 as int, es.last().1 as int) + 1)
    }
}

/// Every index named by a list of entries.
pub open spec fn entries_indices(es: Seq<(usize, usize, i32)>) -> Set<usize> {
    Set::new(|x: usize| exists|m: int| 0 <= m < es.len() && ((#[trigger] es[m]).0 == x || es[m].1 == x))
}

/// A QUBO problem instance.
///
/// `adj[i]` lists `(j, Q[i][j])` for every stored entry of row `i`, the
/// diagonal included, and `variables` lists, in increasing order, every
/// variable that has appeared in an entry.
#[derive(Debug, Clone)]
pub struct Qubo {
    adj: Vec<Vec<(usize, Coefficient)>>,
    variables: Vec<usize>,
}

impl Qubo {
    /// The internal dimension: one more than the largest index ever stored.
    pub closed spec fn dim(self) -> nat {
        self.adj@.len()
    }

    /// The stored coefficient `Q[i][j]`, if the entry exists.
    pub closed spec fn entry(self, i: int, j: int) -> Option<i32> {
        if 0 <= i < self.adj@.len() {
            row_lookup(self.adj@[i]@, j)
        } else {
            None
        }
    }

    /// `Q[i][j]`, with a missing entry read as `0`.
    pub open spec fn coef(self, i: int, j: int) -> int {
        match self.entry(i, j) {
            Some(v) => v as int,
            None => 0,
        }
    }

    /// The stored entries of row `i`, in storage order.
    pub closed spec fn row(self, i: int) -> Seq<(usize, i32)> {
        self.adj@[i]@
    }

    /// The variables that appear in the problem, increasing.
    pub closed spec fn vars(self) -> Seq<usize> {
        self.variables@
    }

    /// The representation invariant.
    pub closed spec fn wf(self) -> bool {
        &&& forall|i: int| 0 <= i < self.adj@.len() ==> keys_unique(#[trigger] self.adj@[i]@)
        &&& forall|i: int, k: int|
            0 <= i < self.adj@.len() && 0 <= k < self.adj@[i]@.len() ==> #[trigger] self.adj@[i]@[k].0 < self.adj@.len()
        &&& forall|i: int, j: int| #[trigger] self.entry(i, j) == self.entry(j, i)
        &&& strictly_sorted(self.variables@)
        &&& forall|k: int| 0 <= k < self.variables@.len() ==> #[trigger] self.variables@[k] < self.adj@.len()
        &&& forall|i: int| 0 <= i < self.adj@.len() && #[trigger] self.adj@[i]@.len() > 0 ==> self.variables@.contains(i as usize)
    }

    /// What the invariant tells a user of the model.
    pub proof fn lemma_wf(self)
        requires
            self.wf(),
        ensures
            forall|i: int, j: int| #[trigger] self.entry(i, j) == self.entry(j, i),
            forall|i: int, j: int| #[trigger] self.entry(i, j) is Some ==> 0 <= i < self.dim() && 0 <= j < self.dim(),
            forall|i: int, j: int| #[trigger] self.entry(i, j) is Some ==> self.vars().contains(i as usize),
            forall|i: int| 0 <= i < self.dim() ==> keys_unique(#[trigger] self.row(i)),
            forall|i: int, k: int| 0 <= i < self.dim() && 0 <= k < self.row(i).len() ==> #[trigger] self.row(i)[k].0 < self.dim(),
            forall|i: int, j: int| 0 <= i < self.dim() ==> #[trigger] self.entry(i, j) == row_lookup(self.row(i), j),
            strictly_sorted(self.vars()),
            forall|k: int| 0 <= k < self.vars().len() ==> #[trigger] self.vars()[k] < self.dim(),
            self.dim() <= usize::MAX,
    {
        assert(self.adj.len() == self.adj@.len());
        assert forall|i: int, j: int| #[trigger] self.entry(i, j) is Some implies 0 <= i < self.dim() && 0 <= j < self.dim() && self.vars().contains(i as usize) by {
            lemma_lookup_present(self.adj@[i]@, j);
        }
    }

    /// Creates a new empty [`Qubo`].
    pub fn new() -> (q: Qubo)
        ensures
            q.wf(),
            q.dim() == 0,
            q.vars().len() == 0,
            forall|i: int, j: int| #[trigger] q.entry(i, j) is None,
    {
        Qubo { adj: Vec::new(), variables: Vec::new() }
    }

    /// Creates a [`Qubo`] over the variables `0..n` with no entries.
    pub fn with_variables(n: usize) -> (q: Qubo)
        ensures
            q.wf(),
            q.dim() == n,
            q.vars() == Seq::new(n as nat, |k: int| k as usize),
            forall|i: int, j: int| #[trigger] q.entry(i, j) is None,
    {
        let mut adj: Vec<Vec<(usize, Coefficient)>> = Vec::new();
        let mut variables: Vec<usize> = Vec::new();
        let mut k: usize = 0;
        while k < n
            invariant
                k <= n,
                adj@.len() == k,
                forall|i: int| 0 <= i < k ==> (#[trigger] adj@[i])@.len() == 0,
                variables@ == Seq::new(k as nat, |m: int| m as usize),
            decreases n - k,
        {
            adj.push(Vec::new());
            variables.push(k);
            k += 1;
            proof {
                assert(variables@ =~= Seq::new(k as nat, |m: int| m as usize));
            }
        }
        let q = Qubo { adj, variables };
        proof {
            assert forall|i: int, j: int| #[trigger] q.entry(i, j) is None by {
                if 0 <= i < q.adj@.len() {
                    assert(q.adj@[i]@.len() == 0);
                }
            }
            assert forall|i: int| 0 <= i < q.adj@.len() implies keys_unique(#[trigger] q.adj@[i]@) by {
                assert(q.adj@[i]@.len() == 0);
            }
        }
        q
    }

    /// Creates a [`Qubo`] from a list of `(i, j, coefficient)` entries, each
    /// applied with [`Qubo::set_q`]: a later entry for the same pair wins.
    pub fn from_entries(entries: &[(usize, usize, Coefficient)]) -> (q: Qubo)
        requires
            forall|k: int| 0 <= k < entries@.len() ==> (#[trigger] entries@[k]).0 < usize::MAX && entries@[k].1 < usize::MAX,
        ensures
            q.wf(),
            q.dim() == entries_dim(entries@),
            forall|a: int, b: int| #[trigger] q.entry(a, b) == entries_value(entries@, a, b),
            q.vars().to_set() == entries_indices(entries@),
    {
        let mut q = Qubo::new();
        let mut k: usize = 0;
        proof {
            assert(entries@.take(0) =~= Seq::<(usize, usize, Coefficient)>::empty());
            assert(q.vars().to_set() =~= entries_indices(entries@.take(0)));
        }
        while k < entries.len()
            invariant
                0 <= k <= entries@.len(),
                q.wf(),
                forall|kk: int| 0 <= kk < entries@.len() ==> (#[trigger] entries@[kk]).0 < usize::MAX && entries@[kk].1 < usize::MAX,
                q.dim() == entries_dim(entries@.take(k as int)),
                forall|a: int, b: int| #[trigger] q.entry(a, b) == entries_value(entries@.take(k as int), a, b),
                q.vars().to_set() == entries_indices(entries@.take(k as int)),
            decreases entries@.len() - k,
        {
            let (i, j, v) = entries[k];
            let ghost before = q;
            q.set_q(i, j, v);
            proof {
                let t = entries@.take(k as int + 1);
                assert(t.drop_last() =~= entries@.take(k as int));
                assert(t.last() == entries@[k as int]);
                assert(entries_indices(t) =~= entries_indices(entries@.take(k as int)).insert(i).insert(j)) by {
                    assert forall|x: usize| entries_indices(t).contains(x) implies
                        entries_indices(entries@.take(k as int)).insert(i).insert(j).contains(x) by {
                        let m = choose|m: int| 0 <= m < t.len() && ((#[trigger] t[m]).0 == x || t[m].1 == x);
                        if m < k {
                            assert(entries@.take(k as int)[m] == t[m]);
                        }
                    }
                    assert forall|x: usize| entries_indices(entries@.take(k as int)).insert(i).insert(j).contains(x) implies
                        entries_indices(t).contains(x) by {
                        if x == i || x == j {
                            assert(t[k as int] == entries@[k as int]);
                        } else {
                            let m = choose|m: int| 0 <= m < k && ((#[trigger] entries@.take(k as int)[m]).0 == x || entries@.take(k as int)[m].1 == x);
                            assert(t[m] == entries@.take(k as int)[m]);
                        }
                    }
                }
            }
            k += 1;
        }
        proof {
            assert(entries@.take(entries@.len() as int) =~= entries@);
        }
        q
    }

    /// Returns the stored `(j, Q[i][j])` pairs of row `i`; the same as
    /// [`Qubo::iter_on_adjacency`].
    pub fn neighbors(&self, i: usize) -> (r: &[(usize, Coefficient)])
        ensures
            i < self.dim() ==> r@ == self.row(i as int),
            i >= self.dim() ==> r@.len() == 0,
    {
        self.iter_on_adjacency(i)
    }

    /// Returns the internal dimension (`max_variable_id + 1`).
    pub fn len(&self) -> (r: usize)
        ensures
            r == self.dim(),
    {
        self.adj.len()
    }

    /// Returns `true` if the QUBO has no variables.
    pub fn is_empty(&self) -> (r: bool)
        ensures
            r == (self.vars().len() == 0),
    {
        self.variables.len() == 0
    }

    /// Returns the number of variables that have at least one entry.
    pub fn num_of_variables(&self) -> (r: usize)
        ensures
            r == self.vars().len(),
    {
        self.variables.len()
    }

    /// Returns the variables that appear in the problem, in increasing order.
    pub fn iter_on_variables(&self) -> (r: &[usize])
        ensures
            r@ == self.vars(),
    {
        self.variables.as_slice()
    }

    /// Returns the stored `(j, Q[i][j])` pairs of row `i`, empty when `i` is
    /// beyond the dimension.
    pub fn iter_on_adjacency(&self, i: usize) -> (r: &[(usize, Coefficient)])
        ensures
            i < self.dim() ==> r@ == self.row(i as int),
            i >= self.dim() ==> r@.len() == 0,
    {
        if i < self.adj.len() {
            self.adj[i].as_slice()
        } else {
            &[]
        }
    }

    /// Gets the coefficient `Q[i][j]`, returning `0` if no such entry exists.
    pub fn get_q(&self, i: usize, j: usize) -> (r: Coefficient)
        requires
            self.wf(),
        ensures
            r as int == self.coef(i as int, j as int),
    {
        if i < self.adj.len() {
            let row = &self.adj[i];
            let mut k: usize = 0;
            while k < row.len()
                invariant
                    0 <= k <= row@.len(),
                    i < self.adj@.len(),
                    row@ == self.adj@[i as int]@,
                    keys_unique(row@),
                    forall|kk: int| 0 <= kk < k ==> #[trigger] row@[kk].0 != j,
                decreases row@.len() - k,
            {
                if row[k].0 == j {
                    proof {
                        lemma_lookup_at(row@, k as int);
                    }
                    return row[k].1;
                }
                k += 1;
            }
            proof {
                lemma_lookup_absent(row@, j as int);
            }
            0
        } else {
            0
        }
    }

    /// Returns `true` if an entry for `(i, j)` exists in the Q matrix.
    pub fn has_entry(&self, i: usize, j: usize) -> (r: bool)
        requires
            self.wf(),
        ensures
            r == self.entry(i as int, j as int) is Some,
    {
        if i < self.adj.len() {
            let row = &self.adj[i];
            let mut k: usize = 0;
            while k < row.len()
                invariant
                    0 <= k <= row@.len(),
                    i < self.adj@.len(),
                    row@ == self.adj@[i as int]@,
                    keys_unique(row@),
                    forall|kk: int| 0 <= kk < k ==> #[trigger] row@[kk].0 != j,
                decreases row@.len() - k,
            {
                if row[k].0 == j {
                    proof {
                        lemma_lookup_at(row@, k as int);
                    }
                    return true;
                }
                k += 1;
            }
            proof {
                lemma_lookup_absent(row@, j as int);
            }
            false
        } else {
            false
        }
    }

    /// Returns the number of stored entries of row `i`, the diagonal included.
    pub fn degree(&self, i: usize) -> (r: usize)
        requires
            self.wf(),
        ensures
            r == sum_to(|j: int| self.entry_term(i as int, j), self.dim() as int),
    {
        proof {
            if i < self.adj@.len() {
                let all = |j: int| true;
                lemma_row_count_all(self.adj@[i as int]@, all, self.adj@.len() as int);
                self.lemma_row_count_all_len(i as int);
                assert forall|j: int| 0 <= j < self.adj@.len() implies #[trigger] row_count_term(self.adj@[i as int]@, all, j)
                    == self.entry_term(i as int, j) by {}
                lemma_sum_to_ext(|j: int| row_count_term(self.adj@[i as int]@, all, j), |j: int| self.entry_term(i as int, j), self.adj@.len() as int);
            } else {
                assert forall|j: int| 0 <= j < self.adj@.len() implies #[trigger] self.entry_term(i as int, j) == 0 by {}
                lemma_sum_to_zero(|j: int| self.entry_term(i as int, j), self.adj@.len() as int);
            }
        }
        if i < self.adj.len() {
            self.adj[i].len()
        } else {
            0
        }
    }

    /// `1` if `(i, j)` is stored, else `0`.
    pub open spec fn entry_term(self, i: int, j: int) -> int {
        if self.entry(i, j) is Some {
            1
        } else {
            0
        }
    }

    /// `1` if `(i, j)` with `i <= j` is stored, else `0`.
    pub open spec fn upper_entry_term(self, i: int, j: int) -> int {
        if j >= i && self.entry(i, j) is Some {
            1
        } else {
            0
        }
    }

    /// The number of stored entries of row `i` with `j >= i`.
    pub open spec fn upper_row_count(self, i: int) -> int {
        sum_to(|j: int| self.upper_entry_term(i, j), self.dim() as int)
    }

    /// The number of stored entries `(i, j)` with `i <= j`.
    pub open spec fn entry_count(self) -> int {
        sum_to(|i: int| self.upper_row_count(i), self.dim() as int)
    }

    proof fn lemma_row_count_all_len(self, i: int)
        requires
            0 <= i < self.adj@.len(),
        ensures
            row_count(self.adj@[i]@, |j: int| true) == self.adj@[i]@.len(),
        decreases self.adj@[i]@.len(),
    {
        lemma_row_count_true(self.adj@[i]@);
    }

    /// Returns the number of entries in the upper triangle of the Q matrix,
    /// the diagonal included: each symmetric pair is counted once.
    pub fn num_entries(&self) -> (r: usize)
        requires
            self.wf(),
            self.entry_count() <= usize::MAX,
        ensures
            r == self.entry_count(),
    {
        let n = self.adj.len();
        let mut total: usize = 0;
        let mut i: usize = 0;
        proof {
            assert forall|a: int| 0 <= a < n implies #[trigger] self.upper_row_count(a) >= 0 by {
                assert forall|j: int| 0 <= j < n implies #[trigger] self.upper_entry_term(a, j) >= 0 by {}
                crate::sums::lemma_sum_to_nonneg_mono(|j: int| self.upper_entry_term(a, j), n as int, n as int);
            }
        }
        while i < n
            invariant
                0 <= i <= n,
                n == self.adj@.len(),
                self.wf(),
                self.entry_count() <= usize::MAX,
                forall|a: int| 0 <= a < n ==> #[trigger] self.upper_row_count(a) >= 0,
                total == sum_to(|a: int| self.upper_row_count(a), i as int),
            decreases n - i,
        {
            let row = &self.adj[i];
            let ghost p = |j: int| j >= i as int;
            let mut c: usize = 0;
            let mut k: usize = 0;
            while k < row.len()
                invariant
                    0 <= k <= row@.len(),
                    row@ == self.adj@[i as int]@,
                    p == (|j: int| j >= i as int),
                    c == row_count(row@.take(k as int), p),
                    c <= k,
                decreases row@.len() - k,
            {
                proof {
                    assert(row@.take(k + 1).drop_last() =~= row@.take(k as int));
                }
                if row[k].0 >= i {
                    c += 1;
                }
                k += 1;
            }
            proof {
                assert(row@.take(row@.len() as int) =~= row@);
                lemma_row_count_all(row@, p, n as int);
                assert forall|j: int| 0 <= j < n implies #[trigger] row_count_term(row@, p, j) == self.upper_entry_term(i as int, j) by {}
                lemma_sum_to_ext(|j: int| row_count_term(row@, p, j), |j: int| self.upper_entry_term(i as int, j), n as int);
                crate::sums::lemma_sum_to_nonneg_mono(|a: int| self.upper_row_count(a), i + 1, n as int);
            }
            total = total + c;
            i += 1;
        }
        total
    }

    /// All stored entries `(i, j, Q[i][j])` with `i <= j`, each once.
    pub fn entries(&self) -> (r: Vec<(usize, usize, Coefficient)>)
        requires
            self.wf(),
        ensures
            forall|t: int| 0 <= t < r@.len() ==> (#[trigger] r@[t]).0 <= r@[t].1
                && self.entry(r@[t].0 as int, r@[t].1 as int) == Some(r@[t].2),
            forall|i: int, j: int| 0 <= i <= j && #[trigger] self.entry(i, j) is Some ==>
                exists|t: int| 0 <= t < r@.len() && (#[trigger] r@[t]).0 == i && r@[t].1 == j,
            forall|t1: int, t2: int| 0 <= t1 < r@.len() && 0 <= t2 < r@.len() && t1 != t2 ==>
                (#[trigger] r@[t1]).0 != (#[trigger] r@[t2]).0 || r@[t1].1 != r@[t2].1,
    {
        let n = self.adj.len();
        let mut r: Vec<(usize, usize, Coefficient)> = Vec::new();
        let mut i: usize = 0;
        while i < n
            invariant
                0 <= i <= n,
                n == self.adj@.len(),
                self.wf(),
                forall|t: int| 0 <= t < r@.len() ==> (#[trigger] r@[t]).0 <= r@[t].1 && r@[t].0 < i
                    && self.entry(r@[t].0 as int, r@[t].1 as int) == Some(r@[t].2),
                forall|a: int, j: int| 0 <= a < i && a <= j && #[trigger] self.entry(a, j) is Some ==>
                    exists|t: int| 0 <= t < r@.len() && (#[trigger] r@[t]).0 == a && r@[t].1 == j,
                forall|t1: int, t2: int| 0 <= t1 < r@.len() && 0 <= t2 < r@.len() && t1 != t2 ==>
                    (#[trigger] r@[t1]).0 != (#[trigger] r@[t2]).0 || r@[t1].1 != r@[t2].1,
            decreases n - i,
        {
            let row = &self.adj[i];
            let ghost start = r@.len();
            let mut k: usize = 0;
            while k < row.len()
                invariant
                    0 <= k <= row@.len(),
                    0 <= i < n,
                    n == self.adj@.len(),
                    row@ == self.adj@[i as int]@,
                    self.wf(),
                    start <= r@.len(),
                    forall|t: int| 0 <= t < r@.len() ==> (#[trigger] r@[t]).0 <= r@[t].1 && r@[t].0 <= i
                        && self.entry(r@[t].0 as int, r@[t].1 as int) == Some(r@[t].2),
                    forall|t: int| 0 <= t < start ==> (#[trigger] r@[t]).0 < i,
                    forall|t: int| start <= t < r@.len() ==> (#[trigger] r@[t]).0 == i
                        && exists|kk: int| 0 <= kk < k && row@[kk].0 == r@[t].1,
                    forall|a: int, j: int| 0 <= a < i && a <= j && #[trigger] self.entry(a, j) is Some ==>
                        exists|t: int| 0 <= t < r@.len() && (#[trigger] r@[t]).0 == a && r@[t].1 == j,
                    forall|kk: int| 0 <= kk < k && row@[kk].0 >= i ==>
                        exists|t: int| 0 <= t < r@.len() && (#[trigger] r@[t]).0 == i && r@[t].1 == row@[kk].0,
                    forall|t1: int, t2: int| 0 <= t1 < r@.len() && 0 <= t2 < r@.len() && t1 != t2 ==>
                        (#[trigger] r@[t1]).0 != (#[trigger] r@[t2]).0 || r@[t1].1 != r@[t2].1,
                decreases row@.len() - k,
            {
                let (j, v) = row[k];
                if j >= i {
                    proof {
                        lemma_lookup_at(row@, k as int);
                    }
                    let ghost before = r@;
                    r.push((i, j, v));
                    proof {
                        assert forall|t1: int, t2: int| 0 <= t1 < r@.len() && 0 <= t2 < r@.len() && t1 != t2 implies
                            (#[trigger] r@[t1]).0 != (#[trigger] r@[t2]).0 || r@[t1].1 != r@[t2].1 by {
                            if t1 < before.len() && t2 < before.len() {
                                assert(r@[t1] == before[t1] && r@[t2] == before[t2]);
                            } else {
                                let t = if t1 < before.len() { t1 } else { t2 };
                                assert(r@[t] == before[t]);
                                if t >= start {
                                    let kk = choose|kk: int| 0 <= kk < k && row@[kk].0 == before[t].1;
                                    assert(row@[kk].0 != row@[k as int].0);
                                }
                            }
                        }
                        assert forall|t: int| start <= t < r@.len() implies (#[trigger] r@[t]).0 == i
                            && exists|kk: int| 0 <= kk < k + 1 && row@[kk].0 == r@[t].1 by {
                            if t < before.len() {
                                assert(r@[t] == before[t]);
                                let kk = choose|kk: int| 0 <= kk < k && row@[kk].0 == before[t].1;
                                assert(row@[kk].0 == r@[t].1);
                            } else {
                                assert(row@[k as int].0 == r@[t].1);
                            }
                        }
                        assert forall|a: int, j2: int| 0 <= a < i && a <= j2 && #[trigger] self.entry(a, j2) is Some implies
                            exists|t: int| 0 <= t < r@.len() && (#[trigger] r@[t]).0 == a && r@[t].1 == j2 by {
                            let t = choose|t: int| 0 <= t < before.len() && (#[trigger] before[t]).0 == a && before[t].1 == j2;
                            assert(r@[t] == before[t]);
                        }
                        assert forall|kk: int| 0 <= kk < k + 1 && row@[kk].0 >= i implies
                            exists|t: int| 0 <= t < r@.len() && (#[trigger] r@[t]).0 == i && r@[t].1 == row@[kk].0 by {
                            if kk == k {
                                assert(r@[r@.len() - 1].0 == i && r@[r@.len() - 1].1 == row@[kk].0);
                            } else {
                                let t = choose|t: int| 0 <= t < before.len() && (#[trigger] before[t]).0 == i && before[t].1 == row@[kk].0;
                                assert(r@[t] == before[t]);
                            }
                        }
                    }
                } else {
                    proof {
                        assert forall|t: int| start <= t < r@.len() implies (#[trigger] r@[t]).0 == i
                            && exists|kk: int| 0 <= kk < k + 1 && row@[kk].0 == r@[t].1 by {
                            let kk = choose|kk: int| 0 <= kk < k && row@[kk].0 == r@[t].1;
                            assert(row@[kk].0 == r@[t].1);
                        }
                    }
                }
                k += 1;
            }
            proof {
                assert forall|a: int, j: int| 0 <= a < i + 1 && a <= j && #[trigger] self.entry(a, j) is Some implies
                    exists|t: int| 0 <= t < r@.len() && (#[trigger] r@[t]).0 == a && r@[t].1 == j by {
                    if a == i as int {
                        crate::sparse_row::lemma_lookup_present(row@, j);
                        let kk = choose|kk: int| 0 <= kk < row@.len() && row@[kk].0 as int == j && row@[kk].1 == row_lookup(row@, j)->0;
                        assert(row@[kk].0 >= i);
                    }
                }
            }
            i += 1;
        }
        r
    }

    /// A summary: `Qubo(variables: N, entries: M)`, or `Qubo(empty)`.
    pub fn display(&self) -> (r: String)
        requires
            self.wf(),
            self.entry_count() <= usize::MAX,
        ensures
            self.vars().len() == 0 ==> r@ == "Qubo(empty)"@,
            self.vars().len() > 0 ==> r@ == qubo_summary(self.vars().len(), self.entry_count() as nat),
    {
        if self.variables.len() == 0 {
            "Qubo(empty)".to_string()
        } else {
            summary_text(self.variables.len(), self.num_entries())
        }
    }

    /// Appends empty rows until the dimension reaches `n`.
    fn ensure_capacity(&mut self, n: usize)
        requires
            old(self).wf(),
        ensures
            final(self).wf(),
            final(self).dim() == if old(self).dim() < n { n as nat } else { old(self).dim() },
            final(self).vars() == old(self).vars(),
            forall|i: int| 0 <= i < old(self).dim() ==> #[trigger] final(self).adj@[i] == old(self).adj@[i],
            forall|i: int, j: int| #[trigger] final(self).entry(i, j) == old(self).entry(i, j),
    {
        while self.adj.len() < n
            invariant
                self.wf(),
                self.adj@.len() <= (if old(self).dim() < n { n as nat } else { old(self).dim() }),
                self.adj@.len() >= old(self).dim(),
                self.vars() == old(self).vars(),
                forall|i: int| 0 <= i < old(self).dim() ==> #[trigger] self.adj@[i] == old(self).adj@[i],
                forall|i: int| old(self).dim() <= i < self.adj@.len() ==> #[trigger] self.adj@[i]@.len() == 0,
                forall|i: int, j: int| #[trigger] self.entry(i, j) == old(self).entry(i, j),
            decreases n - self.adj@.len(),
        {
            let ghost before = *self;
            self.adj.push(Vec::new());
            proof {
                assert forall|i: int, j: int| #[trigger] self.entry(i, j) == before.entry(i, j) by {
                    if i == before.adj@.len() {
                        assert(self.adj@[i]@.len() == 0);
                    } else if 0 <= i < before.adj@.len() {
                        assert(self.adj@[i] == before.adj@[i]);
                    }
                }
                assert forall|i: int, k: int|
                    0 <= i < self.adj@.len() && 0 <= k < self.adj@[i]@.len() implies #[trigger] self.adj@[i]@[k].0 < self.adj@.len() by {
                    assert(i < before.adj@.len());
                    assert(self.adj@[i] == before.adj@[i]);
                }
                assert forall|i: int| 0 <= i < self.adj@.len() implies keys_unique(#[trigger] self.adj@[i]@) by {
                    if i < before.adj@.len() {
                        assert(self.adj@[i] == before.adj@[i]);
                    }
                }
                assert forall|k: int| 0 <= k < self.variables@.len() implies #[trigger] self.variables@[k] < self.adj@.len() by {
                    assert(before.variables@[k] < before.adj@.len());
                }
                assert forall|i: int| 0 <= i < self.adj@.len() && #[trigger] self.adj@[i]@.len() > 0 implies self.variables@.contains(i as usize) by {
                    assert(self.adj@[i] == before.adj@[i]);
                }
            }
        }
    }

    /// Stores `Q[from][to] = v` in row `from` only, overwriting or appending.
    fn set_directed(&mut self, from: usize, to: usize, v: Coefficient)
        requires
            from < old(self).adj@.len(),
            keys_unique(old(self).adj@[from as int]@),
        ensures
            final(self).variables == old(self).variables,
            final(self).adj@.len() == old(self).adj@.len(),
            forall|a: int| 0 <= a < old(self).adj@.len() && a != from ==> #[trigger] final(self).adj@[a] == old(self).adj@[a],
            keys_unique(final(self).adj@[from as int]@),
            final(self).adj@[from as int]@.len() > 0,
            forall|j: int| #[trigger] row_lookup(final(self).adj@[from as int]@, j)
                == (if j == to as int { Some(v) } else { row_lookup(old(self).adj@[from as int]@, j) }),
            forall|k: int| 0 <= k < final(self).adj@[from as int]@.len() ==> (#[trigger] final(self).adj@[from as int]@[k]).0 == to
                || row_lookup(old(self).adj@[from as int]@, final(self).adj@[from as int]@[k].0 as int) is Some,
    {
        let n = self.adj[from].len();
        let mut k: usize = 0;
        while k < n
            invariant
                0 <= k <= n,
                *self == *old(self),
                from < self.adj@.len(),
                n == self.adj@[from as int]@.len(),
                keys_unique(self.adj@[from as int]@),
                forall|kk: int| 0 <= kk < k ==> #[trigger] self.adj@[from as int]@[kk].0 != to,
            decreases n - k,
        {
            if self.adj[from][k].0 == to {
                let ghost row = self.adj@[from as int]@;
                self.adj[from][k] = (to, v);
                proof {
                    assert(self.adj@[from as int]@ == row.update(k as int, (row[k as int].0, v)));
                    assert forall|j: int| #[trigger] row_lookup(self.adj@[from as int]@, j)
                        == (if j == to as int { Some(v) } else { row_lookup(row, j) }) by {
                        lemma_lookup_update(row, k as int, v, j);
                    }
                    let r2 = self.adj@[from as int]@;
                    assert forall|a: int, b: int| 0 <= a < r2.len() && 0 <= b < r2.len() && a != b implies #[trigger] r2[a].0 != #[trigger] r2[b].0 by {
                        assert(r2[a].0 == row[a].0 && r2[b].0 == row[b].0);
                    }
                    assert forall|kk: int| 0 <= kk < r2.len() implies (#[trigger] r2[kk]).0 == to
                        || row_lookup(row, r2[kk].0 as int) is Some by {
                        if r2[kk].0 != to {
                            lemma_lookup_at(row, kk);
                        }
                    }
                }
                return;
            }
            k += 1;
        }
        let ghost row = self.adj@[from as int]@;
        self.adj[from].push((to, v));
        proof {
            let r2 = self.adj@[from as int]@;
            assert(r2 == row.push((to, v)));
            lemma_lookup_absent(row, to as int);
            assert forall|j: int| #[trigger] row_lookup(r2, j)
                == (if j == to as int { Some(v) } else { row_lookup(row, j) }) by {
                lemma_lookup_push(row, (to, v), j);
            }
            assert forall|a: int, b: int| 0 <= a < r2.len() && 0 <= b < r2.len() && a != b implies #[trigger] r2[a].0 != #[trigger] r2[b].0 by {
                if a < row.len() && b < row.len() {
                    assert(r2[a] == row[a] && r2[b] == row[b]);
                } else if a < row.len() {
                    assert(r2[a] == row[a]);
                } else {
                    assert(r2[b] == row[b]);
                }
            }
            assert forall|kk: int| 0 <= kk < r2.len() implies (#[trigger] r2[kk]).0 == to
                || row_lookup(row, r2[kk].0 as int) is Some by {
                if kk < row.len() {
                    assert(r2[kk] == row[kk]);
                    lemma_lookup_at(row, kk);
                }
            }
        }
    }

    /// Adds `v` to `Q[from][to]` in row `from` only, appending a missing entry.
    fn add_directed(&mut self, from: usize, to: usize, v: Coefficient)
        requires
            from < old(self).adj@.len(),
            keys_unique(old(self).adj@[from as int]@),
            i32::MIN <= row_value(old(self).adj@[from as int]@, to as int) + v <= i32::MAX,
        ensures
            final(self).variables == old(self).variables,
            final(self).adj@.len() == old(self).adj@.len(),
            forall|a: int| 0 <= a < old(self).adj@.len() && a != from ==> #[trigger] final(self).adj@[a] == old(self).adj@[a],
            keys_unique(final(self).adj@[from as int]@),
            final(self).adj@[from as int]@.len() > 0,
            forall|j: int| #[trigger] row_lookup(final(self).adj@[from as int]@, j)
                == (if j == to as int {
                    Some((row_value(old(self).adj@[from as int]@, to as int) + v) as i32)
                } else {
                    row_lookup(old(self).adj@[from as int]@, j)
                }),
            forall|k: int| 0 <= k < final(self).adj@[from as int]@.len() ==> (#[trigger] final(self).adj@[from as int]@[k]).0 == to
                || row_lookup(old(self).adj@[from as int]@, final(self).adj@[from as int]@[k].0 as int) is Some,
    {
        let n = self.adj[from].len();
        let mut k: usize = 0;
        while k < n
            invariant
                0 <= k <= n,
                *self == *old(self),
                from < self.adj@.len(),
                n == self.adj@[from as int]@.len(),
                keys_unique(self.adj@[from as int]@),
                i32::MIN <= row_value(self.adj@[from as int]@, to as int) + v <= i32::MAX,
                forall|kk: int| 0 <= kk < k ==> #[trigger] self.adj@[from as int]@[kk].0 != to,
            decreases n - k,
        {
            if self.adj[from][k].0 == to {
                proof {
                    lemma_lookup_at(self.adj@[from as int]@, k as int);
                }
                let cur = self.adj[from][k].1;
                self.set_directed(from, to, cur + v);
                return;
            }
            k += 1;
        }
        proof {
            lemma_lookup_absent(self.adj@[from as int]@, to as int);
        }
        self.set_directed(from, to, v);
    }

    /// Inserts `v` into the sorted list of variables.
    fn ensure_variable(&mut self, v: usize)
        requires
            strictly_sorted(old(self).variables@),
        ensures
            final(self).adj == old(self).adj,
            strictly_sorted(final(self).variables@),
            final(self).variables@.to_set() == old(self).variables@.to_set().insert(v),
    {
        insert_unique_sorted(&mut self.variables, v);
    }

    /// Sets (or overwrites) `Q[i][j] = Q[j][i] = v`.
    ///
    /// For diagonal entries (`i == j`) the entry is stored once.
    pub fn set_q(&mut self, i: usize, j: usize, v: Coefficient)
        requires
            old(self).wf(),
            i < usize::MAX,
            j < usize::MAX,
        ensures
            final(self).wf(),
            final(self).dim() == vstd::math::max(old(self).dim() as int, vstd::math::max(i as int, j as int) + 1),
            forall|a: int, b: int| #[trigger] final(self).entry(a, b) == (
                if (a == i && b == j) || (a == j && b == i) { Some(v) } else { old(self).entry(a, b) }),
            final(self).vars().to_set() == old(self).vars().to_set().insert(i).insert(j),
    {
        let m = if i > j { i } else { j };
        self.ensure_capacity(m + 1);
        let ghost mid = *self;
        self.set_directed(i, j, v);
        if i != j {
            self.set_directed(j, i, v);
        }
        proof {
            assert forall|a: int, b: int| #[trigger] self.entry(a, b) == (
                if (a == i && b == j) || (a == j && b == i) { Some(v) } else { old(self).entry(a, b) }) by {
                assert(mid.entry(a, b) == old(self).entry(a, b));
                if 0 <= a < self.adj@.len() {
                    if a != i && a != j {
                        assert(self.adj@[a] == mid.adj@[a]);
                    }
                }
            }
        }
        let ghost pre = *self;
        self.ensure_variable(i);
        self.ensure_variable(j);
        proof {
            assert forall|a: int, b: int| #[trigger] self.entry(a, b) == pre.entry(a, b) by {}
            self.lemma_restore_wf(mid, i, j);
        }
    }

    /// Adds (or accumulates) `v` on entry `(i, j)`, and on `(j, i)`.
    pub fn add_q(&mut self, i: usize, j: usize, v: Coefficient)
        requires
            old(self).wf(),
            i < usize::MAX,
            j < usize::MAX,
            i32::MIN <= old(self).coef(i as int, j as int) + v <= i32::MAX,
        ensures
            final(self).wf(),
            final(self).dim() == vstd::math::max(old(self).dim() as int, vstd::math::max(i as int, j as int) + 1),
            forall|a: int, b: int| #[trigger] final(self).entry(a, b) == (
                if (a == i && b == j) || (a == j && b == i) {
                    Some((old(self).coef(i as int, j as int) + v) as i32)
                } else {
                    old(self).entry(a, b)
                }),
            final(self).vars().to_set() == old(self).vars().to_set().insert(i).insert(j),
    {
        let ghost w = (old(self).coef(i as int, j as int) + v) as i32;
        let m = if i > j { i } else { j };
        self.ensure_capacity(m + 1);
        let ghost mid = *self;
        assert(row_value(mid.adj@[i as int]@, j as int) == old(self).coef(i as int, j as int));
        self.add_directed(i, j, v);
        if i != j {
            proof {
                assert(self.adj@[j as int] == mid.adj@[j as int]);
                assert(mid.entry(j as int, i as int) == mid.entry(i as int, j as int));
            }
            self.add_directed(j, i, v);
        }
        proof {
            assert forall|a: int, b: int| #[trigger] self.entry(a, b) == (
                if (a == i && b == j) || (a == j && b == i) { Some(w) } else { old(self).entry(a, b) }) by {
                assert(mid.entry(a, b) == old(self).entry(a, b));
                if 0 <= a < self.adj@.len() {
                    if a != i && a != j {
                        assert(self.adj@[a] == mid.adj@[a]);
                    }
                }
            }
        }
        let ghost pre = *self;
        self.ensure_variable(i);
        self.ensure_variable(j);
        proof {
            assert forall|a: int, b: int| #[trigger] self.entry(a, b) == pre.entry(a, b) by {}
            self.lemma_restore_wf(mid, i, j);
        }
    }

    /// After rows `i` and `j` were rewritten symmetrically and both were
    /// recorded as variables, the invariant holds again.
    proof fn lemma_restore_wf(self, mid: Qubo, i: usize, j: usize)
        requires
            mid.wf(),
            i < mid.adj@.len(),
            j < mid.adj@.len(),
            self.adj@.len() == mid.adj@.len(),
            forall|a: int| 0 <= a < mid.adj@.len() && a != i && a != j ==> #[trigger] self.adj@[a] == mid.adj@[a],
            keys_unique(self.adj@[i as int]@),
            keys_unique(self.adj@[j as int]@),
            self.adj@[i as int]@.len() > 0,
            self.adj@[j as int]@.len() > 0,
            forall|k: int| 0 <= k < self.adj@[i as int]@.len() ==> (#[trigger] self.adj@[i as int]@[k]).0 == j
                || row_lookup(mid.adj@[i as int]@, self.adj@[i as int]@[k].0 as int) is Some,
            forall|k: int| 0 <= k < self.adj@[j as int]@.len() ==> (#[trigger] self.adj@[j as int]@[k]).0 == i
                || row_lookup(mid.adj@[j as int]@, self.adj@[j as int]@[k].0 as int) is Some,
            forall|a: int, b: int| #[trigger] self.entry(a, b) == (
                if (a == i && b == j) || (a == j && b == i) { self.entry(i as int, j as int) } else { mid.entry(a, b) }),
            self.entry(i as int, j as int) == self.entry(j as int, i as int),
            strictly_sorted(self.variables@),
            self.variables@.to_set() == mid.variables@.to_set().insert(i).insert(j),
        ensures
            self.wf(),
    {
        assert forall|a: int, b: int| #[trigger] self.entry(a, b) == self.entry(b, a) by {
            assert(mid.entry(a, b) == mid.entry(b, a));
        }
        assert forall|a: int, k: int|
            0 <= a < self.adj@.len() && 0 <= k < self.adj@[a]@.len() implies #[trigger] self.adj@[a]@[k].0 < self.adj@.len() by {
            if a == i as int && self.adj@[a]@[k].0 != j {
                lemma_lookup_present(mid.adj@[a]@, self.adj@[a]@[k].0 as int);
            } else if a == j as int && self.adj@[a]@[k].0 != i {
                lemma_lookup_present(mid.adj@[a]@, self.adj@[a]@[k].0 as int);
            } else if a != i as int && a != j as int {
                assert(self.adj@[a] == mid.adj@[a]);
            }
        }
        assert forall|a: int| 0 <= a < self.adj@.len() implies keys_unique(#[trigger] self.adj@[a]@) by {
            if a != i as int && a != j as int {
                assert(self.adj@[a] == mid.adj@[a]);
            }
        }
        assert forall|k: int| 0 <= k < self.variables@.len() implies #[trigger] self.variables@[k] < self.adj@.len() by {
            let x = self.variables@[k];
            assert(self.variables@.to_set().contains(x));
            if x != i && x != j {
                assert(mid.variables@.to_set().contains(x));
                let kk = choose|kk: int| 0 <= kk < mid.variables@.len() && mid.variables@[kk] == x;
                assert(mid.variables@[kk] < mid.adj@.len());
            }
        }
        assert forall|a: int| 0 <= a < self.adj@.len() && #[trigger] self.adj@[a]@.len() > 0 implies self.variables@.contains(a as usize) by {
            if a == i as int {
                assert(self.variables@.to_set().contains(i));
            } else if a == j as int {
                assert(self.variables@.to_set().contains(j));
            } else {
                assert(self.adj@[a] == mid.adj@[a]);
                assert(mid.variables@.contains(a as usize));
                assert(mid.variables@.to_set().contains(a as usize));
                assert(self.variables@.to_set().contains(a as usize));
            }
        }
    }
}

} // verus!
