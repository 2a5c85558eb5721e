//! The QUBO energy and flip gains: their definitions over the matrix model,
//! the flip law that ties them together, and the executable evaluators.

use vstd::prelude::*;
use crate::sums::{
    sum_to, sum_over, occurs, lemma_sum_over_distinct, lemma_sum_to_ext, lemma_sum_to_point,
    lemma_sum_to_zero_tail, lemma_sum_to_zero, lemma_sum_to_neg, lemma_sum_to_split,
    lemma_sum_over_take_next, all_distinct,
};
use crate::sparse_row::{
    row_lookup, row_sum, row_abs, row_term, lemma_row_sum_all, lemma_row_sum_bound,
};
use crate::qubo::{Qubo, Coefficient};

verus! {

impl Qubo {
    /// `Q[i][j] * x[i] * x[j]`.
    pub open spec fn pair_term(self, x: Seq<bool>, i: int, j: int) -> int {
        if x[i] && x[j] {
            self.coef(i, j)
        } else {
            0
        }
    }

    /// The lower-triangle part of row `i` of the energy.
    pub open spec fn energy_row(self, x: Seq<bool>, i: int) -> int {
        sum_to(|j: int| self.pair_term(x, i, j), i + 1)
    }

    /// The energy `E(x)`: the sum of `Q[i][j] * x[i] * x[j]` over `j <= i`.
    pub open spec fn energy(self, x: Seq<bool>) -> int {
        sum_to(|i: int| self.energy_row(x, i), self.dim() as int)
    }

    /// `Q[i][i]` plus the sum of `Q[i][j]` over the other `j` with `x[j]`:
    /// what flipping `i` adds to or removes from the energy.
    pub open spec fn field(self, x: Seq<bool>, i: int) -> int {
        sum_to(|j: int| self.field_term(x, i, j), self.dim() as int)
    }

    /// `Q[i][j]` when `j == i` or `x[j]`, else `0`.
    pub open spec fn field_term(self, x: Seq<bool>, i: int, j: int) -> int {
        if j == i || x[j] {
            self.coef(i, j)
        } else {
            0
        }
    }

    /// The change in energy when variable `i` is flipped.
    pub open spec fn flip_gain(self, x: Seq<bool>, i: int) -> int {
        if x[i] {
            -self.field(x, i)
        } else {
            self.field(x, i)
        }
    }

    /// Every energy and every flip gain of every assignment fits an `i32`,
    /// and no coefficient is `i32::MIN` (a flip may negate one).
    pub open spec fn fits_i32(self) -> bool {
        &&& forall|x: Seq<bool>| x.len() >= self.dim() ==> i32::MIN <= #[trigger] self.energy(x) <= i32::MAX
        &&& forall|x: Seq<bool>, i: int| x.len() >= self.dim() && 0 <= i < self.dim()
            ==> i32::MIN <= #[trigger] self.flip_gain(x, i) <= i32::MAX
        &&& forall|i: int, j: int| #[trigger] self.coef(i, j) > i32::MIN
    }

    /// On an instance whose gains and energies fit an `i32`, those of every
    /// assignment do.
    pub proof fn lemma_fits_i32_bounds(self, x: Seq<bool>)
        requires
            self.fits_i32(),
            x.len() >= self.dim(),
        ensures
            i32::MIN <= self.energy(x) <= i32::MAX,
            forall|i: int| 0 <= i < self.dim() ==> i32::MIN <= #[trigger] self.flip_gain(x, i) <= i32::MAX,
    {
    }

    /// Flipping `k` changes the field of another variable `j` by `Q[j][k]`
    /// in the direction of the flip.
    pub proof fn lemma_field_flip_other(self, x: Seq<bool>, k: int, j: int)
        requires
            self.wf(),
            0 <= k < x.len(),
            x.len() >= self.dim(),
            j != k,
        ensures
            self.field(x.update(k, !x[k]), j) == self.field(x, j)
                + (if x[k] { -self.coef(j, k) } else { self.coef(j, k) }),
    {
        self.lemma_wf();
        let y = x.update(k, !x[k]);
        let fx = |l: int| self.field_term(x, j, l);
        let fy = |l: int| self.field_term(y, j, l);
        assert forall|l: int| 0 <= l < self.dim() && l != k implies #[trigger] fx(l) == fy(l) by {
            assert(y[l] == x[l]);
        }
        lemma_sum_to_point(fx, fy, k, self.dim() as int);
        if k >= self.dim() {
            assert(self.entry(j, k) is None);
        }
    }

    /// Flipping `k` changes the flip gain of another variable `j` by
    /// `Q[j][k]`, with the sign set by whether `x[j]` and `x[k]` agree.
    pub proof fn lemma_flip_gain_flip_other(self, x: Seq<bool>, k: int, j: int)
        requires
            self.wf(),
            0 <= k < x.len(),
            0 <= j < x.len(),
            x.len() >= self.dim(),
            j != k,
        ensures
            self.flip_gain(x.update(k, !x[k]), j) == self.flip_gain(x, j)
                + (if x[k] == x[j] { self.coef(k, j) } else { -self.coef(k, j) }),
    {
        self.lemma_wf();
        self.lemma_field_flip_other(x, k, j);
        assert(self.entry(j, k) == self.entry(k, j));
        assert(x.update(k, !x[k])[j] == x[j]);
    }

    /// Flipping `k` negates its own flip gain.
    pub proof fn lemma_flip_gain_flip_self(self, x: Seq<bool>, k: int)
        requires
            0 <= k < x.len(),
            x.len() >= self.dim(),
        ensures
            self.flip_gain(x.update(k, !x[k]), k) == -self.flip_gain(x, k),
    {
        let y = x.update(k, !x[k]);
        let fx = |l: int| self.field_term(x, k, l);
        let fy = |l: int| self.field_term(y, k, l);
        assert forall|l: int| 0 <= l < self.dim() implies #[trigger] fx(l) == fy(l) by {
            if 0 <= l < x.len() && l != k {
                assert(y[l] == x[l]);
            }
        }
        lemma_sum_to_ext(fx, fy, self.dim() as int);
    }

    /// The flip law: flipping `k` changes the energy by exactly its flip gain.
    pub proof fn lemma_energy_flip(self, x: Seq<bool>, k: int)
        requires
            self.wf(),
            0 <= k < x.len(),
            x.len() >= self.dim(),
        ensures
            self.energy(x.update(k, !x[k])) == self.energy(x) + self.flip_gain(x, k),
    {
        self.lemma_wf();
        let n = self.dim() as int;
        let y = x.update(k, !x[k]);
        if k >= n {
            // Nothing of the energy looks at `k`.
            assert forall|i: int| 0 <= i < n implies #[trigger] self.energy_row(y, i) == self.energy_row(x, i) by {
                assert forall|j: int| 0 <= j < i + 1 implies #[trigger] self.pair_term(y, i, j) == self.pair_term(x, i, j) by {
                    assert(y[i] == x[i] && y[j] == x[j]);
                }
                lemma_sum_to_ext(|j: int| self.pair_term(y, i, j), |j: int| self.pair_term(x, i, j), i + 1);
            }
            lemma_sum_to_ext(|i: int| self.energy_row(y, i), |i: int| self.energy_row(x, i), n);
            assert forall|j: int| 0 <= j < n implies #[trigger] self.coef(k, j) == 0 by {
                assert(self.entry(k, j) is None);
            }
            lemma_sum_to_zero(|j: int| self.field_term(x, k, j), n);
            return;
        }
        let sg = |v: int| if x[k] { -v } else { v };
        let w = |j: int| self.field_term(x, k, j);
        let a = sum_to(w, k + 1);
        let tail = |i: int| if i > k { if x[i] { self.coef(i, k) } else { 0 } } else { 0 };
        let d = |i: int| if i == k { sg(a) } else if i > k { sg(tail(i)) } else { 0 };
        // Row by row.
        assert forall|i: int| 0 <= i < n implies #[trigger] self.energy_row(y, i) == self.energy_row(x, i) + d(i) by {
            let px = |j: int| self.pair_term(x, i, j);
            let py = |j: int| self.pair_term(y, i, j);
            if i < k {
                assert forall|j: int| 0 <= j < i + 1 implies #[trigger] py(j) == px(j) by {
                    assert(y[i] == x[i] && y[j] == x[j]);
                }
                lemma_sum_to_ext(py, px, i + 1);
            } else if i > k {
                assert forall|j: int| 0 <= j < i + 1 && j != k implies #[trigger] px(j) == py(j) by {
                    assert(y[j] == x[j]);
                    assert(y[i] == x[i]);
                }
                lemma_sum_to_point(px, py, k, i + 1);
                assert(y[i] == x[i]);
            } else {
                let dk = |j: int| sg(w(j));
                assert forall|j: int| 0 <= j < i + 1 implies #[trigger] py(j) == px(j) + dk(j) by {
                    if j != k {
                        assert(y[j] == x[j]);
                    }
                }
                lemma_sum_to_split(py, px, dk, i + 1);
                if x[k] {
                    lemma_sum_to_neg(w, dk, i + 1);
                } else {
                    lemma_sum_to_ext(dk, w, i + 1);
                }
            }
        }
        let ry = |i: int| self.energy_row(y, i);
        let rx = |i: int| self.energy_row(x, i);
        lemma_sum_to_split(ry, rx, d, n);
        // The row changes sum to the flip gain.
        let d2 = |i: int| sg(tail(i));
        assert forall|i: int| 0 <= i < n && i != k implies #[trigger] d2(i) == d(i) by {}
        lemma_sum_to_point(d2, d, k, n);
        if x[k] {
            lemma_sum_to_neg(tail, d2, n);
        } else {
            lemma_sum_to_ext(d2, tail, n);
        }
        let w_le = |j: int| if j <= k { w(j) } else { 0 };
        let w_gt = |j: int| if j > k { w(j) } else { 0 };
        lemma_sum_to_split(w, w_le, w_gt, n);
        lemma_sum_to_zero_tail(w_le, k + 1, n);
        lemma_sum_to_ext(w_le, w, k + 1);
        assert forall|j: int| 0 <= j < n implies #[trigger] w_gt(j) == tail(j) by {
            assert(self.entry(k, j) == self.entry(j, k));
        }
        lemma_sum_to_ext(w_gt, tail, n);
    }

    /// A variable that never appeared has an empty row.
    pub proof fn lemma_nonvar_zero(self, i: int)
        requires
            self.wf(),
            !occurs(self.vars(), i),
        ensures
            forall|j: int| #[trigger] self.entry(i, j) is None,
    {
        self.lemma_wf();
        assert forall|j: int| #[trigger] self.entry(i, j) is None by {
            if self.entry(i, j) is Some {
                assert(0 <= i < self.dim());
                assert(self.vars().contains(i as usize));
                let k = choose|k: int| 0 <= k < self.vars().len() && self.vars()[k] == i as usize;
                assert(self.vars()[k] as int == i);
            }
        }
    }

    /// The energy as a sum over the variables alone.
    pub proof fn lemma_energy_over_vars(self, x: Seq<bool>)
        requires
            self.wf(),
        ensures
            self.energy(x) == sum_over(self.vars(), |i: int| self.energy_row(x, i)),
            all_distinct(self.vars()),
    {
        self.lemma_wf();
        let n = self.dim() as int;
        let vs = self.vars();
        assert forall|a: int, b: int| 0 <= a < vs.len() && 0 <= b < vs.len() && a != b implies vs[a] != vs[b] by {
            if a < b {
                assert(vs[a] < vs[b]);
            } else {
                assert(vs[b] < vs[a]);
            }
        }
        assert forall|i: int| 0 <= i < n && !occurs(vs, i) implies #[trigger] self.energy_row(x, i) == 0 by {
            self.lemma_nonvar_zero(i);
            assert forall|j: int| 0 <= j < i + 1 implies #[trigger] self.pair_term(x, i, j) == 0 by {
                assert(self.entry(i, j) is None);
            }
            lemma_sum_to_zero(|j: int| self.pair_term(x, i, j), i + 1);
        }
        lemma_sum_over_distinct(vs, |i: int| self.energy_row(x, i), n);
    }

    /// Calculates the change in energy when variable `i` is flipped.
    ///
    /// Returns `gain` such that `E(x') = E(x) + gain` where `x'` is `x` with
    /// variable `i` flipped (see [`Qubo::lemma_energy_flip`]); a negative
    /// value is an improvement.
    pub fn calculate_gain(&self, x: &[bool], i: usize) -> (r: Coefficient)
        requires
            self.wf(),
            x@.len() >= self.dim(),
            i < x@.len(),
            i32::MIN <= self.flip_gain(x@, i as int) <= i32::MAX,
        ensures
            r as int == self.flip_gain(x@, i as int),
    {
        proof {
            self.lemma_wf();
        }
        let n = self.len();
        let row = self.iter_on_adjacency(i);
        let ghost p = |j: int| j == i as int || x@[j];
        let row_len = row.len();
        proof {
            crate::sparse_row::lemma_row_abs_len(row@, p);
            assert(row@.len() == row_len);
        }
        let mut gain: i128 = 0;
        let mut k: usize = 0;
        while k < row.len()
            invariant
                0 <= k <= row@.len(),
                row@.len() <= usize::MAX,
                forall|kk: int| 0 <= kk < row@.len() ==> #[trigger] row@[kk].0 < x@.len(),
                row_abs(row@, p) <= row@.len() * 2147483648,
                p == (|j: int| j == i as int || x@[j]),
                gain as int == row_sum(row@.take(k as int), p),
            decreases row@.len() - k,
        {
            let (j, q) = row[k];
            proof {
                assert(row@.take(k + 1).drop_last() =~= row@.take(k as int));
                lemma_row_sum_bound(row@, p, k + 1);
            }
            if i == j || x[j] {
                gain = gain + q as i128;
            }
            k += 1;
        }
        proof {
            assert(row@.take(row@.len() as int) =~= row@);
            if i < n {
                lemma_row_sum_all(row@, p, n as int);
                assert forall|j: int| 0 <= j < n implies #[trigger] row_term(row@, p, j) == self.field_term(x@, i as int, j) by {
                    assert(self.entry(i as int, j) == row_lookup(row@, j));
                }
                lemma_sum_to_ext(|j: int| row_term(row@, p, j), |j: int| self.field_term(x@, i as int, j), n as int);
            } else {
                assert forall|j: int| 0 <= j < n implies #[trigger] self.field_term(x@, i as int, j) == 0 by {}
                lemma_sum_to_zero(|j: int| self.field_term(x@, i as int, j), n as int);
            }
            lemma_row_sum_bound(row@, p, row@.len() as int);
        }
        if x[i] {
            (-gain) as i32
        } else {
            gain as i32
        }
    }

    /// Calculates the energy `E(x)` of an assignment.
    ///
    /// The terms are added with wrap-around: a partial sum may leave the
    /// coefficient range, and the result is exact because the energy itself
    /// lies in it.
    pub fn calculate_energy(&self, x: &[bool]) -> (r: Coefficient)
        requires
            self.wf(),
            x@.len() >= self.dim(),
            i32::MIN <= self.energy(x@) <= i32::MAX,
        ensures
            r as int == self.energy(x@),
    {
        proof {
            self.lemma_wf();
            self.lemma_energy_over_vars(x@);
        }
        let n = self.len();
        let vars = self.iter_on_variables();
        let ghost rows = |i: int| self.energy_row(x@, i);
        let mut energy: i32 = 0;
        // `energy` is the running sum up to a multiple of `2^32`.
        let ghost mut wraps: int = 0;
        let mut t: usize = 0;
        while t < vars.len()
            invariant
                0 <= t <= vars@.len(),
                vars@ == self.vars(),
                n == self.dim(),
                x@.len() >= n,
                self.wf(),
                rows == (|i: int| self.energy_row(x@, i)),
                energy as int == sum_over(vars@.take(t as int), rows) + wraps * 4294967296,
            decreases vars@.len() - t,
        {
            let i = vars[t];
            proof {
                self.lemma_wf();
                lemma_sum_over_take_next(vars@, rows, t as int);
            }
            let ghost base = sum_over(vars@.take(t as int), rows);
            if x[i] {
                let row = self.iter_on_adjacency(i);
                let ghost p = |j: int| j <= i as int && (j == i as int || x@[j]);
                let mut k: usize = 0;
                while k < row.len()
                    invariant
                        0 <= k <= row@.len(),
                        forall|kk: int| 0 <= kk < row@.len() ==> #[trigger] row@[kk].0 < x@.len(),
                        p == (|j: int| j <= i as int && (j == i as int || x@[j])),
                        energy as int == base + row_sum(row@.take(k as int), p) + wraps * 4294967296,
                    decreases row@.len() - k,
                {
                    let (j, q) = row[k];
                    proof {
                        assert(row@.take(k + 1).drop_last() =~= row@.take(k as int));
                    }
                    if j <= i && (i == j || x[j]) {
                        let sum = energy as i64 + q as i64;
                        energy = energy.wrapping_add(q);
                        proof {
                            if sum > i32::MAX {
                                wraps = wraps - 1;
                            } else if sum < i32::MIN {
                                wraps = wraps + 1;
                            }
                        }
                    }
                    k += 1;
                }
                proof {
                    assert(row@.take(row@.len() as int) =~= row@);
                    lemma_row_sum_all(row@, p, n as int);
                    assert forall|j: int| i + 1 <= j < n implies #[trigger] row_term(row@, p, j) == 0 by {}
                    lemma_sum_to_zero_tail(|j: int| row_term(row@, p, j), i + 1, n as int);
                    assert forall|j: int| 0 <= j < i + 1 implies #[trigger] row_term(row@, p, j) == self.pair_term(x@, i as int, j) by {
                        assert(self.entry(i as int, j) == row_lookup(row@, j));
                    }
                    lemma_sum_to_ext(|j: int| row_term(row@, p, j), |j: int| self.pair_term(x@, i as int, j), i + 1);
                }
            } else {
                proof {
                    assert forall|j: int| 0 <= j < i + 1 implies #[trigger] self.pair_term(x@, i as int, j) == 0 by {}
                    lemma_sum_to_zero(|j: int| self.pair_term(x@, i as int, j), i + 1);
                }
            }
            t += 1;
        }
        proof {
            assert(vars@.take(vars@.len() as int) =~= vars@);
        }
        energy
    }

}

} // verus!
