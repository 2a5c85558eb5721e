//! How the sub-QUBO's energy relates to the full problem's: for an
//! assignment that keeps every fixed variable at the first parent's value,
//! the full energy is the sub-problem's energy plus the energy of the fixed
//! part alone.

use vstd::prelude::*;
use crate::sums::{
    lemma_sum_to_point, lemma_sum_to_zero_tail, lemma_sum_to_zero, lemma_sum_to_split,
};
use crate::sparse_row::abs;
use crate::qubo::Qubo;

verus! {

impl Qubo {
    /// `z` with every free variable set to `false`.
    pub open spec fn fixed_part(self, xs: Seq<Seq<bool>>, z: Seq<bool>) -> Seq<bool> {
        Seq::new(z.len(), |v: int| if self.is_free(xs, v) { false } else { z[v] })
    }

    /// `z` below `t`, and its fixed part from `t` on.
    spec fn free_prefix(self, xs: Seq<Seq<bool>>, z: Seq<bool>, t: int) -> Seq<bool> {
        Seq::new(z.len(), |v: int| if v < t { z[v] } else { self.fixed_part(xs, z)[v] })
    }

    /// The entries of `sub` are the sub-problem's entries of `self` for the
    /// assignments `xs`.
    pub open spec fn is_sub_problem(self, sub: Qubo, xs: Seq<Seq<bool>>) -> bool {
        &&& sub.wf()
        &&& sub.dim() <= self.dim()
        &&& forall|a: int, b: int| #[trigger] sub.entry(a, b) == self.sub_entry(xs, a, b)
    }

    /// The folded diagonal of a variable is `0` when nothing stored folds
    /// into it.
    proof fn lemma_folded_diag(self, xs: Seq<Seq<bool>>, k: int)
        requires
            self.wf(),
            0 <= k < self.dim(),
        ensures
            !self.has_folded_diag(xs, k) ==> self.folded_diag(xs, k) == 0,
    {
        let n = self.dim() as int;
        let f = |j: int| self.fold_term(xs, k, j);
        if !self.has_folded_diag(xs, k) {
            assert forall|j: int| 0 <= j < n implies #[trigger] f(j) == 0 by {
                if self.folds_into(xs, k, j) {
                    assert(self.entry(k, j) is None);
                }
            }
            lemma_sum_to_zero(f, n);
        }
    }

    /// Flipping a free variable from `false` changes the full energy and the
    /// sub-problem's energy by the same amount, as long as every fixed
    /// variable keeps the first parent's value.
    proof fn lemma_sub_field(self, sub: Qubo, xs: Seq<Seq<bool>>, w: Seq<bool>, k: int)
        requires
            self.wf(),
            self.folds_fit(xs),
            self.is_sub_problem(sub, xs),
            xs.len() >= 1,
            forall|i: int| 0 <= i < self.vars().len() ==> #[trigger] self.vars()[i] < xs[0].len(),
            w.len() >= self.dim(),
            forall|v: int| 0 <= v < self.dim() && !self.is_free(xs, v) ==> #[trigger] w[v] == xs[0][v],
            self.is_free(xs, k),
            0 <= k,
        ensures
            self.field(w, k) == sub.field(w, k),
    {
        self.lemma_wf();
        sub.lemma_wf();
        let nq = self.dim() as int;
        let ns = sub.dim() as int;
        if k >= nq {
            // Neither problem has an entry in row `k`.
            assert forall|j: int| 0 <= j < nq implies #[trigger] self.field_term(w, k, j) == 0 by {
                assert(self.entry(k, j) is None);
            }
            lemma_sum_to_zero(|j: int| self.field_term(w, k, j), nq);
            assert forall|j: int| 0 <= j < ns implies #[trigger] sub.field_term(w, k, j) == 0 by {
                assert(sub.entry(k, j) is None);
            }
            lemma_sum_to_zero(|j: int| sub.field_term(w, k, j), ns);
            return;
        }
        let a = |j: int| self.field_term(w, k, j);
        let b = |j: int| if j != k && self.is_free(xs, j) && w[j] { self.coef(k, j) } else { 0 };
        let c = |j: int| self.fold_term(xs, k, j);
        let d = |j: int| sub.field_term(w, k, j);
        // The full field: the free neighbours plus the folded diagonal.
        assert forall|j: int| 0 <= j < nq implies #[trigger] a(j) == b(j) + c(j) by {
            if j != k && !self.is_free(xs, j) && self.entry(k, j) is Some {
                assert(self.entry(j, k) is Some);
                let i = choose|i: int| 0 <= i < self.vars().len() && self.vars()[i] == j as usize;
                assert(j < xs[0].len());
            }
        }
        lemma_sum_to_split(a, b, c, nq);
        // The sub-problem's field: the same free neighbours plus its diagonal.
        assert forall|j: int| ns <= j < nq implies #[trigger] d(j) == 0 by {
            assert(sub.entry(k, j) is None);
        }
        lemma_sum_to_zero_tail(d, ns, nq);
        assert forall|j: int| 0 <= j < nq && j != k implies #[trigger] b(j) == d(j) by {
            assert(sub.entry(k, j) == self.sub_entry(xs, k, j));
        }
        lemma_sum_to_point(b, d, k, nq);
        self.lemma_folded_diag(xs, k);
        assert(i32::MIN <= self.folded_diag(xs, k) <= i32::MAX);
        assert(sub.entry(k, k) == self.sub_entry(xs, k, k));
        assert(d(k) == self.folded_diag(xs, k));
    }

    /// With every free variable `false`, the sub-problem's energy is `0`.
    proof fn lemma_sub_energy_fixed(self, sub: Qubo, xs: Seq<Seq<bool>>, z: Seq<bool>)
        requires
            self.wf(),
            self.is_sub_problem(sub, xs),
            z.len() >= self.dim(),
        ensures
            sub.energy(self.fixed_part(xs, z)) == 0,
    {
        sub.lemma_wf();
        let y = self.fixed_part(xs, z);
        let ns = sub.dim() as int;
        assert forall|i: int| 0 <= i < ns implies #[trigger] sub.energy_row(y, i) == 0 by {
            assert forall|j: int| 0 <= j < i + 1 implies #[trigger] sub.pair_term(y, i, j) == 0 by {
                if sub.entry(i, j) is Some {
                    assert(sub.entry(i, j) == self.sub_entry(xs, i, j));
                    assert(self.is_free(xs, i));
                    assert(!y[i]);
                }
            }
            lemma_sum_to_zero(|j: int| sub.pair_term(y, i, j), i + 1);
        }
        lemma_sum_to_zero(|i: int| sub.energy_row(y, i), ns);
    }

    /// The decomposition for `z` taken below `t` and its fixed part above.
    proof fn lemma_sub_energy_prefix(self, sub: Qubo, xs: Seq<Seq<bool>>, z: Seq<bool>, t: int)
        requires
            self.wf(),
            self.folds_fit(xs),
            self.is_sub_problem(sub, xs),
            xs.len() >= 1,
            forall|i: int| 0 <= i < self.vars().len() ==> #[trigger] self.vars()[i] < xs[0].len(),
            z.len() >= self.dim(),
            forall|v: int| 0 <= v < self.dim() && !self.is_free(xs, v) ==> #[trigger] z[v] == xs[0][v],
            0 <= t <= z.len(),
        ensures
            self.energy(self.free_prefix(xs, z, t))
                == sub.energy(self.free_prefix(xs, z, t)) + self.energy(self.fixed_part(xs, z)),
        decreases t,
    {
        let y = self.fixed_part(xs, z);
        if t == 0 {
            assert(self.free_prefix(xs, z, 0) =~= y);
            self.lemma_sub_energy_fixed(sub, xs, z);
        } else {
            let s = t - 1;
            self.lemma_sub_energy_prefix(sub, xs, z, s);
            let w = self.free_prefix(xs, z, s);
            let w2 = self.free_prefix(xs, z, t);
            if self.is_free(xs, s) && z[s] {
                assert(w2 =~= w.update(s, !w[s]));
                assert forall|v: int| 0 <= v < self.dim() && !self.is_free(xs, v) implies #[trigger] w[v] == xs[0][v] by {}
                self.lemma_energy_flip(w, s);
                sub.lemma_energy_flip(w, s);
                self.lemma_sub_field(sub, xs, w, s);
            } else {
                assert(w2 =~= w);
            }
        }
    }

    /// The energy of the sub-problem built from parents whose assignments
    /// are `xs`: for every assignment `z` that keeps each fixed variable (one
    /// on which all parents agree) at the first parent's value, the full
    /// energy of `z` is the sub-problem's energy of `z` plus the full energy
    /// of `z` with every free variable set to `false`.
    pub proof fn lemma_sub_problem_energy(self, sub: Qubo, xs: Seq<Seq<bool>>, z: Seq<bool>)
        requires
            self.wf(),
            self.folds_fit(xs),
            self.is_sub_problem(sub, xs),
            xs.len() >= 1,
            forall|i: int| 0 <= i < self.vars().len() ==> #[trigger] self.vars()[i] < xs[0].len(),
            z.len() >= self.dim(),
            forall|v: int| 0 <= v < self.dim() && !self.is_free(xs, v) ==> #[trigger] z[v] == xs[0][v],
        ensures
            self.energy(z) == sub.energy(z) + self.energy(self.fixed_part(xs, z)),
    {
        self.lemma_sub_energy_prefix(sub, xs, z, z.len() as int);
        assert(self.free_prefix(xs, z, z.len() as int) =~= z);
    }
}

} // verus!
