//! The sub-QUBO on the variables where parent solutions disagree: the other
//! variables are fixed to the first parent's values and folded into the
//! diagonal.

use vstd::prelude::*;
use crate::sums::{sum_to, lemma_sum_to_ext};
use crate::sorted::strictly_sorted;
use crate::sparse_row::{
    row_lookup, keys_unique, row_sum, row_term, lemma_lookup_at, lemma_lookup_present,
    lemma_row_sum_all,
};
use crate::qubo::{Qubo, Coefficient};
use crate::qubo_solution::QuboSolution;

verus! {

/// The assignments of a list of solutions.
pub open spec fn assignments(parents: Seq<&QuboSolution>) -> Seq<Seq<bool>> {
    Seq::new(parents.len(), |p: int| parents[p].x@)
}

impl Qubo {
    /// `v` is a variable on which some parent differs from the first one.
    pub open spec fn is_free(self, xs: Seq<Seq<bool>>, v: int) -> bool {
        &&& self.vars().contains(v as usize)
        &&& exists|p: int| 1 <= p < xs.len() && #[trigger] xs[p][v] != xs[0][v]
    }

    /// `j` contributes to the diagonal of `a` in the sub-problem: `j` is `a`
    /// itself, or a fixed variable set to `true` in the first parent.
    pub open spec fn folds_into(self, xs: Seq<Seq<bool>>, a: int, j: int) -> bool {
        j == a || (!self.is_free(xs, j) && j < xs[0].len() && xs[0][j])
    }

    /// `Q[a][j]` if `j` folds into the diagonal of `a`, else `0`.
    pub open spec fn fold_term(self, xs: Seq<Seq<bool>>, a: int, j: int) -> int {
        if self.folds_into(xs, a, j) {
            self.coef(a, j)
        } else {
            0
        }
    }

    /// The diagonal of `a` in the sub-problem: `Q[a][a]` plus `Q[a][j]` for
    /// every fixed `j` set to `true`.
    pub open spec fn folded_diag(self, xs: Seq<Seq<bool>>, a: int) -> int {
        sum_to(|j: int| self.fold_term(xs, a, j), self.dim() as int)
    }

    /// Some stored entry of row `a` folds into its diagonal.
    pub open spec fn has_folded_diag(self, xs: Seq<Seq<bool>>, a: int) -> bool {
        exists|j: int| self.folds_into(xs, a, j) && #[trigger] self.entry(a, j) is Some
    }

    /// The folded diagonal of every free variable fits the coefficient type.
    pub open spec fn folds_fit(self, xs: Seq<Seq<bool>>) -> bool {
        forall|a: int| 0 <= a < self.dim() && self.is_free(xs, a) ==>
            i32::MIN <= #[trigger] self.folded_diag(xs, a) <= i32::MAX
    }

    /// The entry `(a, b)` of the sub-problem: the full problem's entry between two
    /// free variables, the folded diagonal of a free variable when anything
    /// folds into it, and nothing else.
    pub open spec fn sub_entry(self, xs: Seq<Seq<bool>>, a: int, b: int) -> Option<i32> {
        if a != b && self.is_free(xs, a) && self.is_free(xs, b) {
            self.entry(a, b)
        } else if a == b && self.is_free(xs, a) && self.has_folded_diag(xs, a) {
            Some(self.folded_diag(xs, a) as i32)
        } else {
            None
        }
    }

    /// The sub-problem's entries once the free variables in `done` have had
    /// their rows copied.
    pub open spec fn partial_sub_entry(self, xs: Seq<Seq<bool>>, done: Set<usize>, a: int, b: int) -> Option<i32> {
        if a != b && self.is_free(xs, a) && self.is_free(xs, b) && done.contains(vstd::math::min(a, b) as usize) {
            self.entry(a, b)
        } else if a == b && done.contains(a as usize) && self.has_folded_diag(xs, a) {
            Some(self.folded_diag(xs, a) as i32)
        } else {
            None
        }
    }
}

/// The variables on which the parents disagree, increasing, and a mark for
/// each index below the dimension.
fn free_variables(qubo: &Qubo, parents: &[&QuboSolution]) -> (r: (Vec<usize>, Vec<bool>))
    requires
        qubo.wf(),
        parents@.len() >= 1,
        forall|p: int, k: int| #![trigger parents@[p].x@.len(), qubo.vars()[k]] 0 <= p < parents@.len() && 0 <= k < qubo.vars().len() ==>
            qubo.vars()[k] < parents@[p].x@.len(),
    ensures
        r.1@.len() == qubo.dim(),
        forall|v: int| 0 <= v < qubo.dim() ==> #[trigger] r.1@[v] == qubo.is_free(assignments(parents@), v),
        strictly_sorted(r.0@),
        forall|k: int| #![trigger r.0@[k]] 0 <= k < r.0@.len() ==> qubo.is_free(assignments(parents@), r.0@[k] as int),
        forall|k: int| 0 <= k < r.0@.len() ==> #[trigger] r.0@[k] < qubo.dim(),
        forall|v: int| 0 <= v < qubo.dim() && #[trigger] qubo.is_free(assignments(parents@), v) ==> r.0@.contains(v as usize),
{
    let ghost xs = assignments(parents@);
    proof {
        qubo.lemma_wf();
    }
    let n = qubo.len();
    let mut mark: Vec<bool> = Vec::new();
    let mut m: usize = 0;
    while m < n
        invariant
            0 <= m <= n,
            n == qubo.dim(),
            mark@.len() == m,
            forall|v: int| 0 <= v < m ==> #[trigger] mark@[v] == false,
        decreases n - m,
    {
        mark.push(false);
        m += 1;
    }
    let vars = qubo.iter_on_variables();
    let mut free: Vec<usize> = Vec::new();
    let mut t: usize = 0;
    while t < vars.len()
        invariant
            0 <= t <= vars@.len(),
            vars@ == qubo.vars(),
            qubo.wf(),
            n == qubo.dim(),
            xs == assignments(parents@),
            parents@.len() >= 1,
            forall|p: int, k: int| #![trigger parents@[p].x@.len(), qubo.vars()[k]] 0 <= p < parents@.len() && 0 <= k < qubo.vars().len() ==>
                qubo.vars()[k] < parents@[p].x@.len(),
            strictly_sorted(qubo.vars()),
            forall|k: int| 0 <= k < qubo.vars().len() ==> #[trigger] qubo.vars()[k] < qubo.dim(),
            mark@.len() == n,
            forall|v: int| 0 <= v < n ==> #[trigger] mark@[v] == (qubo.is_free(xs, v) && vars@.take(t as int).contains(v as usize)),
            strictly_sorted(free@),
            forall|k: int, s: int| 0 <= k < free@.len() && t <= s < vars@.len() ==> #[trigger] free@[k] < #[trigger] vars@[s],
            forall|k: int| #![trigger free@[k]] 0 <= k < free@.len() ==> qubo.is_free(xs, free@[k] as int),
            forall|k: int| 0 <= k < free@.len() ==> #[trigger] free@[k] < n,
            forall|s: int| #![trigger vars@[s]] 0 <= s < t && qubo.is_free(xs, vars@[s] as int) ==> free@.contains(vars@[s]),
        decreases vars@.len() - t,
    {
        let v = vars[t];
        let base = parents[0].x[v];
        let mut differs = false;
        let mut p: usize = 1;
        while p < parents.len()
            invariant
                1 <= p <= parents@.len(),
                xs == assignments(parents@),
                t < vars@.len(),
                v == vars@[t as int],
                forall|pp: int, k: int| #![trigger parents@[pp].x@.len(), qubo.vars()[k]] 0 <= pp < parents@.len() && 0 <= k < qubo.vars().len() ==>
                    qubo.vars()[k] < parents@[pp].x@.len(),
                vars@ == qubo.vars(),
                base == xs[0][v as int],
                differs == exists|pp: int| 1 <= pp < p && #[trigger] xs[pp][v as int] != xs[0][v as int],
            decreases parents@.len() - p,
        {
            assert(parents@[p as int].x@.len() > v);
            if parents[p].x[v] != base {
                differs = true;
            }
            proof {
                assert(xs[p as int] == parents@[p as int].x@);
            }
            p += 1;
        }
        proof {
            assert(vars@.contains(v));
            assert(vars@.take(t as int + 1) =~= vars@.take(t as int).push(v));
            assert(xs.len() == parents@.len());
            assert(differs == qubo.is_free(xs, v as int));
            assert(!vars@.take(t as int).contains(v)) by {
                if vars@.take(t as int).contains(v) {
                    let s = choose|s: int| 0 <= s < t && #[trigger] vars@.take(t as int)[s] == v;
                    assert(vars@[s] < vars@[t as int]);
                }
            }
        }
        let ghost free0 = free@;
        if differs {
            mark.set(v, true);
            free.push(v);
        }
        proof {
            assert forall|w: int| 0 <= w < n implies #[trigger] mark@[w] == (qubo.is_free(xs, w) && vars@.take(t as int + 1).contains(w as usize)) by {
                if w != v as int {
                    assert(vars@.take(t as int + 1).contains(w as usize) == vars@.take(t as int).contains(w as usize));
                } else {
                    assert(vars@.take(t as int + 1)[t as int] == v);
                    assert(vars@.take(t as int + 1).contains(v));
                }
            }
            assert forall|k: int, s: int| 0 <= k < free@.len() && t + 1 <= s < vars@.len() implies #[trigger] free@[k] < #[trigger] vars@[s] by {
                assert(vars@[t as int] < vars@[s]);
            }
            assert forall|s: int| #![trigger vars@[s]] 0 <= s < t + 1 && qubo.is_free(xs, vars@[s] as int) implies free@.contains(vars@[s]) by {
                if s == t {
                    assert(free@[free@.len() - 1] == v);
                } else {
                    assert(free0.contains(vars@[s]));
                    let k = choose|k: int| 0 <= k < free0.len() && free0[k] == vars@[s];
                    assert(free@[k] == free0[k]);
                }
            }
        }
        t += 1;
    }
    proof {
        assert(vars@.take(vars@.len() as int) =~= vars@);
        assert forall|v: int| 0 <= v < n && #[trigger] qubo.is_free(xs, v) implies free@.contains(v as usize) by {
            let s = vars@.index_of(v as usize);
            assert(vars@[s] as int == v);
        }
    }
    (free, mark)
}

/// The folded diagonal of `ind` and whether anything folds into it.
fn fold_row(qubo: &Qubo, parents: &[&QuboSolution], mark: &Vec<bool>, ind: usize) -> (r: (Coefficient, bool))
    requires
        qubo.wf(),
        i32::MIN <= qubo.folded_diag(assignments(parents@), ind as int) <= i32::MAX,
        parents@.len() >= 1,
        ind < qubo.dim(),
        mark@.len() == qubo.dim(),
        forall|v: int| 0 <= v < qubo.dim() ==> #[trigger] mark@[v] == qubo.is_free(assignments(parents@), v),
    ensures
        r.0 as int == qubo.folded_diag(assignments(parents@), ind as int),
        r.1 == qubo.has_folded_diag(assignments(parents@), ind as int),
{
    let ghost xs = assignments(parents@);
    let ghost n = qubo.dim() as int;
    let ghost pred = |j: int| qubo.folds_into(xs, ind as int, j);
    proof {
        qubo.lemma_wf();
    }
    let row = qubo.iter_on_adjacency(ind);
    let x0 = &parents[0].x;
    proof {
        assert(x0@ == xs[0]);
    }
    // `acc` is the running sum up to a multiple of `2^32`.
    let mut acc: Coefficient = 0;
    let ghost mut wraps: int = 0;
    let mut found = false;
    let mut k: usize = 0;
    while k < row.len()
        invariant
            0 <= k <= row@.len(),
            row@ == qubo.row(ind as int),
            x0@ == xs[0],
            xs == assignments(parents@),
            n == qubo.dim(),
            ind < n,
            mark@.len() == n,
            forall|v: int| 0 <= v < n ==> #[trigger] mark@[v] == qubo.is_free(xs, v),
            forall|kk: int| 0 <= kk < row@.len() ==> #[trigger] row@[kk].0 < n,
            pred == (|j: int| qubo.folds_into(xs, ind as int, j)),
            acc as int == row_sum(row@.take(k as int), pred) + wraps * 4294967296,
            found == exists|kk: int| 0 <= kk < k && #[trigger] pred(row@[kk].0 as int),
        decreases row@.len() - k,
    {
        let (j, v) = row[k];
        let folds = j == ind || (!mark[j] && j < x0.len() && x0[j]);
        proof {
            assert(folds == pred(j as int));
            assert(row@.take(k as int + 1).drop_last() =~= row@.take(k as int));
            assert(row@.take(k as int + 1).last() == row@[k as int]);
        }
        if folds {
            let sum = acc as i64 + v as i64;
            acc = acc.wrapping_add(v);
            proof {
                if sum > i32::MAX {
                    wraps = wraps - 1;
                } else if sum < i32::MIN {
                    wraps = wraps + 1;
                }
            }
            found = true;
        }
        k += 1;
    }
    proof {
        let rw = row@;
        assert(rw.take(rw.len() as int) =~= rw);
        lemma_row_sum_all(rw, pred, n);
        assert forall|j: int| 0 <= j < n implies #[trigger] row_term(rw, pred, j) == qubo.fold_term(xs, ind as int, j) by {
            assert(qubo.entry(ind as int, j) == row_lookup(qubo.row(ind as int), j));
        }
        lemma_sum_to_ext(|j: int| row_term(rw, pred, j), |j: int| qubo.fold_term(xs, ind as int, j), n);
        if found {
            let kk = choose|kk: int| 0 <= kk < rw.len() && #[trigger] pred(rw[kk].0 as int);
            lemma_lookup_at(rw, kk);
            assert(qubo.entry(ind as int, rw[kk].0 as int) == row_lookup(qubo.row(ind as int), rw[kk].0 as int));
            assert(qubo.folds_into(xs, ind as int, rw[kk].0 as int));
        }
        if qubo.has_folded_diag(xs, ind as int) {
            let j = choose|j: int| qubo.folds_into(xs, ind as int, j) && #[trigger] qubo.entry(ind as int, j) is Some;
            assert(qubo.entry(ind as int, j) == row_lookup(qubo.row(ind as int), j));
            lemma_lookup_present(rw, j);
            let kk = choose|kk: int| 0 <= kk < rw.len() && rw[kk].0 as int == j && rw[kk].1 == row_lookup(rw, j)->0;
            assert(pred(rw[kk].0 as int));
        }
    }
    (acc, found)
}

/// `(a, b)` joins `ind` to a free variable above it.
pub open spec fn upper_pair(mark: Seq<bool>, ind: int, a: int, b: int) -> bool {
    (a == ind && b > ind && 0 <= b < mark.len() && mark[b]) || (b == ind && a > ind && 0 <= a < mark.len() && mark[a])
}

/// Some of the first `k` entries of the row has key `j`.
pub open spec fn in_prefix(row: Seq<(usize, i32)>, k: int, j: int) -> bool {
    exists|kk: int| 0 <= kk < k && #[trigger] row[kk].0 as int == j
}

/// Copies into `sub` the entries of row `ind` whose other variable is marked
/// and above `ind`.
fn copy_upper_row(qubo: &Qubo, mark: &Vec<bool>, ind: usize, sub: &mut Qubo)
    requires
        qubo.wf(),
        old(sub).wf(),
        ind < qubo.dim(),
        mark@.len() == qubo.dim(),
    ensures
        final(sub).wf(),
        final(sub).dim() <= vstd::math::max(old(sub).dim() as int, qubo.dim() as int),
        forall|a: int, b: int| #[trigger] final(sub).entry(a, b) == (
            if upper_pair(mark@, ind as int, a, b) && qubo.entry(a, b) is Some { qubo.entry(a, b) } else { old(sub).entry(a, b) }),
        forall|a: usize| #[trigger] final(sub).vars().contains(a) ==>
            old(sub).vars().contains(a) || exists|b: int| #[trigger] final(sub).entry(a as int, b) is Some,
{
    proof {
        qubo.lemma_wf();
    }
    let ghost n = qubo.dim() as int;
    let row = qubo.iter_on_adjacency(ind);
    let mut k: usize = 0;
    while k < row.len()
        invariant
            0 <= k <= row@.len(),
            row@ == qubo.row(ind as int),
            keys_unique(row@),
            n == qubo.dim(),
            n <= usize::MAX,
            ind < n,
            mark@.len() == n,
            forall|kk: int| 0 <= kk < row@.len() ==> #[trigger] row@[kk].0 < n,
            forall|j: int| #[trigger] qubo.entry(ind as int, j) == row_lookup(row@, j),
            forall|a: int, b: int| #[trigger] qubo.entry(a, b) == qubo.entry(b, a),
            sub.wf(),
            sub.dim() <= vstd::math::max(old(sub).dim() as int, n),
            forall|a: int, b: int| #[trigger] sub.entry(a, b) == (
                if upper_pair(mark@, ind as int, a, b) && in_prefix(row@, k as int, if a == ind { b } else { a }) {
                    qubo.entry(a, b)
                } else {
                    old(sub).entry(a, b)
                }),
            forall|a: usize| #[trigger] sub.vars().contains(a) ==>
                old(sub).vars().contains(a) || exists|b: int| #[trigger] sub.entry(a as int, b) is Some,
        decreases row@.len() - k,
    {
        let (j, v) = row[k];
        let ghost before = *sub;
        proof {
            lemma_lookup_at(row@, k as int);
        }
        if j > ind && mark[j] {
            sub.set_q(ind, j, v);
        }
        proof {
            assert forall|a: int, b: int| #[trigger] sub.entry(a, b) == (
                if upper_pair(mark@, ind as int, a, b) && in_prefix(row@, k as int + 1, if a == ind { b } else { a }) {
                    qubo.entry(a, b)
                } else {
                    old(sub).entry(a, b)
                }) by {
                let o = if a == ind { b } else { a };
                if o == j as int {
                    assert(row@[k as int].0 as int == o);
                } else {
                    if in_prefix(row@, k as int + 1, o) {
                        let kk = choose|kk: int| 0 <= kk < k + 1 && #[trigger] row@[kk].0 as int == o;
                        assert(in_prefix(row@, k as int, o));
                    }
                }
            }
            assert forall|a: usize| #[trigger] sub.vars().contains(a) implies
                old(sub).vars().contains(a) || exists|b: int| #[trigger] sub.entry(a as int, b) is Some by {
                if before.vars().contains(a) {
                    if !old(sub).vars().contains(a) {
                        let b = choose|b: int| #[trigger] before.entry(a as int, b) is Some;
                        assert(sub.entry(a as int, b) is Some);
                    }
                } else {
                    assert(sub.vars().to_set().contains(a));
                    assert(!before.vars().to_set().contains(a));
                    assert(a == ind || a == j);
                    if a == ind {
                        assert(sub.entry(a as int, j as int) is Some);
                    } else {
                        assert(sub.entry(a as int, ind as int) is Some);
                    }
                }
            }
        }
        k += 1;
    }
    proof {
        assert forall|a: int, b: int| #[trigger] sub.entry(a, b) == (
            if upper_pair(mark@, ind as int, a, b) && qubo.entry(a, b) is Some { qubo.entry(a, b) } else { old(sub).entry(a, b) }) by {
            if upper_pair(mark@, ind as int, a, b) {
                let o = if a == ind { b } else { a };
                assert(qubo.entry(a, b) == qubo.entry(ind as int, o));
                if qubo.entry(a, b) is Some {
                    lemma_lookup_present(row@, o);
                    let kk = choose|kk: int| 0 <= kk < row@.len() && row@[kk].0 as int == o && row@[kk].1 == row_lookup(row@, o)->0;
                    assert(in_prefix(row@, k as int, o));
                } else if in_prefix(row@, k as int, o) {
                    let kk = choose|kk: int| 0 <= kk < k && #[trigger] row@[kk].0 as int == o;
                    lemma_lookup_at(row@, kk);
                }
            }
        }
    }
}

/// One free variable's row copied and its diagonal folded: the entry
/// `(a, b)` moves from the model before `ind` to the model after it.
proof fn lemma_step_entry(
    qubo: Qubo,
    xs: Seq<Seq<bool>>,
    mark: Seq<bool>,
    done: Set<usize>,
    ind: usize,
    start: Qubo,
    copied: Qubo,
    sub: Qubo,
    acc: i32,
    found: bool,
    a: int,
    b: int,
)
    requires
        qubo.wf(),
        ind < qubo.dim(),
        qubo.is_free(xs, ind as int),
        !done.contains(ind),
        mark.len() == qubo.dim(),
        forall|v: int| 0 <= v < qubo.dim() ==> #[trigger] mark[v] == qubo.is_free(xs, v),
        start.entry(a, b) == qubo.partial_sub_entry(xs, done, a, b),
        copied.entry(a, b) == (
            if upper_pair(mark, ind as int, a, b) && qubo.entry(a, b) is Some { qubo.entry(a, b) } else { start.entry(a, b) }),
        sub.entry(a, b) == (if a == ind && b == ind && found { Some(acc) } else { copied.entry(a, b) }),
        acc as int == qubo.folded_diag(xs, ind as int),
        found == qubo.has_folded_diag(xs, ind as int),
    ensures
        sub.entry(a, b) == qubo.partial_sub_entry(xs, done.insert(ind), a, b),
{
    qubo.lemma_wf();
    let done2 = done.insert(ind);
    if a == b {
        assert(!upper_pair(mark, ind as int, a, b));
        if a == ind as int {
        } else if qubo.has_folded_diag(xs, a) {
            let j = choose|j: int| qubo.folds_into(xs, a, j) && #[trigger] qubo.entry(a, j) is Some;
            assert(0 <= a < qubo.dim());
            assert(a as usize != ind);
            assert(done2.contains(a as usize) == done.contains(a as usize));
        }
    } else if qubo.is_free(xs, a) && qubo.is_free(xs, b) {
        let m = vstd::math::min(a, b);
        if upper_pair(mark, ind as int, a, b) {
            assert(m == ind as int);
            assert(!done.contains(m as usize));
        } else if qubo.entry(a, b) is Some {
            assert(0 <= a < qubo.dim() && 0 <= b < qubo.dim());
            if m as usize == ind {
                assert(m == ind as int);
                if a == ind as int {
                    assert(mark[b]);
                } else {
                    assert(mark[a]);
                }
            }
            assert(done2.contains(m as usize) == done.contains(m as usize));
        }
    } else {
        if upper_pair(mark, ind as int, a, b) {
            if a == ind as int {
                assert(mark[b]);
            } else {
                assert(mark[a]);
            }
        }
    }
}

/// Creates the sub-QUBO on the free variables, those on which some parent
/// differs from the first: an entry between two free variables is kept, and
/// every fixed variable set to `true` in the first parent has its
/// coefficient folded into the diagonal of each free neighbour.
pub fn make_sub_problem_from(qubo: &Qubo, parents: &[&QuboSolution]) -> (sub: Qubo)
    requires
        qubo.wf(),
        qubo.folds_fit(assignments(parents@)),
        parents@.len() >= 1,
        forall|p: int, k: int| #![trigger parents@[p].x@.len(), qubo.vars()[k]] 0 <= p < parents@.len() && 0 <= k < qubo.vars().len() ==>
            qubo.vars()[k] < parents@[p].x@.len(),
    ensures
        sub.wf(),
        sub.dim() <= qubo.dim(),
        forall|a: int, b: int| #[trigger] sub.entry(a, b) == qubo.sub_entry(assignments(parents@), a, b),
        forall|a: usize| #[trigger] sub.vars().contains(a) <==> exists|b: int| #[trigger] qubo.sub_entry(assignments(parents@), a as int, b) is Some,
        forall|a: usize| #[trigger] sub.vars().contains(a) ==> qubo.is_free(assignments(parents@), a as int),
{
    let ghost xs = assignments(parents@);
    proof {
        qubo.lemma_wf();
    }
    let (free, mark) = free_variables(qubo, parents);
    let mut sub = Qubo::new();
    let mut t: usize = 0;
    proof {
        assert(free@.take(0).to_set() =~= Set::<usize>::empty());
    }
    while t < free.len()
        invariant
            0 <= t <= free@.len(),
            qubo.wf(),
            qubo.folds_fit(xs),
            xs == assignments(parents@),
            parents@.len() >= 1,
            qubo.dim() <= usize::MAX,
            mark@.len() == qubo.dim(),
            forall|v: int| 0 <= v < qubo.dim() ==> #[trigger] mark@[v] == qubo.is_free(xs, v),
            strictly_sorted(free@),
            forall|k: int| #![trigger free@[k]] 0 <= k < free@.len() ==> qubo.is_free(xs, free@[k] as int),
            forall|k: int| 0 <= k < free@.len() ==> #[trigger] free@[k] < qubo.dim(),
            sub.wf(),
            sub.dim() <= qubo.dim(),
            forall|a: int, b: int| #[trigger] sub.entry(a, b) == qubo.partial_sub_entry(xs, free@.take(t as int).to_set(), a, b),
            forall|a: usize| #[trigger] sub.vars().contains(a) ==> exists|b: int| #[trigger] sub.entry(a as int, b) is Some,
        decreases free@.len() - t,
    {
        let ind = free[t];
        let ghost done = free@.take(t as int).to_set();
        let ghost start = sub;
        proof {
            assert(!done.contains(ind)) by {
                if done.contains(ind) {
                    let s = choose|s: int| 0 <= s < t && #[trigger] free@.take(t as int)[s] == ind;
                    assert(free@[s] < free@[t as int]);
                }
            }
            assert(free@.take(t as int + 1).to_set() =~= done.insert(ind)) by {
                let s1 = free@.take(t as int + 1);
                let s0 = free@.take(t as int);
                assert(s1 =~= s0.push(ind));
                assert forall|y: usize| s1.to_set().contains(y) implies done.insert(ind).contains(y) by {
                    let k = choose|k: int| 0 <= k < s1.len() && s1[k] == y;
                    if k < t {
                        assert(s0[k] == y);
                        assert(s0.contains(y));
                    }
                }
                assert forall|y: usize| done.insert(ind).contains(y) implies s1.to_set().contains(y) by {
                    if y == ind {
                        assert(s1[t as int] == ind);
                    } else {
                        assert(s0.contains(y));
                        let k = choose|k: int| 0 <= k < s0.len() && s0[k] == y;
                        assert(s1[k] == y);
                    }
                }
            }
        }
        copy_upper_row(qubo, &mark, ind, &mut sub);
        let ghost copied = sub;
        let (acc, found) = fold_row(qubo, parents, &mark, ind);
        if found {
            sub.set_q(ind, ind, acc);
        }
        proof {
            let done2 = done.insert(ind);
            assert forall|a: int, b: int| #[trigger] sub.entry(a, b) == (
                if a == ind && b == ind && found { Some(acc) } else { copied.entry(a, b) }) by {}
            assert forall|a: int, b: int| #[trigger] sub.entry(a, b) == qubo.partial_sub_entry(xs, done2, a, b) by {
                lemma_step_entry(*qubo, xs, mark@, done, ind, start, copied, sub, acc, found, a, b);
            }
            assert forall|a: usize| #[trigger] sub.vars().contains(a) implies exists|b: int| #[trigger] sub.entry(a as int, b) is Some by {
                if start.vars().contains(a) {
                    let b = choose|b: int| #[trigger] start.entry(a as int, b) is Some;
                    assert(sub.entry(a as int, b) is Some);
                } else if copied.vars().contains(a) {
                    let b = choose|b: int| #[trigger] copied.entry(a as int, b) is Some;
                    assert(sub.entry(a as int, b) is Some);
                } else {
                    assert(sub.vars().to_set().contains(a));
                    assert(a == ind);
                    assert(sub.entry(a as int, a as int) is Some);
                }
            }
        }
        t += 1;
    }
    proof {
        let done = free@.take(free@.len() as int).to_set();
        assert(free@.take(free@.len() as int) =~= free@);
        assert forall|a: int, b: int| #[trigger] sub.entry(a, b) == qubo.sub_entry(xs, a, b) by {
            assert(sub.entry(a, b) == qubo.partial_sub_entry(xs, done, a, b));
            if a != b && qubo.is_free(xs, a) && qubo.is_free(xs, b) {
                let m = vstd::math::min(a, b);
                if 0 <= m < qubo.dim() {
                    assert(qubo.is_free(xs, m));
                    assert(free@.contains(m as usize));
                } else {
                    assert(qubo.entry(a, b) is None);
                }
            } else if a == b && qubo.is_free(xs, a) && qubo.has_folded_diag(xs, a) {
                let j = choose|j: int| qubo.folds_into(xs, a, j) && #[trigger] qubo.entry(a, j) is Some;
                assert(0 <= a < qubo.dim());
                assert(free@.contains(a as usize));
            }
        }
        sub.lemma_wf();
        assert forall|a: usize| #[trigger] sub.vars().contains(a) <==> exists|b: int| #[trigger] qubo.sub_entry(xs, a as int, b) is Some by {
            if sub.vars().contains(a) {
                let b = choose|b: int| #[trigger] sub.entry(a as int, b) is Some;
                assert(qubo.sub_entry(xs, a as int, b) is Some);
            }
            if exists|b: int| #[trigger] qubo.sub_entry(xs, a as int, b) is Some {
                let b = choose|b: int| #[trigger] qubo.sub_entry(xs, a as int, b) is Some;
                assert(sub.entry(a as int, b) is Some);
            }
        }
        assert forall|a: usize| #[trigger] sub.vars().contains(a) implies qubo.is_free(xs, a as int) by {
            let b = choose|b: int| #[trigger] qubo.sub_entry(xs, a as int, b) is Some;
        }
    }
    sub
}

} // verus!
