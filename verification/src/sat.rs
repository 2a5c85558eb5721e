//! Maximum satisfiability: a CNF formula over variables `1..=n_vars`
//! (DIMACS literals, `v` or `-v`), and the number of clauses an assignment
//! satisfies, which MaxSAT maximizes.

use vstd::prelude::*;
use crate::sums::{sum_to, sum_over, occurs, all_distinct, lemma_sum_over_distinct};
use crate::sorted::{strictly_sorted, insert_unique_sorted};

verus! {

/// The 0-based variable of a DIMACS literal: `|lit| - 1`.
pub open spec fn var_of(lit: i64) -> int {
    if lit > 0 {
        lit - 1
    } else {
        -lit - 1
    }
}

/// The literal is nonzero and names one of the first `n` variables.
pub open spec fn valid_lit(lit: i64, n: int) -> bool {
    lit != 0 && var_of(lit) < n
}

/// The literal holds under `x`.
pub open spec fn lit_true(lit: i64, x: Seq<bool>) -> bool {
    x[var_of(lit)] == (lit > 0)
}

/// Some literal of the clause holds under `x`.
pub open spec fn clause_sat(clause: Seq<i64>, x: Seq<bool>) -> bool {
    exists|k: int| 0 <= k < clause.len() && #[trigger] lit_true(clause[k], x)
}

/// Some literal of the clause names variable `v`.
pub open spec fn clause_has(clause: Seq<i64>, v: int) -> bool {
    exists|k: int| 0 <= k < clause.len() && #[trigger] var_of(clause[k]) == v
}

/// `x` with variable `i` flipped.
pub open spec fn flip(x: Seq<bool>, i: int) -> Seq<bool> {
    x.update(i, !x[i])
}

/// `x` with `a` flipped when `fa`, and then `b` flipped when `fb`.
pub open spec fn flipped(x: Seq<bool>, a: int, fa: bool, b: int, fb: bool) -> Seq<bool> {
    Seq::new(x.len(), |v: int| x[v] != ((fa && v == a) != (fb && v == b)))
}

/// A solution to the MaxSAT problem.
///
/// - `x[i]` is the truth value of variable `i + 1`,
/// - `gain[i]` is the change in the number of satisfied clauses if `x[i]`
///   is flipped (positive is an improvement),
/// - `n_satisfied` is the number of satisfied clauses.
#[derive(Debug, Clone)]
pub struct SatSolution {
    pub x: Vec<bool>,
    pub gain: Vec<i64>,
    pub n_satisfied: usize,
}

/// A MaxSAT instance: clauses of DIMACS literals over `n_vars` variables.
///
/// `clauses_per_var[i]` lists, increasing, the clauses that name variable
/// `i`, and `var_neighbors[i]` lists, increasing, the other variables that
/// share a clause with `i`.
#[derive(Debug, Clone)]
pub struct Sat {
    n_vars: usize,
    clauses: Vec<Vec<i64>>,
    clauses_per_var: Vec<Vec<usize>>,
    var_neighbors: Vec<Vec<usize>>,
}

impl Sat {
    /// The number of variables.
    pub closed spec fn nv(self) -> nat {
        self.n_vars as nat
    }

    /// The clauses, in the order they were added.
    pub closed spec fn cls(self) -> Seq<Seq<i64>> {
        self.clauses@.map_values(|c: Vec<i64>| c@)
    }

    /// The clause indices listed for variable `i`.
    pub closed spec fn cpv(self, i: int) -> Seq<usize> {
        self.clauses_per_var@[i]@
    }

    /// The neighbours listed for variable `i`.
    pub closed spec fn nbrs(self, i: int) -> Seq<usize> {
        self.var_neighbors@[i]@
    }

    /// Variables `v` and `w` occur together in some clause.
    pub open spec fn share_clause(self, v: int, w: int) -> bool {
        exists|c: int| 0 <= c < self.cls().len() && #[trigger] clause_has(self.cls()[c], v) && clause_has(self.cls()[c], w)
    }

    /// The representation invariant.
    pub closed spec fn wf(self) -> bool {
        &&& self.clauses_per_var@.len() == self.n_vars
        &&& self.var_neighbors@.len() == self.n_vars
        &&& forall|c: int, k: int| 0 <= c < self.clauses@.len() && 0 <= k < self.clauses@[c]@.len()
            ==> valid_lit(#[trigger] self.clauses@[c]@[k], self.n_vars as int)
        &&& forall|v: int| 0 <= v < self.n_vars ==> strictly_sorted(#[trigger] self.clauses_per_var@[v]@)
        &&& forall|v: int, t: int| 0 <= v < self.n_vars && 0 <= t < self.clauses_per_var@[v]@.len() ==> {
            let c = #[trigger] self.clauses_per_var@[v]@[t];
            &&& c < self.clauses@.len()
            &&& clause_has(self.clauses@[c as int]@, v)
        }
        &&& forall|v: int, c: int| 0 <= v < self.n_vars && 0 <= c < self.clauses@.len()
            && #[trigger] clause_has(self.clauses@[c]@, v) ==> self.clauses_per_var@[v]@.contains(c as usize)
        &&& forall|v: int| 0 <= v < self.n_vars ==> strictly_sorted(#[trigger] self.var_neighbors@[v]@)
        &&& forall|v: int, w: usize| 0 <= v < self.n_vars ==> (#[trigger] self.var_neighbors@[v]@.contains(w)
            <==> (w != v && w < self.n_vars && self.share_clause(v, w as int)))
    }

    /// What the invariant tells a user of the model.
    pub proof fn lemma_wf(self)
        requires
            self.wf(),
        ensures
            forall|c: int, k: int| 0 <= c < self.cls().len() && 0 <= k < self.cls()[c].len()
                ==> valid_lit(#[trigger] self.cls()[c][k], self.nv() as int),
            forall|v: int| 0 <= v < self.nv() ==> strictly_sorted(#[trigger] self.cpv(v)),
            forall|v: int, t: int| 0 <= v < self.nv() && 0 <= t < self.cpv(v).len() ==>
                #[trigger] self.cpv(v)[t] < self.cls().len() && clause_has(self.cls()[self.cpv(v)[t] as int], v),
            forall|v: int, c: int| 0 <= v < self.nv() && 0 <= c < self.cls().len()
                && #[trigger] clause_has(self.cls()[c], v) ==> self.cpv(v).contains(c as usize),
            forall|v: int| 0 <= v < self.nv() ==> strictly_sorted(#[trigger] self.nbrs(v)),
            forall|v: int, w: usize| 0 <= v < self.nv() ==> (#[trigger] self.nbrs(v).contains(w)
                <==> (w != v && w < self.nv() && self.share_clause(v, w as int))),
            self.cls().len() <= usize::MAX,
            self.nv() <= usize::MAX,
    {
        assert(self.clauses@.len() == self.clauses.len());
        assert forall|v: int, t: int| 0 <= v < self.nv() && 0 <= t < self.cpv(v).len() implies
            #[trigger] self.cpv(v)[t] < self.cls().len() && clause_has(self.cls()[self.cpv(v)[t] as int], v) by {
            let c = self.clauses_per_var@[v]@[t];
            assert(self.cls()[c as int] == self.clauses@[c as int]@);
        }
        assert forall|v: int, c: int| 0 <= v < self.nv() && 0 <= c < self.cls().len()
            && #[trigger] clause_has(self.cls()[c], v) implies self.cpv(v).contains(c as usize) by {
            assert(self.cls()[c] == self.clauses@[c]@);
        }
        assert forall|c: int, k: int| 0 <= c < self.cls().len() && 0 <= k < self.cls()[c].len()
            implies valid_lit(#[trigger] self.cls()[c][k], self.nv() as int) by {
            assert(self.cls()[c] == self.clauses@[c]@);
        }
    }

    /// `1` if clause `c` is satisfied by `x`, else `0`.
    pub open spec fn sat_term(self, x: Seq<bool>, c: int) -> int {
        if clause_sat(self.cls()[c], x) {
            1
        } else {
            0
        }
    }

    /// The number of clauses satisfied by `x`.
    pub open spec fn num_satisfied(self, x: Seq<bool>) -> int {
        sum_to(|c: int| self.sat_term(x, c), self.cls().len() as int)
    }

    /// The change in the number of satisfied clauses when variable `i` is
    /// flipped.
    pub open spec fn flip_gain(self, x: Seq<bool>, i: int) -> int {
        self.num_satisfied(flip(x, i)) - self.num_satisfied(x)
    }

    /// Creates an instance with `n_vars` variables and no clauses.
    pub fn new(n_vars: usize) -> (r: Sat)
        ensures
            r.wf(),
            r.nv() == n_vars,
            r.cls().len() == 0,
    {
        let mut clauses_per_var: Vec<Vec<usize>> = Vec::new();
        let mut var_neighbors: Vec<Vec<usize>> = Vec::new();
        let mut k: usize = 0;
        while k < n_vars
            invariant
                0 <= k <= n_vars,
                clauses_per_var@.len() == k,
                var_neighbors@.len() == k,
                forall|v: int| 0 <= v < k ==> (#[trigger] clauses_per_var@[v])@.len() == 0,
                forall|v: int| 0 <= v < k ==> (#[trigger] var_neighbors@[v])@.len() == 0,
            decreases n_vars - k,
        {
            clauses_per_var.push(Vec::new());
            var_neighbors.push(Vec::new());
            k += 1;
        }
        let r = Sat { n_vars, clauses: Vec::new(), clauses_per_var, var_neighbors };
        proof {
            assert(r.cls() =~= Seq::<Seq<i64>>::empty());
            assert forall|v: int, w: usize| 0 <= v < r.n_vars implies (#[trigger] r.var_neighbors@[v]@.contains(w)
                <==> (w != v && w < r.n_vars && r.share_clause(v, w as int))) by {
                assert(r.var_neighbors@[v]@.len() == 0);
            }
        }
        r
    }

    /// The number of variables.
    pub fn n_vars(&self) -> (r: usize)
        ensures
            r == self.nv(),
    {
        self.n_vars
    }

    /// The number of clauses.
    pub fn n_clauses(&self) -> (r: usize)
        ensures
            r == self.cls().len(),
    {
        self.clauses.len()
    }

    /// The literals of clause `idx`.
    pub fn clause(&self, idx: usize) -> (r: &[i64])
        requires
            idx < self.cls().len(),
        ensures
            r@ == self.cls()[idx as int],
    {
        self.clauses[idx].as_slice()
    }

    /// All clauses, in the order they were added.
    pub fn all_clauses(&self) -> (r: &[Vec<i64>])
        ensures
            r@.len() == self.cls().len(),
            forall|c: int| 0 <= c < r@.len() ==> #[trigger] r@[c]@ == self.cls()[c],
    {
        self.clauses.as_slice()
    }

    /// The indices of the clauses that name variable `i`, increasing.
    pub fn clause_indices_of_var(&self, i: usize) -> (r: &[usize])
        requires
            self.wf(),
            i < self.nv(),
        ensures
            r@ == self.cpv(i as int),
            strictly_sorted(r@),
            forall|c: int| 0 <= c < self.cls().len() ==> (#[trigger] r@.contains(c as usize) <==> clause_has(self.cls()[c], i as int)),
    {
        proof {
            self.lemma_wf();
            assert forall|c: int| 0 <= c < self.cls().len() implies (#[trigger] self.cpv(i as int).contains(c as usize)
                <==> clause_has(self.cls()[c], i as int)) by {
                if self.cpv(i as int).contains(c as usize) {
                    let t = choose|t: int| 0 <= t < self.cpv(i as int).len() && self.cpv(i as int)[t] == c as usize;
                    assert(clause_has(self.cls()[self.cpv(i as int)[t] as int], i as int));
                    assert(self.cpv(i as int)[t] as int == c);
                }
                if clause_has(self.cls()[c], i as int) {
                    assert(self.cpv(i as int).contains(c as usize));
                }
            }
        }
        self.clauses_per_var[i].as_slice()
    }

    /// The clauses that name variable `i`, in increasing order of index.
    pub fn clauses_of_var(&self, i: usize) -> (r: Vec<&[i64]>)
        requires
            self.wf(),
            i < self.nv(),
        ensures
            r@.len() == self.cpv(i as int).len(),
            forall|t: int| 0 <= t < r@.len() ==> (#[trigger] r@[t])@ == self.cls()[self.cpv(i as int)[t] as int],
    {
        proof {
            self.lemma_wf();
        }
        let idx = self.clauses_per_var[i].as_slice();
        let mut r: Vec<&[i64]> = Vec::new();
        let mut t: usize = 0;
        while t < idx.len()
            invariant
                0 <= t <= idx@.len(),
                i < self.nv(),
                idx@ == self.cpv(i as int),
                forall|tt: int| 0 <= tt < idx@.len() ==> #[trigger] idx@[tt] < self.cls().len(),
                r@.len() == t,
                forall|tt: int| 0 <= tt < t ==> (#[trigger] r@[tt])@ == self.cls()[idx@[tt] as int],
            decreases idx@.len() - t,
        {
            let c = idx[t];
            proof {
                assert(self.cls()[c as int] == self.clauses@[c as int]@);
            }
            r.push(self.clauses[c].as_slice());
            t += 1;
        }
        r
    }

    /// The other variables that share a clause with variable `i`, increasing.
    pub fn var_neighbors(&self, i: usize) -> (r: &[usize])
        requires
            self.wf(),
            i < self.nv(),
        ensures
            r@ == self.nbrs(i as int),
            strictly_sorted(r@),
            forall|w: usize| #[trigger] r@.contains(w) <==> (w != i && w < self.nv() && self.share_clause(i as int, w as int)),
    {
        proof {
            self.lemma_wf();
        }
        self.var_neighbors[i].as_slice()
    }
}

/// The 0-based variable of a literal whose variable is below `n`.
pub(crate) fn var_index(lit: i64, n: usize) -> (r: usize)
    requires
        valid_lit(lit, n as int),
    ensures
        r as int == var_of(lit),
        r < n,
{
    if lit > 0 {
        (lit - 1) as usize
    } else {
        (-(lit + 1)) as usize
    }
}

/// The distinct variables of a clause, increasing.
fn clause_vars(literals: &[i64], n: usize) -> (r: Vec<usize>)
    requires
        forall|k: int| 0 <= k < literals@.len() ==> valid_lit(#[trigger] literals@[k], n as int),
    ensures
        strictly_sorted(r@),
        forall|w: usize| #[trigger] r@.contains(w) <==> clause_has(literals@, w as int),
        forall|t: int| 0 <= t < r@.len() ==> #[trigger] r@[t] < n,
{
    let mut vars: Vec<usize> = Vec::new();
    let mut k: usize = 0;
    while k < literals.len()
        invariant
            0 <= k <= literals@.len(),
            forall|kk: int| 0 <= kk < literals@.len() ==> valid_lit(#[trigger] literals@[kk], n as int),
            strictly_sorted(vars@),
            forall|w: usize| #[trigger] vars@.contains(w) <==> clause_has(literals@.take(k as int), w as int),
            forall|t: int| 0 <= t < vars@.len() ==> #[trigger] vars@[t] < n,
        decreases literals@.len() - k,
    {
        let v = var_index(literals[k], n);
        let ghost before = vars@;
        insert_unique_sorted(&mut vars, v);
        proof {
            let t1 = literals@.take(k as int + 1);
            let t0 = literals@.take(k as int);
            assert forall|w: usize| #[trigger] vars@.contains(w) <==> clause_has(t1, w as int) by {
                assert(vars@.to_set().contains(w) == before.to_set().insert(v).contains(w));
                if clause_has(t1, w as int) {
                    let kk = choose|kk: int| 0 <= kk < t1.len() && #[trigger] var_of(t1[kk]) == w as int;
                    if kk < k {
                        assert(t0[kk] == t1[kk]);
                        assert(clause_has(t0, w as int));
                    }
                }
                if clause_has(t0, w as int) {
                    let kk = choose|kk: int| 0 <= kk < t0.len() && #[trigger] var_of(t0[kk]) == w as int;
                    assert(t0[kk] == t1[kk]);
                }
                if w == v {
                    assert(var_of(t1[k as int]) == w as int);
                }
            }
            assert forall|t: int| 0 <= t < vars@.len() implies #[trigger] vars@[t] < n by {
                assert(vars@.to_set().contains(vars@[t]));
                if vars@[t] != v {
                    assert(before.to_set().contains(vars@[t]));
                    let tt = choose|tt: int| 0 <= tt < before.len() && before[tt] == vars@[t];
                }
            }
        }
        k += 1;
    }
    proof {
        assert(literals@.take(literals@.len() as int) =~= literals@);
    }
    vars
}

impl Sat {
    /// Adds a clause of DIMACS literals (`v` or `-v` for variable `v`,
    /// counted from 1). Every literal must be nonzero and name one of the
    /// `n_vars` variables.
    pub fn add_clause(&mut self, literals: &[i64])
        requires
            old(self).wf(),
            forall|k: int| 0 <= k < literals@.len() ==> valid_lit(#[trigger] literals@[k], old(self).nv() as int),
            old(self).cls().len() < usize::MAX,
        ensures
            final(self).wf(),
            final(self).nv() == old(self).nv(),
            final(self).cls() == old(self).cls().push(literals@),
    {
        proof {
            self.lemma_wf();
        }
        let n = self.n_vars;
        let idx = self.clauses.len();
        let vars = clause_vars(literals, n);
        let ghost old_cpv = self.clauses_per_var@;
        let ghost old_vn = self.var_neighbors@;
        let mut t: usize = 0;
        while t < vars.len()
            invariant
                0 <= t <= vars@.len(),
                n == self.n_vars,
                self.n_vars == old(self).n_vars,
                self.clauses@ == old(self).clauses@,
                self.var_neighbors@ == old_vn,
                self.clauses_per_var@.len() == n,
                old_cpv.len() == n,
                strictly_sorted(vars@),
                forall|tt: int| 0 <= tt < vars@.len() ==> #[trigger] vars@[tt] < n,
                forall|u: int| 0 <= u < n ==> #[trigger] self.clauses_per_var@[u]@ == (
                    if vars@.take(t as int).contains(u as usize) { old_cpv[u]@.push(idx) } else { old_cpv[u]@ }),
            decreases vars@.len() - t,
        {
            let v = vars[t];
            proof {
                assert(!vars@.take(t as int).contains(v)) by {
                    if vars@.take(t as int).contains(v) {
                        let s = choose|s: int| 0 <= s < t && #[trigger] vars@.take(t as int)[s] == v;
                        assert(vars@[s] < vars@[t as int]);
                    }
                }
            }
            self.clauses_per_var[v].push(idx);
            proof {
                assert forall|u: int| 0 <= u < n implies #[trigger] self.clauses_per_var@[u]@ == (
                    if vars@.take(t as int + 1).contains(u as usize) { old_cpv[u]@.push(idx) } else { old_cpv[u]@ }) by {
                    assert(vars@.take(t as int + 1) =~= vars@.take(t as int).push(v));
                    if u != v as int {
                        assert(vars@.take(t as int + 1).contains(u as usize) == vars@.take(t as int).contains(u as usize));
                    } else {
                        assert(vars@.take(t as int + 1)[t as int] == v);
                    }
                }
            }
            t += 1;
        }
        proof {
            assert(vars@.take(vars@.len() as int) =~= vars@);
            assert forall|u: int| 0 <= u < n implies strictly_sorted(#[trigger] self.var_neighbors@[u]@) by {
                assert(old(self).nbrs(u) == old_vn[u]@);
            }
        }
        let mut p: usize = 0;
        while p < vars.len()
            invariant
                0 <= p <= vars@.len(),
                n == self.n_vars,
                self.n_vars == old(self).n_vars,
                self.clauses@ == old(self).clauses@,
                self.clauses_per_var@.len() == n,
                forall|u: int| 0 <= u < n ==> #[trigger] self.clauses_per_var@[u]@ == (
                    if vars@.contains(u as usize) { old_cpv[u]@.push(idx) } else { old_cpv[u]@ }),
                self.var_neighbors@.len() == n,
                old_vn.len() == n,
                strictly_sorted(vars@),
                forall|tt: int| 0 <= tt < vars@.len() ==> #[trigger] vars@[tt] < n,
                forall|u: int| 0 <= u < n ==> strictly_sorted(#[trigger] self.var_neighbors@[u]@),
                forall|u: int, w: usize| 0 <= u < n ==> (#[trigger] self.var_neighbors@[u]@.contains(w) <==> (
                    old_vn[u]@.contains(w) || (vars@.take(p as int).contains(u as usize) && vars@.contains(w) && w != u))),
            decreases vars@.len() - p,
        {
            let a = vars[p];
            let mut q: usize = 0;
            while q < vars.len()
                invariant
                    0 <= q <= vars@.len(),
                    p < vars@.len(),
                    a == vars@[p as int],
                    n == self.n_vars,
                    self.n_vars == old(self).n_vars,
                    self.clauses@ == old(self).clauses@,
                    self.clauses_per_var@.len() == n,
                    forall|u: int| 0 <= u < n ==> #[trigger] self.clauses_per_var@[u]@ == (
                        if vars@.contains(u as usize) { old_cpv[u]@.push(idx) } else { old_cpv[u]@ }),
                    self.var_neighbors@.len() == n,
                    old_vn.len() == n,
                    strictly_sorted(vars@),
                    forall|tt: int| 0 <= tt < vars@.len() ==> #[trigger] vars@[tt] < n,
                    forall|u: int| 0 <= u < n ==> strictly_sorted(#[trigger] self.var_neighbors@[u]@),
                    forall|u: int, w: usize| 0 <= u < n ==> (#[trigger] self.var_neighbors@[u]@.contains(w) <==> (
                        old_vn[u]@.contains(w) || (vars@.take(p as int).contains(u as usize) && vars@.contains(w) && w != u)
                        || (u == a && vars@.take(q as int).contains(w) && w != a))),
                decreases vars@.len() - q,
            {
                let b = vars[q];
                let ghost before = self.var_neighbors@;
                if b != a {
                    insert_unique_sorted(&mut self.var_neighbors[a], b);
                }
                proof {
                    assert(vars@.take(q as int + 1) =~= vars@.take(q as int).push(b));
                    assert forall|u: int, w: usize| 0 <= u < n implies (#[trigger] self.var_neighbors@[u]@.contains(w) <==> (
                        old_vn[u]@.contains(w) || (vars@.take(p as int).contains(u as usize) && vars@.contains(w) && w != u)
                        || (u == a && vars@.take(q as int + 1).contains(w) && w != a))) by {
                        if u == a as int && b != a {
                            assert(self.var_neighbors@[u]@.to_set().contains(w) == before[u]@.to_set().insert(b).contains(w));
                        }
                        if w == b {
                            assert(vars@.take(q as int + 1)[q as int] == b);
                        }
                        if vars@.take(q as int).contains(w) {
                            let s = choose|s: int| 0 <= s < q && #[trigger] vars@.take(q as int)[s] == w;
                            assert(vars@.take(q as int + 1)[s] == w);
                        }
                        if vars@.take(q as int + 1).contains(w) {
                            let s = choose|s: int| 0 <= s < q + 1 && #[trigger] vars@.take(q as int + 1)[s] == w;
                            if s < q {
                                assert(vars@.take(q as int)[s] == w);
                            }
                        }
                    }
                }
                q += 1;
            }
            proof {
                assert(vars@.take(vars@.len() as int) =~= vars@);
                assert(vars@.take(p as int + 1) =~= vars@.take(p as int).push(a));
                assert forall|u: int, w: usize| 0 <= u < n implies (#[trigger] self.var_neighbors@[u]@.contains(w) <==> (
                    old_vn[u]@.contains(w) || (vars@.take(p as int + 1).contains(u as usize) && vars@.contains(w) && w != u))) by {
                    assert(vars@.take(p as int + 1).contains(u as usize) == (vars@.take(p as int).contains(u as usize) || u as usize == a));
                }
            }
            p += 1;
        }
        let ghost old_self = *self;
        let mut clause: Vec<i64> = Vec::new();
        let mut k: usize = 0;
        while k < literals.len()
            invariant
                0 <= k <= literals@.len(),
                clause@ == literals@.take(k as int),
            decreases literals@.len() - k,
        {
            clause.push(literals[k]);
            k += 1;
            proof {
                assert(clause@ =~= literals@.take(k as int));
            }
        }
        proof {
            assert(literals@.take(literals@.len() as int) =~= literals@);
        }
        self.clauses.push(clause);
        proof {
            assert(vars@.take(vars@.len() as int) =~= vars@);
            self.lemma_add_clause_wf(*old(self), literals@, vars@, old_cpv, old_vn);
        }
    }

    proof fn lemma_add_clause_wf(self, prev: Sat, lits: Seq<i64>, vars: Seq<usize>, old_cpv: Seq<Vec<usize>>, old_vn: Seq<Vec<usize>>)
        requires
            prev.wf(),
            old_cpv == prev.clauses_per_var@,
            old_vn == prev.var_neighbors@,
            self.n_vars == prev.n_vars,
            self.clauses@.len() == prev.clauses@.len() + 1,
            forall|c: int| 0 <= c < prev.clauses@.len() ==> #[trigger] self.clauses@[c] == prev.clauses@[c],
            self.clauses@[prev.clauses@.len() as int]@ == lits,
            forall|k: int| 0 <= k < lits.len() ==> valid_lit(#[trigger] lits[k], prev.n_vars as int),
            strictly_sorted(vars),
            forall|w: usize| #[trigger] vars.contains(w) <==> clause_has(lits, w as int),
            forall|tt: int| 0 <= tt < vars.len() ==> #[trigger] vars[tt] < prev.n_vars,
            self.clauses_per_var@.len() == prev.n_vars,
            forall|u: int| 0 <= u < prev.n_vars ==> #[trigger] self.clauses_per_var@[u]@ == (
                if vars.contains(u as usize) { old_cpv[u]@.push(prev.clauses@.len() as usize) } else { old_cpv[u]@ }),
            self.var_neighbors@.len() == prev.n_vars,
            forall|u: int| 0 <= u < prev.n_vars ==> strictly_sorted(#[trigger] self.var_neighbors@[u]@),
            forall|u: int, w: usize| 0 <= u < prev.n_vars ==> (#[trigger] self.var_neighbors@[u]@.contains(w) <==> (
                old_vn[u]@.contains(w) || (vars.contains(u as usize) && vars.contains(w) && w != u))),
        ensures
            self.wf(),
            self.cls() == prev.cls().push(lits),
    {
        let n = prev.n_vars as int;
        let idx = prev.clauses@.len() as int;
        assert(prev.clauses@.len() == prev.clauses.len());
        assert(self.cls() =~= prev.cls().push(lits)) by {
            assert forall|c: int| 0 <= c < self.cls().len() implies #[trigger] self.cls()[c] == prev.cls().push(lits)[c] by {
                if c < idx {
                    assert(self.clauses@[c] == prev.clauses@[c]);
                }
            }
        }
        assert forall|c: int, k: int| 0 <= c < self.clauses@.len() && 0 <= k < self.clauses@[c]@.len()
            implies valid_lit(#[trigger] self.clauses@[c]@[k], self.n_vars as int) by {
            if c < idx {
                assert(self.clauses@[c] == prev.clauses@[c]);
            }
        }
        assert forall|v: int| 0 <= v < n implies strictly_sorted(#[trigger] self.clauses_per_var@[v]@) by {
            if vars.contains(v as usize) {
                let s = old_cpv[v]@;
                assert forall|t: int| 0 <= t < s.len() implies #[trigger] s[t] < idx by {
                    assert(prev.clauses_per_var@[v]@[t] < prev.clauses@.len());
                }
            }
        }
        assert forall|v: int, t: int| 0 <= v < n && 0 <= t < self.clauses_per_var@[v]@.len() implies {
            let c = #[trigger] self.clauses_per_var@[v]@[t];
            &&& c < self.clauses@.len()
            &&& clause_has(self.clauses@[c as int]@, v)
        } by {
            let c = self.clauses_per_var@[v]@[t];
            if t < old_cpv[v]@.len() {
                assert(c == prev.clauses_per_var@[v]@[t]);
                assert(self.clauses@[c as int] == prev.clauses@[c as int]);
            } else {
                assert(vars.contains(v as usize));
                assert(c as int == idx);
            }
        }
        assert forall|v: int, c: int| 0 <= v < n && 0 <= c < self.clauses@.len()
            && #[trigger] clause_has(self.clauses@[c]@, v) implies self.clauses_per_var@[v]@.contains(c as usize) by {
            if c < idx {
                assert(self.clauses@[c] == prev.clauses@[c]);
                assert(prev.clauses_per_var@[v]@.contains(c as usize));
                let t = choose|t: int| 0 <= t < old_cpv[v]@.len() && old_cpv[v]@[t] == c as usize;
                assert(self.clauses_per_var@[v]@[t] == c as usize);
            } else {
                assert(vars.contains(v as usize));
                assert(self.clauses_per_var@[v]@[old_cpv[v]@.len() as int] == c as usize);
            }
        }
        assert forall|v: int, w: usize| 0 <= v < n implies (#[trigger] self.var_neighbors@[v]@.contains(w)
            <==> (w != v && w < self.n_vars && self.share_clause(v, w as int))) by {
            assert(prev.var_neighbors@[v]@.contains(w) <==> (w != v && w < prev.n_vars && prev.share_clause(v, w as int)));
            if prev.share_clause(v, w as int) {
                let c = choose|c: int| 0 <= c < prev.cls().len() && #[trigger] clause_has(prev.cls()[c], v) && clause_has(prev.cls()[c], w as int);
                assert(self.cls()[c] == prev.cls()[c]);
            }
            if self.share_clause(v, w as int) {
                let c = choose|c: int| 0 <= c < self.cls().len() && #[trigger] clause_has(self.cls()[c], v) && clause_has(self.cls()[c], w as int);
                if c < idx {
                    assert(self.cls()[c] == prev.cls()[c]);
                    assert(prev.share_clause(v, w as int));
                } else {
                    assert(self.cls()[c] == lits);
                    assert(vars.contains(w));
                    assert(vars.contains(v as usize));
                }
            }
            if vars.contains(v as usize) && vars.contains(w) && w != v {
                assert(clause_has(self.cls()[idx], v));
                assert(clause_has(self.cls()[idx], w as int));
                let tt = choose|tt: int| 0 <= tt < vars.len() && vars[tt] == w;
            }
        }
    }
}

/// Whether `clause` holds under `x` with `a` flipped when `fa` and `b`
/// flipped when `fb`, without changing `x`.
fn clause_true_under(clause: &[i64], x: &[bool], a: usize, fa: bool, b: usize, fb: bool) -> (r: bool)
    requires
        forall|k: int| 0 <= k < clause@.len() ==> valid_lit(#[trigger] clause@[k], x@.len() as int),
    ensures
        r == clause_sat(clause@, flipped(x@, a as int, fa, b as int, fb)),
{
    let ghost y = flipped(x@, a as int, fa, b as int, fb);
    let mut k: usize = 0;
    while k < clause.len()
        invariant
            0 <= k <= clause@.len(),
            y == flipped(x@, a as int, fa, b as int, fb),
            forall|kk: int| 0 <= kk < clause@.len() ==> valid_lit(#[trigger] clause@[kk], x@.len() as int),
            forall|kk: int| 0 <= kk < k ==> !#[trigger] lit_true(clause@[kk], y),
        decreases clause@.len() - k,
    {
        let lit = clause[k];
        let v = var_index(lit, x.len());
        let val = x[v] != ((fa && v == a) != (fb && v == b));
        proof {
            assert(y[v as int] == val);
        }
        if val == (lit > 0) {
            proof {
                assert(lit_true(clause@[k as int], y));
            }
            return true;
        }
        k += 1;
    }
    false
}

/// Outside the flipped variable, a clause keeps its truth value.
proof fn lemma_clause_sat_flip_other(clause: Seq<i64>, y: Seq<bool>, j: int)
    requires
        !clause_has(clause, j),
        0 <= j < y.len(),
        forall|k: int| 0 <= k < clause.len() ==> valid_lit(#[trigger] clause[k], y.len() as int),
    ensures
        clause_sat(clause, flip(y, j)) == clause_sat(clause, y),
{
    assert forall|k: int| 0 <= k < clause.len() implies #[trigger] lit_true(clause[k], flip(y, j)) == lit_true(clause[k], y) by {
        assert(var_of(clause[k]) != j);
    }
    if clause_sat(clause, y) {
        let k = choose|k: int| 0 <= k < clause.len() && #[trigger] lit_true(clause[k], y);
        assert(lit_true(clause[k], flip(y, j)));
    }
    if clause_sat(clause, flip(y, j)) {
        let k = choose|k: int| 0 <= k < clause.len() && #[trigger] lit_true(clause[k], flip(y, j));
        assert(lit_true(clause[k], y));
    }
}

impl Sat {
    /// The change in satisfied clauses when `j` is flipped, evaluated in the
    /// assignment `x` with `a` flipped when `fa`.
    fn gain_under(&self, x: &[bool], a: usize, fa: bool, j: usize) -> (r: i64)
        requires
            self.wf(),
            x@.len() >= self.nv(),
            j < self.nv(),
            fa ==> a < self.nv(),
            self.cls().len() <= i64::MAX,
        ensures
            r == self.flip_gain(flipped(x@, a as int, fa, 0, false), j as int),
    {
        proof {
            self.lemma_wf();
        }
        let ghost y = flipped(x@, a as int, fa, 0, false);
        let ghost yj = flip(y, j as int);
        let ghost m = self.cls().len() as int;
        let ghost d = |c: int| self.sat_term(yj, c) - self.sat_term(y, c);
        proof {
            assert(flipped(x@, a as int, fa, j as int, true) =~= yj);
        }
        let idx = self.clauses_per_var[j].as_slice();
        proof {
            crate::sorted::lemma_sorted_len(idx@, m);
        }
        let mut gain: i64 = 0;
        let mut t: usize = 0;
        while t < idx.len()
            invariant
                0 <= t <= idx@.len(),
                self.wf(),
                idx@ == self.cpv(j as int),
                j < self.nv(),
                x@.len() >= self.nv(),
                m == self.cls().len(),
                m <= i64::MAX,
                y == flipped(x@, a as int, fa, 0, false),
                yj == flip(y, j as int),
                flipped(x@, a as int, fa, j as int, true) == yj,
                d == (|c: int| self.sat_term(yj, c) - self.sat_term(y, c)),
                forall|tt: int| 0 <= tt < idx@.len() ==> #[trigger] idx@[tt] < m,
                idx@.len() <= m,
                forall|c: int, k: int| 0 <= c < m && 0 <= k < self.cls()[c].len()
                    ==> valid_lit(#[trigger] self.cls()[c][k], self.nv() as int),
                gain == sum_over(idx@.take(t as int), d),
                -t <= gain <= t,
            decreases idx@.len() - t,
        {
            let c = idx[t];
            let clause = self.clauses[c].as_slice();
            proof {
                assert(self.cls()[c as int] == clause@);
                assert forall|k: int| 0 <= k < clause@.len() implies valid_lit(#[trigger] clause@[k], x@.len() as int) by {
                    assert(valid_lit(self.cls()[c as int][k], self.nv() as int));
                }
            }
            let was = clause_true_under(clause, x, a, fa, j, false);
            let will = clause_true_under(clause, x, a, fa, j, true);
            proof {
                assert(flipped(x@, a as int, fa, j as int, false) =~= y);
                assert(idx@.take(t as int + 1).drop_last() =~= idx@.take(t as int));
                assert(idx@.take(t as int + 1).last() == c);
            }
            if will && !was {
                gain = gain + 1;
            } else if was && !will {
                gain = gain - 1;
            }
            t += 1;
        }
        proof {
            assert(idx@.take(idx@.len() as int) =~= idx@);
            let s = idx@;
            assert(all_distinct(s)) by {
                assert forall|p: int, q: int| 0 <= p < s.len() && 0 <= q < s.len() && p != q implies s[p] != s[q] by {
                    if p < q {
                        assert(s[p] < s[q]);
                    } else {
                        assert(s[q] < s[p]);
                    }
                }
            }
            assert forall|c: int| 0 <= c < m && !occurs(s, c) implies #[trigger] d(c) == 0 by {
                if clause_has(self.cls()[c], j as int) {
                    assert(self.cpv(j as int).contains(c as usize));
                    let tt = choose|tt: int| 0 <= tt < s.len() && s[tt] == c as usize;
                    assert(s[tt] as int == c);
                }
                assert forall|k: int| 0 <= k < self.cls()[c].len() implies valid_lit(#[trigger] self.cls()[c][k], y.len() as int) by {
                    assert(valid_lit(self.cls()[c][k], self.nv() as int));
                }
                lemma_clause_sat_flip_other(self.cls()[c], y, j as int);
            }
            lemma_sum_over_distinct(s, d, m);
            crate::sums::lemma_sum_to_split(|c: int| self.sat_term(yj, c), d, |c: int| self.sat_term(y, c), m);
        }
        gain
    }

    /// Whether the clause is satisfied under `x`: some literal `v` has
    /// `x[v - 1]`, or some literal `-v` has `!x[v - 1]`.
    pub fn is_clause_satisfied(clause: &[i64], x: &[bool]) -> (r: bool)
        requires
            forall|k: int| 0 <= k < clause@.len() ==> valid_lit(#[trigger] clause@[k], x@.len() as int),
        ensures
            r == clause_sat(clause@, x@),
    {
        proof {
            assert(flipped(x@, 0, false, 0, false) =~= x@);
        }
        clause_true_under(clause, x, 0, false, 0, false)
    }

    /// The number of clauses satisfied under `x`.
    pub fn calc_satisfied(&self, x: &[bool]) -> (r: usize)
        requires
            self.wf(),
            x@.len() >= self.nv(),
        ensures
            r == self.num_satisfied(x@),
    {
        proof {
            self.lemma_wf();
        }
        let ghost f = |c: int| self.sat_term(x@, c);
        let mut count: usize = 0;
        let mut c: usize = 0;
        while c < self.clauses.len()
            invariant
                0 <= c <= self.cls().len(),
                self.cls().len() == self.clauses@.len(),
                self.cls().len() <= usize::MAX,
                x@.len() >= self.nv(),
                f == (|c: int| self.sat_term(x@, c)),
                forall|cc: int, k: int| 0 <= cc < self.cls().len() && 0 <= k < self.cls()[cc].len()
                    ==> valid_lit(#[trigger] self.cls()[cc][k], self.nv() as int),
                count == sum_to(f, c as int),
                count <= c,
            decreases self.cls().len() - c,
        {
            let clause = self.clauses[c].as_slice();
            proof {
                assert(self.cls()[c as int] == clause@);
                assert forall|k: int| 0 <= k < clause@.len() implies valid_lit(#[trigger] clause@[k], x@.len() as int) by {
                    assert(valid_lit(self.cls()[c as int][k], self.nv() as int));
                }
            }
            if Self::is_clause_satisfied(clause, x) {
                count = count + 1;
            }
            c += 1;
        }
        count
    }

    /// The change in the number of satisfied clauses when variable `i` is
    /// flipped: `calc_satisfied` of the flipped assignment minus that of `x`.
    pub fn calc_gain(&self, x: &[bool], i: usize) -> (r: i64)
        requires
            self.wf(),
            x@.len() >= self.nv(),
            i < self.nv(),
            self.cls().len() <= i64::MAX,
        ensures
            r == self.flip_gain(x@, i as int),
    {
        proof {
            assert(flipped(x@, 0, false, 0, false) =~= x@);
        }
        self.gain_under(x, 0, false, i)
    }

    /// The gain of flipping `j` in the assignment where `flipped_var` has
    /// already been flipped, computed without changing `x`.
    pub fn calc_gain_with_virtual_flip(&self, x: &[bool], flipped_var: usize, j: usize) -> (r: i64)
        requires
            self.wf(),
            x@.len() >= self.nv(),
            flipped_var < self.nv(),
            j < self.nv(),
            self.cls().len() <= i64::MAX,
        ensures
            r == self.flip_gain(flip(x@, flipped_var as int), j as int),
    {
        proof {
            assert(flipped(x@, flipped_var as int, true, 0, false) =~= flip(x@, flipped_var as int));
        }
        self.gain_under(x, flipped_var, true, j)
    }
}

} // verus!
