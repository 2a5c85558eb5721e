//! Minimum vertex cover with a penalty for uncovered edges: the objective is
//! `|cover| + (n + 1) * uncovered_edges`, so every optimum is a cover.

use vstd::prelude::*;
use rand::rngs::SmallRng;
use crate::sums::{
    sum_to, sum_over, occurs, all_distinct, lemma_sum_over_distinct, lemma_sum_to_ext,
    lemma_sum_to_point, lemma_sum_to_split, lemma_sum_to_neg, lemma_sum_to_zero,
    lemma_sum_to_le, lemma_sum_to_nonneg_mono,
};
use crate::graph::Graph;

verus! {

/// A minimum vertex cover instance.
pub struct VertexCover {
    /// The underlying graph.
    pub graph: Graph,
}

/// A solution for the vertex cover problem.
#[derive(Debug, Clone)]
pub struct VertexCoverSolution {
    /// `cover[v]` holds iff vertex `v` is selected.
    pub cover: Vec<bool>,
    /// `gain[v]` is the change in `objective` if `v` is flipped (negative is
    /// an improvement).
    pub gain: Vec<i32>,
    /// `cover_size + penalty_weight * uncovered_edges`.
    pub objective: i32,
    /// The number of vertices in the cover.
    pub cover_size: usize,
    /// The number of edges with neither endpoint in the cover.
    pub uncovered_edges: usize,
}

/// `x` with `i` flipped.
pub open spec fn flip(x: Seq<bool>, i: int) -> Seq<bool> {
    x.update(i, !x[i])
}

/// `s * f(j)` is `g(j)` for a sign `s`: the sums scale the same way.
proof fn lemma_sum_scale(f: spec_fn(int) -> int, g: spec_fn(int) -> int, s: int, n: int)
    requires
        s == 1 || s == -1,
        forall|j: int| 0 <= j < n ==> #[trigger] g(j) == s * f(j),
    ensures
        sum_to(g, n) == s * sum_to(f, n),
{
    if s == 1 {
        lemma_sum_to_ext(f, g, n);
    } else {
        lemma_sum_to_neg(f, g, n);
    }
}

impl VertexCover {
    /// The number of vertex slots, `graph.len()`.
    pub open spec fn n(self) -> int {
        self.graph.dim() as int
    }

    /// The penalty for one uncovered edge, `n + 1`.
    pub open spec fn pw(self) -> int {
        self.n() + 1
    }

    /// `v` is a vertex of the graph.
    pub open spec fn is_vertex(self, v: int) -> bool {
        occurs(self.graph.verts(), v)
    }

    /// `1` if `j` is a neighbour of `i` outside the cover.
    pub open spec fn out_term(self, c: Seq<bool>, i: int, j: int) -> int {
        if self.graph.edge(i, j) && !c[j] { 1 } else { 0 }
    }

    /// The number of neighbours of `i` outside the cover.
    pub open spec fn out(self, c: Seq<bool>, i: int) -> int {
        sum_to(|j: int| self.out_term(c, i, j), self.n())
    }

    /// The change in objective when vertex `i` is flipped.
    pub open spec fn vgain(self, c: Seq<bool>, i: int) -> int {
        if c[i] {
            -1 + self.pw() * self.out(c, i)
        } else {
            1 - self.pw() * self.out(c, i)
        }
    }

    /// The cached gain: [`VertexCover::vgain`] on vertices, `0` elsewhere.
    pub open spec fn gain_at(self, c: Seq<bool>, i: int) -> int {
        if self.is_vertex(i) { self.vgain(c, i) } else { 0 }
    }

    /// `1` if `v` is a vertex in the cover.
    pub open spec fn in_term(self, c: Seq<bool>, v: int) -> int {
        if self.is_vertex(v) && c[v] { 1 } else { 0 }
    }

    /// The number of vertices in the cover.
    pub open spec fn cover_count(self, c: Seq<bool>) -> int {
        sum_to(|v: int| self.in_term(c, v), self.n())
    }

    /// `1` if `i < j` are joined and neither is in the cover.
    pub open spec fn unc_term(self, c: Seq<bool>, i: int, j: int) -> int {
        if i < j && self.graph.edge(i, j) && !c[i] && !c[j] { 1 } else { 0 }
    }

    /// The uncovered edges from `i` to larger vertices.
    pub open spec fn unc_row(self, c: Seq<bool>, i: int) -> int {
        sum_to(|j: int| self.unc_term(c, i, j), self.n())
    }

    /// The number of uncovered edges.
    pub open spec fn uncovered(self, c: Seq<bool>) -> int {
        sum_to(|i: int| self.unc_row(c, i), self.n())
    }

    /// The penalized objective `|cover| + pw * uncovered`.
    pub open spec fn objective(self, c: Seq<bool>) -> int {
        self.cover_count(c) + self.pw() * self.uncovered(c)
    }

    /// Every objective and gain of the instance fits an `i32`.
    pub open spec fn fits(self) -> bool {
        &&& self.graph.wf()
        &&& self.pw() <= i32::MAX
        &&& self.n() + self.pw() * self.graph.edge_count() <= i32::MAX
        &&& forall|i: int| 0 <= i < self.n() ==> 1 + self.pw() * #[trigger] self.graph.deg(i) <= i32::MAX
    }

    /// Flipping `k` changes the cover count by one, in the direction of the
    /// flip.
    pub proof fn lemma_cover_count_flip(self, c: Seq<bool>, k: int)
        requires
            self.graph.wf(),
            c.len() == self.n(),
            0 <= k < self.n(),
            self.is_vertex(k),
        ensures
            self.cover_count(flip(c, k)) == self.cover_count(c) + if c[k] { -1int } else { 1int },
    {
        let c2 = flip(c, k);
        lemma_sum_to_point(|v: int| self.in_term(c, v), |v: int| self.in_term(c2, v), k, self.n());
    }

    /// Flipping `k` changes the outside-neighbour count of another vertex
    /// `j` by one when they are joined.
    pub proof fn lemma_out_flip(self, c: Seq<bool>, k: int, j: int)
        requires
            self.graph.wf(),
            c.len() == self.n(),
            0 <= k < self.n(),
        ensures
            self.out(flip(c, k), j) == self.out(c, j) + if self.graph.edge(j, k) { if c[k] { 1int } else { -1int } } else { 0int },
    {
        let c2 = flip(c, k);
        lemma_sum_to_point(|l: int| self.out_term(c, j, l), |l: int| self.out_term(c2, j, l), k, self.n());
    }

    /// The flip law: flipping vertex `k` changes the objective by its gain.
    pub proof fn lemma_objective_flip(self, c: Seq<bool>, k: int)
        requires
            self.graph.wf(),
            c.len() == self.n(),
            0 <= k < self.n(),
            self.is_vertex(k),
        ensures
            self.objective(flip(c, k)) == self.objective(c) + self.vgain(c, k),
    {
        self.graph.lemma_wf();
        self.lemma_cover_count_flip(c, k);
        self.lemma_uncovered_flip(c, k);
        let u2 = self.uncovered(flip(c, k));
        let u1 = self.uncovered(c);
        let o = self.out(c, k);
        if c[k] {
            assert(self.pw() * u2 == self.pw() * u1 + self.pw() * o) by (nonlinear_arith)
                requires u2 == u1 + o;
        } else {
            assert(self.pw() * u2 == self.pw() * u1 - self.pw() * o) by (nonlinear_arith)
                requires u2 == u1 - o;
        }
    }

    /// Flipping `k` changes the number of uncovered edges by the number of
    /// its neighbours outside the cover, in the direction of the flip.
    pub proof fn lemma_uncovered_flip(self, c: Seq<bool>, k: int)
        requires
            self.graph.wf(),
            c.len() == self.n(),
            0 <= k < self.n(),
        ensures
            self.uncovered(flip(c, k)) == self.uncovered(c) + if c[k] { self.out(c, k) } else { -self.out(c, k) },
    {
        self.graph.lemma_wf();
        let n = self.n();
        let c2 = flip(c, k);
        let s: int = if c[k] { 1 } else { -1 };
        // Rows other than k change only at column k.
        let lower = |i: int| if i < k && self.graph.edge(i, k) && !c[i] { 1int } else { 0int };
        let upper = |j: int| if k < j && self.graph.edge(k, j) && !c[j] { 1int } else { 0int };
        assert forall|i: int| 0 <= i < n && i != k implies #[trigger] self.unc_row(c2, i) == self.unc_row(c, i) + s * lower(i) by {
            lemma_sum_to_point(|j: int| self.unc_term(c, i, j), |j: int| self.unc_term(c2, i, j), k, n);
        }
        // Row k changes by the larger outside neighbours.
        let d = |j: int| self.unc_term(c2, k, j) - self.unc_term(c, k, j);
        let sd = |j: int| s * upper(j);
        assert forall|j: int| 0 <= j < n implies #[trigger] sd(j) == d(j) by {}
        lemma_sum_to_split(|j: int| self.unc_term(c2, k, j), |j: int| self.unc_term(c, k, j), d, n);
        lemma_sum_scale(upper, d, s, n);
        // Sum the row changes.
        let r1 = |i: int| self.unc_row(c, i);
        let r2 = |i: int| self.unc_row(c2, i);
        let diff = |i: int| r2(i) - r1(i);
        let dl = |i: int| s * lower(i);
        let dk = |i: int| if i == k { s * sum_to(upper, n) } else { s * lower(i) };
        assert forall|i: int| 0 <= i < n implies #[trigger] diff(i) == dk(i) by {}
        lemma_sum_to_split(r2, r1, diff, n);
        lemma_sum_to_ext(diff, dk, n);
        lemma_sum_to_point(dl, dk, k, n);
        lemma_sum_scale(lower, dl, s, n);
        // The lower and upper outside neighbours together are all of them.
        let both = |j: int| self.out_term(c, k, j);
        assert forall|j: int| 0 <= j < n implies #[trigger] both(j) == lower(j) + upper(j) by {
            assert(self.graph.edge(j, k) == self.graph.edge(k, j));
            if self.graph.edge(k, j) {
                assert(j != k);
            }
        }
        lemma_sum_to_split(both, lower, upper, n);
        assert(lower(k) == 0);
        assert(s * sum_to(lower, n) + s * sum_to(upper, n) == s * (sum_to(lower, n) + sum_to(upper, n))) by (nonlinear_arith);
    }

    /// Creates a vertex cover instance on `graph`.
    pub fn new(graph: Graph) -> (r: VertexCover)
        ensures
            r.graph == graph,
    {
        VertexCover { graph }
    }

    /// The penalty weight applied to each uncovered edge, `graph.len() + 1`.
    pub fn penalty_weight(&self) -> (r: i32)
        requires
            self.graph.dim() < i32::MAX,
        ensures
            r == self.pw(),
    {
        (self.graph.len() as i32) + 1
    }
}

impl VertexCover {
    /// The counts are non-negative and bounded by the graph.
    pub proof fn lemma_bounds(self, c: Seq<bool>)
        requires
            self.graph.wf(),
        ensures
            0 <= self.cover_count(c) <= self.n(),
            0 <= self.uncovered(c) <= self.graph.edge_count(),
            forall|i: int| 0 <= i < self.n() ==> 0 <= #[trigger] self.out(c, i) <= self.graph.deg(i),
            forall|i: int| 0 <= i < self.n() ==> 0 <= #[trigger] self.unc_row(c, i) <= self.graph.upper_deg(i),
    {
        let n = self.n();
        lemma_sum_to_le(|v: int| self.in_term(c, v), |v: int| 1int, n);
        lemma_sum_to_nonneg_mono(|v: int| self.in_term(c, v), 0, n);
        crate::sums::lemma_sum_ones(n);
        assert forall|i: int| 0 <= i < n implies 0 <= #[trigger] self.out(c, i) <= self.graph.deg(i) by {
            lemma_sum_to_le(|j: int| self.out_term(c, i, j), |j: int| self.graph.edge_term(i, j), n);
            lemma_sum_to_nonneg_mono(|j: int| self.out_term(c, i, j), 0, n);
        }
        assert forall|i: int| 0 <= i < n implies 0 <= #[trigger] self.unc_row(c, i) <= self.graph.upper_deg(i) by {
            lemma_sum_to_le(|j: int| self.unc_term(c, i, j), |j: int| self.graph.upper_term(i, j), n);
            lemma_sum_to_nonneg_mono(|j: int| self.unc_term(c, i, j), 0, n);
        }
        lemma_sum_to_le(|i: int| self.unc_row(c, i), |i: int| self.graph.upper_deg(i), n);
        lemma_sum_to_nonneg_mono(|i: int| self.unc_row(c, i), 0, n);
    }

    /// Recomputes `(gain, objective, cover_size, uncovered_edges)` from
    /// scratch for the assignment `cover`.
    pub fn calculate_state(&self, cover: &[bool]) -> (r: (Vec<i32>, i32, usize, usize))
        requires
            self.fits(),
            cover@.len() >= self.n(),
        ensures
            r.0@.len() == self.n(),
            forall|i: int| 0 <= i < self.n() ==> #[trigger] r.0@[i] as int == self.gain_at(cover@, i),
            r.1 as int == self.objective(cover@),
            r.2 as int == self.cover_count(cover@),
            r.3 as int == self.uncovered(cover@),
    {
        let ghost c = cover@;
        proof {
            self.graph.lemma_wf();
            self.lemma_bounds(c);
        }
        let n = self.graph.len();
        let pw = self.penalty_weight();
        let verts = self.graph.iter_on_vertices();
        let ghost vs = verts@;
        proof {
            assert(all_distinct(vs)) by {
                assert forall|a: int, b: int| 0 <= a < vs.len() && 0 <= b < vs.len() && a != b implies vs[a] != vs[b] by {
                    if a < b { assert(vs[a] < vs[b]); } else { assert(vs[b] < vs[a]); }
                }
            }
        }
        let mut gain: Vec<i32> = Vec::new();
        let mut m: usize = 0;
        while m < n
            invariant
                0 <= m <= n,
                gain@.len() == m,
                forall|i: int| 0 <= i < m ==> #[trigger] gain@[i] == 0,
            decreases n - m,
        {
            gain.push(0);
            m += 1;
        }
        proof {
            assert forall|v: int| 0 <= v < n && !occurs(vs, v) implies #[trigger] self.graph.upper_deg(v) == 0 by {
                assert forall|j: int| 0 <= j < n implies #[trigger] self.graph.upper_term(v, j) == 0 by {
                    if self.graph.edge(v, j) {
                        assert(self.graph.verts().contains(v as usize));
                        let k = choose|k: int| 0 <= k < vs.len() && vs[k] == v as usize;
                        assert(vs[k] as int == v);
                    }
                }
                lemma_sum_to_zero(|j: int| self.graph.upper_term(v, j), n as int);
            }
            lemma_sum_over_distinct(vs, |i: int| self.graph.upper_deg(i), n as int);
            assert forall|v: int| 0 <= v < n implies #[trigger] self.graph.upper_deg(v) >= 0 by {
                lemma_sum_to_nonneg_mono(|j: int| self.graph.upper_term(v, j), 0, n as int);
            }
        }
        proof {
            let e = self.graph.edge_count();
            assert(0 <= e <= pw * e) by (nonlinear_arith)
                requires 0 <= e, pw >= 1;
        }
        let mut cover_size: usize = 0;
        let mut uncovered_edges: usize = 0;
        let mut t: usize = 0;
        while t < verts.len()
            invariant
                0 <= t <= vs.len(),
                verts@ == vs,
                vs == self.graph.verts(),
                self.fits(),
                all_distinct(vs),
                forall|k: int| 0 <= k < vs.len() ==> #[trigger] vs[k] < n,
                n == self.n(),
                pw == self.pw(),
                c == cover@,
                c.len() >= n,
                gain@.len() == n,
                forall|i: int| 0 <= i < n ==> #[trigger] gain@[i] as int == (
                    if occurs(vs.take(t as int), i) { self.vgain(c, i) } else { 0 }),
                cover_size as int == sum_over(vs.take(t as int), |v: int| self.in_term(c, v)),
                cover_size <= t,
                uncovered_edges as int == sum_over(vs.take(t as int), |i: int| self.unc_row(c, i)),
                uncovered_edges <= sum_over(vs.take(t as int), |i: int| self.graph.upper_deg(i)),
                forall|i: int| 0 <= i < n ==> 0 <= #[trigger] self.unc_row(c, i) <= self.graph.upper_deg(i),
                forall|i: int| 0 <= i < n ==> 0 <= #[trigger] self.out(c, i) <= self.graph.deg(i),
                sum_over(vs, |i: int| self.graph.upper_deg(i)) <= self.graph.edge_count(),
                forall|v: int| 0 <= v < n ==> #[trigger] self.graph.upper_deg(v) >= 0,
                self.graph.edge_count() <= i32::MAX,
            decreases vs.len() - t,
        {
            let i = verts[t];
            proof {
                self.graph.lemma_wf();
                assert(vs.take(t as int + 1).drop_last() =~= vs.take(t as int));
                assert(vs.take(t as int + 1).last() == i);
                assert(occurs(vs, i as int));
                crate::sums::lemma_sum_over_prefix_le(vs, |i: int| self.graph.upper_deg(i), t as int + 1);
            }
            if cover[i] {
                cover_size += 1;
            }
            let row = self.graph.iter_on_adjacency(i);
            proof {
                self.graph.lemma_deg_len(i as int);
                let d = self.graph.deg(i as int);
                assert(d <= pw * d) by (nonlinear_arith)
                    requires 0 <= d, pw >= 1;
            }
            let mut k: usize = 0;
            let mut unc: usize = 0;
            let mut outside: i32 = 0;
            while k < row.len()
                invariant
                    0 <= k <= row@.len(),
                    i < n,
                    n == self.n(),
                    row@ == self.graph.nbrs(i as int),
                    self.graph.wf(),
                    c == cover@,
                    c.len() >= n,
                    forall|kk: int| 0 <= kk < row@.len() ==> #[trigger] self.graph.edge(i as int, row@[kk] as int),
                    forall|kk: int| 0 <= kk < row@.len() ==> #[trigger] row@[kk] < n,
                    unc as int == sum_over(row@.take(k as int), |j: int| self.unc_term(c, i as int, j)),
                    unc <= k,
                    outside as int == sum_over(row@.take(k as int), |j: int| self.out_term(c, i as int, j)),
                    0 <= outside <= k,
                    k <= i32::MAX,
                    row@.len() <= i32::MAX,
                decreases row@.len() - k,
            {
                let j = row[k];
                proof {
                    assert(row@.take(k as int + 1).drop_last() =~= row@.take(k as int));
                    assert(self.graph.edge(i as int, j as int));
                }
                if i < j && !cover[i] && !cover[j] {
                    unc += 1;
                }
                if !cover[j] {
                    outside += 1;
                }
                k += 1;
            }
            proof {
                assert(row@.take(row@.len() as int) =~= row@);
                self.graph.lemma_wf();
                assert forall|j: int| 0 <= j < n && !occurs(row@, j) implies #[trigger] self.unc_term(c, i as int, j) == 0 by {
                    assert(!self.graph.edge(i as int, j));
                }
                assert forall|j: int| 0 <= j < n && !occurs(row@, j) implies #[trigger] self.out_term(c, i as int, j) == 0 by {
                    assert(!self.graph.edge(i as int, j));
                }
                lemma_sum_over_distinct(row@, |j: int| self.unc_term(c, i as int, j), n as int);
                lemma_sum_over_distinct(row@, |j: int| self.out_term(c, i as int, j), n as int);
                let o = self.out(c, i as int);
                let d = self.graph.deg(i as int);
                assert(1 + pw * d <= i32::MAX);
                assert(0 <= pw * o <= pw * d) by (nonlinear_arith)
                    requires 0 <= o <= d, pw >= 1;
                assert(occurs(vs.take(t as int + 1), i as int)) by {
                    assert(vs.take(t as int + 1)[t as int] == i);
                }
                crate::sums::lemma_sum_over_prefix_le(vs, |i: int| self.graph.upper_deg(i), t as int + 1);
            }
            uncovered_edges = uncovered_edges + unc;
            proof {
                let f = |i: int| self.graph.upper_deg(i);
                assert(unc as int == self.unc_row(c, i as int));
                assert(self.unc_row(c, i as int) <= self.graph.upper_deg(i as int));
                assert(sum_over(vs.take(t as int + 1), f) == sum_over(vs.take(t as int), f) + f(i as int));
            }
            let g: i32 = if cover[i] { -1 + pw * outside } else { 1 - pw * outside };
            let ghost before = gain@;
            gain.set(i, g);
            proof {
                assert(vs.take(t as int + 1) =~= vs.take(t as int).push(i));
                assert forall|v: int| 0 <= v < n implies #[trigger] gain@[v] as int == (
                    if occurs(vs.take(t as int + 1), v) { self.vgain(c, v) } else { 0 }) by {
                    crate::sums::lemma_occurs_push(vs.take(t as int), i, v);
                }
            }
            t += 1;
        }
        proof {
            self.graph.lemma_wf();
            assert(vs.take(vs.len() as int) =~= vs);
            assert forall|v: int| 0 <= v < n && !occurs(vs, v) implies #[trigger] self.in_term(c, v) == 0 by {}
            lemma_sum_over_distinct(vs, |v: int| self.in_term(c, v), n as int);
            assert forall|v: int| 0 <= v < n && !occurs(vs, v) implies #[trigger] self.unc_row(c, v) == 0 by {
                assert forall|j: int| 0 <= j < n implies #[trigger] self.unc_term(c, v, j) == 0 by {
                    if self.graph.edge(v, j) {
                        assert(self.graph.verts().contains(v as usize));
                        let k = choose|k: int| 0 <= k < vs.len() && vs[k] == v as usize;
                        assert(vs[k] as int == v);
                    }
                }
                lemma_sum_to_zero(|j: int| self.unc_term(c, v, j), n as int);
            }
            lemma_sum_over_distinct(vs, |i: int| self.unc_row(c, i), n as int);
            let e = self.graph.edge_count();
            let u = self.uncovered(c);
            assert(0 <= pw * u <= pw * e) by (nonlinear_arith)
                requires 0 <= u <= e, pw >= 1;
            assert(u <= pw * u) by (nonlinear_arith)
                requires 0 <= u, pw >= 1;
        }
        let objective = (cover_size as i32) + pw * (uncovered_edges as i32);
        (gain, objective, cover_size, uncovered_edges)
    }
}

} // verus!
