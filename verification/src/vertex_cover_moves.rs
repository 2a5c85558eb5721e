//! Vertex cover solutions with cached gains and counters, the flip and swap
//! moves that keep them consistent, and recombination.

use vstd::prelude::*;
use rand::rngs::SmallRng;
use crate::rng::{coin, half_chance};
use crate::sums::{
    sum_over, occurs, all_distinct, lemma_sum_over_distinct, lemma_sum_over_prefix_le,
};
use crate::graph::Graph;
use crate::sorted::strictly_sorted;
use crate::vertex_cover::{VertexCover, VertexCoverSolution, flip};

verus! {

impl VertexCoverSolution {
    /// The cached fields agree with the assignment.
    pub open spec fn consistent(self, vc: VertexCover) -> bool {
        &&& vc.fits()
        &&& self.cover@.len() == vc.n()
        &&& self.gain@.len() == vc.n()
        &&& forall|i: int| 0 <= i < vc.n() ==> #[trigger] self.gain@[i] as int == vc.gain_at(self.cover@, i)
        &&& self.objective as int == vc.objective(self.cover@)
        &&& self.cover_size as int == vc.cover_count(self.cover@)
        &&& self.uncovered_edges as int == vc.uncovered(self.cover@)
    }
}

impl VertexCover {
    /// Builds a solution from an assignment: its first `graph.len()` values,
    /// padded with `false` when it is shorter.
    pub fn solution_from_assignment(&self, assignment: &[bool]) -> (r: VertexCoverSolution)
        requires
            self.fits(),
        ensures
            r.consistent(*self),
            forall|v: int| 0 <= v < self.n() ==> #[trigger] r.cover@[v] == (v < assignment@.len() && assignment@[v]),
    {
        let n = self.graph.len();
        let mut cover: Vec<bool> = Vec::new();
        let mut v: usize = 0;
        while v < n
            invariant
                0 <= v <= n,
                cover@.len() == v,
                forall|u: int| 0 <= u < v ==> #[trigger] cover@[u] == (u < assignment@.len() && assignment@[u]),
            decreases n - v,
        {
            if v < assignment.len() {
                cover.push(assignment[v]);
            } else {
                cover.push(false);
            }
            v += 1;
        }
        let (gain, objective, cover_size, uncovered_edges) = self.calculate_state(cover.as_slice());
        VertexCoverSolution { cover, gain, objective, cover_size, uncovered_edges }
    }

    /// A random solution: every vertex is put in the cover by a fair coin.
    pub fn new_solution(&self, rng: &mut SmallRng) -> (r: VertexCoverSolution)
        requires
            self.fits(),
        ensures
            r.consistent(*self),
            forall|v: int| 0 <= v < self.n() && !self.is_vertex(v) ==> !#[trigger] r.cover@[v],
    {
        proof {
            self.graph.lemma_wf();
        }
        let n = self.graph.len();
        let mut cover: Vec<bool> = Vec::new();
        let mut m: usize = 0;
        while m < n
            invariant
                0 <= m <= n,
                cover@.len() == m,
                forall|v: int| 0 <= v < m ==> !#[trigger] cover@[v],
            decreases n - m,
        {
            cover.push(false);
            m += 1;
        }
        let verts = self.graph.iter_on_vertices();
        let mut t: usize = 0;
        while t < verts.len()
            invariant
                0 <= t <= verts@.len(),
                verts@ == self.graph.verts(),
                n == self.n(),
                cover@.len() == n,
                forall|k: int| 0 <= k < verts@.len() ==> #[trigger] verts@[k] < n,
                forall|v: int| 0 <= v < n && !self.is_vertex(v) ==> !#[trigger] cover@[v],
            decreases verts@.len() - t,
        {
            let i = verts[t];
            let b = half_chance(rng);
            proof {
                assert(verts@[t as int] as int == i as int);
            }
            cover.set(i, b);
            t += 1;
        }
        let (gain, objective, cover_size, uncovered_edges) = self.calculate_state(cover.as_slice());
        VertexCoverSolution { cover, gain, objective, cover_size, uncovered_edges }
    }
}

/// A flip move that toggles whether vertex `i` is in the cover; `gain` is
/// the change in objective (negative is an improvement).
#[derive(Debug, Clone, Copy)]
pub struct VertexCoverFlipNeighbor {
    /// Index of the vertex to flip.
    pub i: usize,
    /// Change in objective after the flip.
    pub gain: i32,
}

impl VertexCoverFlipNeighbor {
    /// Applies the flip: toggles `cover[i]`, sets `gain[i]` to `-gain`,
    /// adjusts the cover size, the uncovered edges and the objective, and
    /// moves the gain of each neighbour by the penalty weight. On a
    /// consistent solution, with `gain` read from it, the result is
    /// consistent.
    pub fn apply_to_solution(&self, prob: &VertexCover, sol: &mut VertexCoverSolution)
        requires
            old(sol).consistent(*prob),
            (self.i as int) < prob.n(),
            prob.is_vertex(self.i as int),
            self.gain == old(sol).gain@[self.i as int],
        ensures
            final(sol).consistent(*prob),
            final(sol).cover@ == flip(old(sol).cover@, self.i as int),
    {
        let ghost c = sol.cover@;
        let i = self.i;
        let ghost c2 = flip(c, i as int);
        proof {
            prob.graph.lemma_wf();
            prob.lemma_objective_flip(c, i as int);
            prob.lemma_cover_count_flip(c, i as int);
            prob.lemma_uncovered_flip(c, i as int);
            prob.lemma_bounds(c);
            prob.lemma_bounds(c2);
            prob.lemma_out_flip(c, i as int, i as int);
            prob.graph.lemma_deg_len(i as int);
        }
        let ghost g0 = sol.gain@;
        let was_in = sol.cover[i];
        sol.cover.set(i, !was_in);
        sol.gain.set(i, -self.gain);
        let pw = prob.penalty_weight();
        if was_in {
            sol.cover_size = sol.cover_size - 1;
        } else {
            sol.cover_size = sol.cover_size + 1;
        }
        let row = prob.graph.iter_on_adjacency(i);
        let ghost f = |j: int| prob.out_term(c, i as int, j);
        let ghost u0 = sol.uncovered_edges as int;
        proof {
            let e = prob.graph.edge_count();
            let pw0 = prob.pw();
            assert(0 <= e <= pw0 * e) by (nonlinear_arith)
                requires 0 <= e, pw0 >= 1;
            assert forall|j: int| 0 <= j < prob.n() && !occurs(row@, j) implies #[trigger] f(j) == 0 by {
                assert(!prob.graph.edge(i as int, j));
            }
            lemma_sum_over_distinct(row@, f, prob.n());
        }
        let mut k: usize = 0;
        while k < row.len()
            invariant
                0 <= k <= row@.len(),
                i < prob.n(),
                row@ == prob.graph.nbrs(i as int),
                all_distinct(row@),
                forall|kk: int| 0 <= kk < row@.len() ==> #[trigger] row@[kk] < prob.n(),
                forall|kk: int| 0 <= kk < row@.len() ==> #[trigger] prob.graph.edge(i as int, row@[kk] as int),
                prob.fits(),
                pw == prob.pw(),
                sol.cover@ == c2,
                c2 == flip(c, i as int),
                c.len() == prob.n(),
                was_in == c[i as int],
                f == (|j: int| prob.out_term(c, i as int, j)),
                u0 == prob.uncovered(c),
                prob.uncovered(c2) == prob.uncovered(c) + if was_in { prob.out(c, i as int) } else { -prob.out(c, i as int) },
                0 <= prob.uncovered(c2),
                prob.uncovered(c2) <= prob.graph.edge_count(),
                prob.graph.edge_count() <= i32::MAX,
                sum_over(row@, f) == prob.out(c, i as int),
                sol.uncovered_edges as int == u0 + if was_in { sum_over(row@.take(k as int), f) } else { -sum_over(row@.take(k as int), f) },
                sol.gain@.len() == prob.n(),
                sol.objective == old(sol).objective,
                old(sol).objective as int == prob.objective(c),
                sol.cover_size as int == prob.cover_count(c2),
                self.gain as int == prob.vgain(c, i as int),
                prob.objective(c2) == prob.objective(c) + prob.vgain(c, i as int),
                sol.gain@[i as int] as int == prob.gain_at(c2, i as int),
                forall|j: int| 0 <= j < prob.n() && j != i ==> #[trigger] sol.gain@[j] as int == (
                    if occurs(row@.take(k as int), j) { prob.gain_at(c2, j) } else { g0[j] as int }),
                forall|j: int| 0 <= j < prob.n() ==> #[trigger] g0[j] as int == prob.gain_at(c, j),
            decreases row@.len() - k,
        {
            let j = row[k];
            proof {
                prob.graph.lemma_wf();
                assert(row@.take(k as int + 1).drop_last() =~= row@.take(k as int));
                assert(row@.take(k as int + 1).last() == j);
                lemma_sum_over_prefix_le(row@, f, k as int + 1);
                prob.lemma_out_flip(c, i as int, j as int);
                prob.lemma_bounds(c2);
                assert(prob.graph.edge(j as int, i as int));
                assert(prob.graph.verts().contains(j));
                assert(j != i);
                assert(!occurs(row@.take(k as int), j as int)) by {
                    if occurs(row@.take(k as int), j as int) {
                        let kk = choose|kk: int| 0 <= kk < row@.take(k as int).len() && row@.take(k as int)[kk] as int == j as int;
                        assert(row@[kk] == row@[k as int]);
                    }
                }
                assert(occurs(prob.graph.verts(), j as int)) by {
                    let kk = choose|kk: int| 0 <= kk < prob.graph.verts().len() && prob.graph.verts()[kk] == j;
                }
            }
            proof {
                let o = prob.out(c, j as int);
                let o2 = prob.out(c2, j as int);
                let d = prob.graph.deg(j as int);
                let p = prob.pw();
                assert(c2[j as int] == c[j as int]);
                assert(1 + p * d <= i32::MAX);
                assert(0 <= p * o2 <= p * d) by (nonlinear_arith)
                    requires 0 <= o2 <= d, p >= 1;
                assert(p * (o + 1) == p * o + p && p * (o - 1) == p * o - p) by (nonlinear_arith);
                assert(sol.gain@[j as int] as int == prob.vgain(c, j as int));
            }
            let cj = sol.cover[j];
            if !cj {
                if was_in {
                    sol.uncovered_edges = sol.uncovered_edges + 1;
                } else {
                    sol.uncovered_edges = sol.uncovered_edges - 1;
                }
            }
            let delta: i32 = if cj == was_in { pw } else { -pw };
            sol.gain.set(j, sol.gain[j] + delta);
            proof {
                assert forall|v: int| 0 <= v < prob.n() && v != i implies #[trigger] sol.gain@[v] as int == (
                    if occurs(row@.take(k as int + 1), v) { prob.gain_at(c2, v) } else { g0[v] as int }) by {
                    crate::sums::lemma_occurs_push(row@.take(k as int), j, v);
                    assert(row@.take(k as int + 1) =~= row@.take(k as int).push(j));
                }
            }
            k += 1;
        }
        proof {
            let e = prob.graph.edge_count();
            let u2 = prob.uncovered(c2);
            let p = prob.pw();
            assert(0 <= p * u2 <= p * e) by (nonlinear_arith)
                requires 0 <= u2 <= e, p >= 1;
        }
        sol.objective = sol.objective + self.gain;
        proof {
            assert(row@.take(row@.len() as int) =~= row@);
            assert(sol.uncovered_edges as int == prob.uncovered(c2));
            assert(sol.cover_size as int == prob.cover_count(c2));
            assert(sol.objective as int == prob.objective(c2));
            assert forall|j: int| 0 <= j < prob.n() implies #[trigger] sol.gain@[j] as int == prob.gain_at(c2, j) by {
                if j != i as int && !occurs(row@, j) {
                    prob.lemma_out_flip(c, i as int, j);
                    assert(!prob.graph.edge(i as int, j));
                    prob.graph.lemma_wf();
                    assert(!prob.graph.edge(j, i as int));
                }
            }
        }
    }

    /// The flip of every vertex, in order, with its gain read from `sol`.
    pub fn iter(prob: &VertexCover, sol: &VertexCoverSolution) -> (r: Vec<VertexCoverFlipNeighbor>)
        requires
            sol.consistent(*prob),
        ensures
            r@.len() == prob.graph.verts().len(),
            forall|k: int| 0 <= k < r@.len() ==> (#[trigger] r@[k]).i == prob.graph.verts()[k]
                && r@[k].gain == sol.gain@[r@[k].i as int],
    {
        proof {
            prob.graph.lemma_wf();
        }
        let verts = prob.graph.iter_on_vertices();
        let mut r: Vec<VertexCoverFlipNeighbor> = Vec::new();
        let mut t: usize = 0;
        while t < verts.len()
            invariant
                0 <= t <= verts@.len(),
                verts@ == prob.graph.verts(),
                forall|k: int| 0 <= k < verts@.len() ==> #[trigger] verts@[k] < prob.n(),
                sol.gain@.len() == prob.n(),
                r@.len() == t,
                forall|k: int| 0 <= k < t ==> (#[trigger] r@[k]).i == verts@[k] && r@[k].gain == sol.gain@[r@[k].i as int],
            decreases verts@.len() - t,
        {
            let i = verts[t];
            r.push(VertexCoverFlipNeighbor { i, gain: sol.gain[i] });
            t += 1;
        }
        r
    }

    /// Whether applying the move to `src` gives a lower objective than
    /// `other`'s.
    pub fn move_to_be_better_than(&self, src: &VertexCoverSolution, other: &VertexCoverSolution) -> (r: bool)
        requires
            i32::MIN <= self.gain + src.objective <= i32::MAX,
        ensures
            r == (self.gain + src.objective < other.objective),
    {
        self.gain + src.objective < other.objective
    }
}

/// A swap move that flips vertex `i` and vertex `j` of opposite membership
/// together; `gain` is the combined change in objective.
#[derive(Debug, Clone, Copy)]
pub struct VertexCoverSwapNeighbor {
    pub i: usize,
    pub j: usize,
    pub gain: i32,
}

impl VertexCover {
    /// The swap law: flipping two vertices of opposite membership changes
    /// the objective by the sum of their gains, less the penalty weight when
    /// they are joined.
    pub proof fn lemma_swap_gain(self, c: Seq<bool>, i: int, j: int)
        requires
            self.graph.wf(),
            c.len() == self.n(),
            0 <= i < self.n(),
            0 <= j < self.n(),
            self.is_vertex(i),
            self.is_vertex(j),
            c[i] != c[j],
        ensures
            self.objective(flip(flip(c, i), j)) == self.objective(c) + self.vgain(c, i) + self.vgain(c, j)
                - if self.graph.edge(i, j) { self.pw() } else { 0 },
            self.vgain(flip(c, i), j) == self.vgain(c, j) - if self.graph.edge(i, j) { self.pw() } else { 0 },
    {
        self.graph.lemma_wf();
        let c1 = flip(c, i);
        self.lemma_objective_flip(c, i);
        self.lemma_objective_flip(c1, j);
        self.lemma_out_flip(c, i, j);
        let o = self.out(c, j);
        let p = self.pw();
        assert(p * (o + 1) == p * o + p && p * (o - 1) == p * o - p) by (nonlinear_arith);
        assert(c1[j] == c[j]);
    }
}

impl VertexCoverSwapNeighbor {
    /// A swap counts as two iterations, one per flipped vertex.
    pub fn apply_to_iteration(&self, iter: u64) -> (r: u64)
        requires
            iter <= u64::MAX - 2,
        ensures
            r == iter + 2,
    {
        iter + 2
    }

    /// Applies the swap as two flips: first `i`, then `j`, each with the gain
    /// the solution holds at that point. The result is consistent.
    pub fn apply_to_solution(&self, prob: &VertexCover, sol: &mut VertexCoverSolution)
        requires
            old(sol).consistent(*prob),
            (self.i as int) < prob.n(),
            (self.j as int) < prob.n(),
            prob.is_vertex(self.i as int),
            prob.is_vertex(self.j as int),
        ensures
            final(sol).consistent(*prob),
            final(sol).cover@ == flip(flip(old(sol).cover@, self.i as int), self.j as int),
    {
        let first = VertexCoverFlipNeighbor { i: self.i, gain: sol.gain[self.i] };
        first.apply_to_solution(prob, sol);
        let second = VertexCoverFlipNeighbor { i: self.j, gain: sol.gain[self.j] };
        second.apply_to_solution(prob, sol);
    }

    /// All swaps of two vertices `j < i` of opposite membership, ordered by
    /// `i` and then by `j`, with gain `gain[i] + gain[j]`, less the penalty
    /// weight when they are joined.
    pub fn iter(prob: &VertexCover, sol: &VertexCoverSolution) -> (r: Vec<VertexCoverSwapNeighbor>)
        requires
            sol.consistent(*prob),
        ensures
            forall|k: int| 0 <= k < r@.len() ==> {
                let m = #[trigger] r@[k];
                &&& prob.is_vertex(m.i as int)
                &&& prob.is_vertex(m.j as int)
                &&& m.j < m.i
                &&& sol.cover@[m.i as int] != sol.cover@[m.j as int]
                &&& m.gain == prob.objective(flip(flip(sol.cover@, m.i as int), m.j as int)) - prob.objective(sol.cover@)
            },
            forall|a: int, b: int| 0 <= a < prob.graph.verts().len() && 0 <= b < prob.graph.verts().len()
                && #[trigger] prob.graph.verts()[b] < #[trigger] prob.graph.verts()[a]
                && sol.cover@[prob.graph.verts()[a] as int] != sol.cover@[prob.graph.verts()[b] as int]
                ==> exists|k: int| 0 <= k < r@.len() && (#[trigger] r@[k]).i == prob.graph.verts()[a] && r@[k].j == prob.graph.verts()[b],
            forall|p: int, q: int| 0 <= p < q < r@.len() ==> (r@[p].i < r@[q].i || (r@[p].i == r@[q].i && r@[p].j < r@[q].j)),
    {
        proof {
            prob.graph.lemma_wf();
        }
        let pw = prob.penalty_weight();
        let verts = prob.graph.iter_on_vertices();
        let ghost vs = verts@;
        let mut r: Vec<VertexCoverSwapNeighbor> = Vec::new();
        let mut a: usize = 0;
        while a < verts.len()
            invariant
                0 <= a <= vs.len(),
                verts@ == vs,
                vs == prob.graph.verts(),
                strictly_sorted(vs),
                forall|k: int| 0 <= k < vs.len() ==> #[trigger] vs[k] < prob.n(),
                sol.consistent(*prob),
                pw == prob.pw(),
                forall|k: int| 0 <= k < r@.len() ==> {
                    let m = #[trigger] r@[k];
                    &&& prob.is_vertex(m.i as int)
                    &&& prob.is_vertex(m.j as int)
                    &&& m.j < m.i
                    &&& m.i < (if a < vs.len() { vs[a as int] as int } else { prob.n() })
                    &&& sol.cover@[m.i as int] != sol.cover@[m.j as int]
                    &&& m.gain == prob.objective(flip(flip(sol.cover@, m.i as int), m.j as int)) - prob.objective(sol.cover@)
                },
                forall|p: int, q: int| 0 <= p < a && 0 <= q < vs.len() && #[trigger] vs[q] < #[trigger] vs[p]
                    && sol.cover@[vs[p] as int] != sol.cover@[vs[q] as int]
                    ==> exists|k: int| 0 <= k < r@.len() && (#[trigger] r@[k]).i == vs[p] && r@[k].j == vs[q],
                forall|p: int, q: int| 0 <= p < q < r@.len() ==> (r@[p].i < r@[q].i || (r@[p].i == r@[q].i && r@[p].j < r@[q].j)),
            decreases vs.len() - a,
        {
            let i = verts[a];
            let mut b: usize = 0;
            while b < verts.len()
                invariant
                    0 <= b <= vs.len(),
                    a < vs.len(),
                    i == vs[a as int],
                    verts@ == vs,
                    vs == prob.graph.verts(),
                    strictly_sorted(vs),
                    forall|k: int| 0 <= k < vs.len() ==> #[trigger] vs[k] < prob.n(),
                    sol.consistent(*prob),
                    pw == prob.pw(),
                    forall|k: int| 0 <= k < r@.len() ==> {
                        let m = #[trigger] r@[k];
                        &&& prob.is_vertex(m.i as int)
                        &&& prob.is_vertex(m.j as int)
                        &&& m.j < m.i
                        &&& (m.i < i || (m.i == i && m.j < (if b < vs.len() { vs[b as int] as int } else { prob.n() })))
                        &&& sol.cover@[m.i as int] != sol.cover@[m.j as int]
                        &&& m.gain == prob.objective(flip(flip(sol.cover@, m.i as int), m.j as int)) - prob.objective(sol.cover@)
                    },
                    forall|p: int, q: int| 0 <= p < a && 0 <= q < vs.len() && #[trigger] vs[q] < #[trigger] vs[p]
                        && sol.cover@[vs[p] as int] != sol.cover@[vs[q] as int]
                        ==> exists|k: int| 0 <= k < r@.len() && (#[trigger] r@[k]).i == vs[p] && r@[k].j == vs[q],
                    forall|q: int| 0 <= q < b && #[trigger] vs[q] < i && sol.cover@[i as int] != sol.cover@[vs[q] as int]
                        ==> exists|k: int| 0 <= k < r@.len() && (#[trigger] r@[k]).i == i && r@[k].j == vs[q],
                    forall|p: int, q: int| 0 <= p < q < r@.len() ==> (r@[p].i < r@[q].i || (r@[p].i == r@[q].i && r@[p].j < r@[q].j)),
                decreases vs.len() - b,
            {
                let j = verts[b];
                if j < i && sol.cover[i] != sol.cover[j] {
                    proof {
                        prob.graph.lemma_wf();
                        assert(prob.is_vertex(i as int)) by { assert(vs[a as int] == i); }
                        assert(prob.is_vertex(j as int)) by { assert(vs[b as int] == j); }
                        prob.lemma_swap_gain(sol.cover@, i as int, j as int);
                        prob.lemma_bounds(sol.cover@);
                        prob.lemma_bounds(flip(sol.cover@, i as int));
                        let c1 = flip(sol.cover@, i as int);
                        let o = prob.out(c1, j as int);
                        let d = prob.graph.deg(j as int);
                        let p = prob.pw();
                        assert(0 <= p * o <= p * d) by (nonlinear_arith)
                            requires 0 <= o <= d, p >= 1;
                        let e = prob.graph.edge_count();
                        let u1 = prob.uncovered(sol.cover@);
                        let u2 = prob.uncovered(flip(flip(sol.cover@, i as int), j as int));
                        prob.lemma_bounds(flip(flip(sol.cover@, i as int), j as int));
                        assert(0 <= p * u1 <= p * e) by (nonlinear_arith)
                            requires 0 <= u1 <= e, p >= 1;
                        assert(0 <= p * u2 <= p * e) by (nonlinear_arith)
                            requires 0 <= u2 <= e, p >= 1;
                    }
                    let corr: i32 = if prob.graph.has_edge(i, j) { pw } else { 0 };
                    let g = sol.gain[i] + (sol.gain[j] - corr);
                    let ghost r0 = r@;
                    r.push(VertexCoverSwapNeighbor { i, j, gain: g });
                    proof {
                        assert forall|p: int, q: int| 0 <= p < a && 0 <= q < vs.len() && #[trigger] vs[q] < #[trigger] vs[p]
                            && sol.cover@[vs[p] as int] != sol.cover@[vs[q] as int]
                            implies exists|k: int| 0 <= k < r@.len() && (#[trigger] r@[k]).i == vs[p] && r@[k].j == vs[q] by {
                            let k = choose|k: int| 0 <= k < r0.len() && (#[trigger] r0[k]).i == vs[p] && r0[k].j == vs[q];
                            assert(r@[k] == r0[k]);
                        }
                        assert forall|q: int| 0 <= q < b + 1 && #[trigger] vs[q] < i && sol.cover@[i as int] != sol.cover@[vs[q] as int]
                            implies exists|k: int| 0 <= k < r@.len() && (#[trigger] r@[k]).i == i && r@[k].j == vs[q] by {
                            if q == b {
                                assert(r@[r0.len() as int].i == i && r@[r0.len() as int].j == vs[q]);
                            } else {
                                let k = choose|k: int| 0 <= k < r0.len() && (#[trigger] r0[k]).i == i && r0[k].j == vs[q];
                                assert(r@[k] == r0[k]);
                            }
                        }
                        if b + 1 < vs.len() {
                            assert(vs[b as int] < vs[b + 1]);
                        }
                    }
                } else {
                    proof {
                        if b + 1 < vs.len() {
                            assert(vs[b as int] < vs[b + 1]);
                        }
                    }
                }
                b += 1;
            }
            proof {
                if a + 1 < vs.len() {
                    assert(vs[a as int] < vs[a + 1]);
                }
                assert forall|p: int, q: int| 0 <= p < a + 1 && 0 <= q < vs.len() && #[trigger] vs[q] < #[trigger] vs[p]
                    && sol.cover@[vs[p] as int] != sol.cover@[vs[q] as int]
                    implies exists|k: int| 0 <= k < r@.len() && (#[trigger] r@[k]).i == vs[p] && r@[k].j == vs[q] by {
                    if p == a {
                        assert(vs[q] < i);
                    }
                }
            }
            a += 1;
        }
        r
    }

    /// Whether applying the move to `src` gives a lower objective than
    /// `other`'s.
    pub fn move_to_be_better_than(&self, src: &VertexCoverSolution, other: &VertexCoverSolution) -> (r: bool)
        requires
            i32::MIN <= self.gain + src.objective <= i32::MAX,
        ensures
            r == (self.gain + src.objective < other.objective),
    {
        self.gain + src.objective < other.objective
    }
}

/// Uniform crossover for vertex cover: each vertex takes its membership from
/// the first or the second parent with equal probability.
#[derive(Debug, Clone, Copy)]
pub struct VertexCoverUniformCrossover;

impl VertexCoverUniformCrossover {
    /// The child that takes, for the `t`-th vertex, `sol2`'s membership when
    /// `picks[t]` holds and `sol1`'s otherwise, built by flip moves.
    pub fn crossover_with(prob: &VertexCover, sol1: &VertexCoverSolution, sol2: &VertexCoverSolution, picks: &[bool]) -> (r: VertexCoverSolution)
        requires
            sol1.consistent(*prob),
            sol2.cover@.len() >= prob.n(),
            picks@.len() == prob.graph.verts().len(),
        ensures
            r.consistent(*prob),
            forall|v: int| 0 <= v < prob.n() ==> #[trigger] r.cover@[v] == if
                (exists|t: int| 0 <= t < picks@.len() && prob.graph.verts()[t] as int == v && #[trigger] picks@[t]) {
                sol2.cover@[v]
            } else {
                sol1.cover@[v]
            },
    {
        proof {
            prob.graph.lemma_wf();
        }
        let verts = prob.graph.iter_on_vertices();
        let ghost vs = verts@;
        let mut sol = sol1.clone_solution();
        let mut t: usize = 0;
        while t < verts.len()
            invariant
                0 <= t <= vs.len(),
                verts@ == vs,
                vs == prob.graph.verts(),
                strictly_sorted(vs),
                forall|k: int| 0 <= k < vs.len() ==> #[trigger] vs[k] < prob.n(),
                picks@.len() == vs.len(),
                sol.consistent(*prob),
                sol2.cover@.len() >= prob.n(),
                forall|v: int| 0 <= v < prob.n() ==> #[trigger] sol.cover@[v] == if
                    (exists|s: int| 0 <= s < t && vs[s] as int == v && #[trigger] picks@[s]) {
                    sol2.cover@[v]
                } else {
                    sol1.cover@[v]
                },
            decreases vs.len() - t,
        {
            let i = verts[t];
            let ghost before = sol.cover@;
            proof {
                assert(prob.is_vertex(i as int)) by { assert(vs[t as int] == i); }
                assert(!(exists|s: int| 0 <= s < t && vs[s] as int == i as int && #[trigger] picks@[s])) by {
                    if exists|s: int| 0 <= s < t && vs[s] as int == i as int && #[trigger] picks@[s] {
                        let s = choose|s: int| 0 <= s < t && vs[s] as int == i as int && #[trigger] picks@[s];
                        assert(vs[s] < vs[t as int]);
                    }
                }
            }
            if sol.cover[i] != sol2.cover[i] && picks[t] {
                let mv = VertexCoverFlipNeighbor { i, gain: sol.gain[i] };
                mv.apply_to_solution(prob, &mut sol);
            }
            proof {
                assert forall|v: int| 0 <= v < prob.n() implies #[trigger] sol.cover@[v] == if
                    (exists|s: int| 0 <= s < t + 1 && vs[s] as int == v && #[trigger] picks@[s]) {
                    sol2.cover@[v]
                } else {
                    sol1.cover@[v]
                } by {
                    if v != i as int {
                        assert(sol.cover@[v] == before[v]);
                        if exists|s: int| 0 <= s < t + 1 && vs[s] as int == v && #[trigger] picks@[s] {
                            let s = choose|s: int| 0 <= s < t + 1 && vs[s] as int == v && #[trigger] picks@[s];
                            assert(s != t);
                        }
                    } else {
                        if picks@[t as int] {
                            assert(vs[t as int] as int == v);
                        } else if exists|s: int| 0 <= s < t + 1 && vs[s] as int == v && #[trigger] picks@[s] {
                            let s = choose|s: int| 0 <= s < t + 1 && vs[s] as int == v && #[trigger] picks@[s];
                            assert(s != t);
                            assert(vs[s] < vs[t as int]);
                        }
                    }
                }
            }
            t += 1;
        }
        sol
    }

    /// Uniform crossover: for each vertex on which the parents differ, a fair
    /// coin decides whether the child takes `sol2`'s membership.
    pub fn crossover(&mut self, prob: &VertexCover, sol1: &VertexCoverSolution, sol2: &VertexCoverSolution, rng: &mut SmallRng) -> (r: VertexCoverSolution)
        requires
            sol1.consistent(*prob),
            sol2.cover@.len() >= prob.n(),
        ensures
            r.consistent(*prob),
            forall|v: int| 0 <= v < prob.n() ==> #[trigger] r.cover@[v] == sol1.cover@[v] || r.cover@[v] == sol2.cover@[v],
    {
        proof {
            prob.graph.lemma_wf();
        }
        let verts = prob.graph.iter_on_vertices();
        let mut picks: Vec<bool> = Vec::new();
        let mut t: usize = 0;
        while t < verts.len()
            invariant
                0 <= t <= verts@.len(),
                picks@.len() == t,
                verts@ == prob.graph.verts(),
                forall|k: int| 0 <= k < verts@.len() ==> #[trigger] verts@[k] < prob.n(),
                sol1.cover@.len() == prob.n(),
                sol2.cover@.len() >= prob.n(),
            decreases verts@.len() - t,
        {
            let i = verts[t];
            if sol1.cover[i] != sol2.cover[i] {
                let b = coin(rng);
                picks.push(b);
            } else {
                picks.push(false);
            }
            t += 1;
        }
        Self::crossover_with(prob, sol1, sol2, picks.as_slice())
    }
}

impl VertexCoverSolution {
    /// The number of positions where the two solutions' `cover` differ.
    pub fn distance(&self, other: &VertexCoverSolution) -> (r: usize)
        ensures
            r == crate::sums::mismatches(self.cover@, other.cover@,
                if self.cover@.len() < other.cover@.len() { self.cover@.len() as int } else { other.cover@.len() as int }),
    {
        crate::sums::count_mismatches_bool(self.cover.as_slice(), other.cover.as_slice())
    }

    /// A copy of the solution, field by field.
    pub fn clone_solution(&self) -> (r: VertexCoverSolution)
        ensures
            r.cover@ == self.cover@,
            r.gain@ == self.gain@,
            r.objective == self.objective,
            r.cover_size == self.cover_size,
            r.uncovered_edges == self.uncovered_edges,
    {
        VertexCoverSolution {
            cover: crate::qubo_solution::copy_vec(&self.cover),
            gain: crate::qubo_solution::copy_vec(&self.gain),
            objective: self.objective,
            cover_size: self.cover_size,
            uncovered_edges: self.uncovered_edges,
        }
    }
}

impl VertexCover {
    /// The vertex `v` is a vertex on which `sol1` and `sol2` differ.
    pub open spec fn free(self, x1: Seq<bool>, x2: Seq<bool>, v: int) -> bool {
        self.is_vertex(v) && x1[v] != x2[v]
    }

    /// The sub-problem on the vertices where `sol1` and `sol2` differ: its
    /// graph keeps exactly the edges between two such vertices.
    pub fn extract_sub_problem(&self, sol1: &VertexCoverSolution, sol2: &VertexCoverSolution) -> (r: VertexCover)
        requires
            self.graph.wf(),
            sol1.cover@.len() >= self.n(),
            sol2.cover@.len() >= self.n(),
        ensures
            r.graph.wf(),
            forall|a: int, b: int| #[trigger] r.graph.edge(a, b) == (self.graph.edge(a, b)
                && self.free(sol1.cover@, sol2.cover@, a) && self.free(sol1.cover@, sol2.cover@, b)),
    {
        proof {
            self.graph.lemma_wf();
        }
        let ghost x1 = sol1.cover@;
        let ghost x2 = sol2.cover@;
        let verts = self.graph.iter_on_vertices();
        let ghost vs = verts@;
        let n = self.graph.len();
        let mut mark: Vec<bool> = Vec::new();
        let mut m: usize = 0;
        while m < n
            invariant
                0 <= m <= n,
                mark@.len() == m,
                forall|v: int| 0 <= v < m ==> !#[trigger] mark@[v],
            decreases n - m,
        {
            mark.push(false);
            m += 1;
        }
        let mut t: usize = 0;
        while t < verts.len()
            invariant
                0 <= t <= vs.len(),
                verts@ == vs,
                vs == self.graph.verts(),
                n == self.n(),
                forall|k: int| 0 <= k < vs.len() ==> #[trigger] vs[k] < n,
                x1 == sol1.cover@,
                x2 == sol2.cover@,
                x1.len() >= n,
                x2.len() >= n,
                mark@.len() == n,
                forall|v: int| 0 <= v < n ==> #[trigger] mark@[v] == (self.free(x1, x2, v)
                    && exists|s: int| 0 <= s < t && vs[s] as int == v),
            decreases vs.len() - t,
        {
            let v = verts[t];
            if sol1.cover[v] != sol2.cover[v] {
                mark.set(v, true);
            }
            proof {
                assert(occurs(vs, v as int)) by { assert(vs[t as int] == v); }
                assert forall|w: int| 0 <= w < n implies #[trigger] mark@[w] == (self.free(x1, x2, w)
                    && exists|s: int| 0 <= s < t + 1 && vs[s] as int == w) by {
                    if w == v as int {
                        assert(vs[t as int] as int == w);
                    } else if exists|s: int| 0 <= s < t + 1 && vs[s] as int == w {
                        let s = choose|s: int| 0 <= s < t + 1 && vs[s] as int == w;
                        assert(s != t);
                    }
                }
            }
            t += 1;
        }
        proof {
            assert forall|v: int| 0 <= v < n implies #[trigger] mark@[v] == self.free(x1, x2, v) by {
                if self.free(x1, x2, v) {
                    let s = choose|s: int| 0 <= s < vs.len() && vs[s] as int == v;
                }
            }
        }
        let mut sub = Graph::new();
        let mut u: usize = 0;
        while u < n
            invariant
                0 <= u <= n,
                n == self.n(),
                self.graph.wf(),
                n <= usize::MAX,
                mark@.len() == n,
                forall|v: int| 0 <= v < n ==> #[trigger] mark@[v] == self.free(x1, x2, v),
                sub.wf(),
                forall|a: int, b: int| #[trigger] sub.edge(a, b) == (self.graph.edge(a, b)
                    && self.free(x1, x2, a) && self.free(x1, x2, b) && vstd::math::min(a, b) < u),
            decreases n - u,
        {
            if mark[u] {
                let row = self.graph.iter_on_adjacency(u);
                proof {
                    self.graph.lemma_wf();
                }
                let mut k: usize = 0;
                while k < row.len()
                    invariant
                        0 <= k <= row@.len(),
                        u < n,
                        n == self.n(),
                        n <= usize::MAX,
                        self.graph.wf(),
                        mark@.len() == n,
                        mark@[u as int],
                        forall|v: int| 0 <= v < n ==> #[trigger] mark@[v] == self.free(x1, x2, v),
                        row@ == self.graph.nbrs(u as int),
                        forall|kk: int| 0 <= kk < row@.len() ==> #[trigger] row@[kk] < n,
                        forall|j: int| #[trigger] self.graph.edge(u as int, j) == occurs(row@, j),
                        sub.wf(),
                        forall|a: int, b: int| #[trigger] sub.edge(a, b) == (self.graph.edge(a, b)
                            && self.free(x1, x2, a) && self.free(x1, x2, b) && (vstd::math::min(a, b) < u
                            || (vstd::math::min(a, b) == u && occurs(row@.take(k as int), vstd::math::max(a, b))))),
                    decreases row@.len() - k,
                {
                    let v = row[k];
                    proof {
                        self.graph.lemma_wf();
                        assert(row@.take(k as int + 1) =~= row@.take(k as int).push(v));
                        assert(occurs(row@, v as int)) by { assert(row@[k as int] == v); }
                    }
                    if mark[v] && u < v {
                        sub.add_edge(u, v);
                    }
                    proof {
                        assert forall|a: int, b: int| #[trigger] sub.edge(a, b) == (self.graph.edge(a, b)
                            && self.free(x1, x2, a) && self.free(x1, x2, b) && (vstd::math::min(a, b) < u
                            || (vstd::math::min(a, b) == u && occurs(row@.take(k as int + 1), vstd::math::max(a, b))))) by {
                            crate::sums::lemma_occurs_push(row@.take(k as int), v, vstd::math::max(a, b));
                            if vstd::math::min(a, b) == u && vstd::math::max(a, b) == v as int {
                                assert(self.graph.edge(u as int, v as int));
                                assert(self.graph.edge(a, b));
                            }
                        }
                    }
                    k += 1;
                }
                proof {
                    assert(row@.take(row@.len() as int) =~= row@);
                    self.graph.lemma_wf();
                    assert forall|a: int, b: int| #[trigger] sub.edge(a, b) == (self.graph.edge(a, b)
                        && self.free(x1, x2, a) && self.free(x1, x2, b) && vstd::math::min(a, b) < u + 1) by {
                        if self.graph.edge(a, b) && vstd::math::min(a, b) == u {
                            let o = vstd::math::max(a, b);
                            assert(self.graph.edge(u as int, o));
                        }
                    }
                }
            } else {
                proof {
                    assert forall|a: int, b: int| #[trigger] sub.edge(a, b) == (self.graph.edge(a, b)
                        && self.free(x1, x2, a) && self.free(x1, x2, b) && vstd::math::min(a, b) < u + 1) by {
                        if self.graph.edge(a, b) && vstd::math::min(a, b) == u {
                            self.graph.lemma_wf();
                            assert(!mark@[u as int]);
                        }
                    }
                }
            }
            u += 1;
        }
        proof {
            self.graph.lemma_wf();
        }
        VertexCover::new(sub)
    }

    /// Lifts a solution of the sub-problem back: every vertex where the
    /// parents differ and that the sub-solution covers by index takes its
    /// value there; every other vertex keeps `sol1`'s. Gains stay consistent.
    pub fn lift_solution(&self, sol1: &VertexCoverSolution, sol2: &VertexCoverSolution, sub_solution: &VertexCoverSolution) -> (r: VertexCoverSolution)
        requires
            sol1.consistent(*self),
            sol2.cover@.len() >= self.n(),
        ensures
            r.consistent(*self),
            forall|v: int| 0 <= v < self.n() ==> #[trigger] r.cover@[v] == if
                self.free(sol1.cover@, sol2.cover@, v) && v < sub_solution.cover@.len() {
                sub_solution.cover@[v]
            } else {
                sol1.cover@[v]
            },
    {
        proof {
            self.graph.lemma_wf();
        }
        let verts = self.graph.iter_on_vertices();
        let ghost vs = verts@;
        let mut sol = sol1.clone_solution();
        let mut t: usize = 0;
        while t < verts.len()
            invariant
                0 <= t <= vs.len(),
                verts@ == vs,
                vs == self.graph.verts(),
                strictly_sorted(vs),
                forall|k: int| 0 <= k < vs.len() ==> #[trigger] vs[k] < self.n(),
                sol.consistent(*self),
                sol1.cover@.len() == self.n(),
                sol2.cover@.len() >= self.n(),
                forall|v: int| 0 <= v < self.n() ==> #[trigger] sol.cover@[v] == if
                    self.free(sol1.cover@, sol2.cover@, v) && v < sub_solution.cover@.len()
                    && exists|s: int| 0 <= s < t && vs[s] as int == v {
                    sub_solution.cover@[v]
                } else {
                    sol1.cover@[v]
                },
            decreases vs.len() - t,
        {
            let i = verts[t];
            let ghost before = sol.cover@;
            proof {
                assert(self.is_vertex(i as int)) by { assert(vs[t as int] == i); }
                assert(!(exists|s: int| 0 <= s < t && vs[s] as int == i as int)) by {
                    if exists|s: int| 0 <= s < t && vs[s] as int == i as int {
                        let s = choose|s: int| 0 <= s < t && vs[s] as int == i as int;
                        assert(vs[s] < vs[t as int]);
                    }
                }
            }
            if sol1.cover[i] != sol2.cover[i] && i < sub_solution.cover.len() {
                if sol.cover[i] != sub_solution.cover[i] {
                    let mv = VertexCoverFlipNeighbor { i, gain: sol.gain[i] };
                    mv.apply_to_solution(self, &mut sol);
                }
            }
            proof {
                assert forall|v: int| 0 <= v < self.n() implies #[trigger] sol.cover@[v] == if
                    self.free(sol1.cover@, sol2.cover@, v) && v < sub_solution.cover@.len()
                    && exists|s: int| 0 <= s < t + 1 && vs[s] as int == v {
                    sub_solution.cover@[v]
                } else {
                    sol1.cover@[v]
                } by {
                    if v != i as int {
                        assert(sol.cover@[v] == before[v]);
                        if exists|s: int| 0 <= s < t + 1 && vs[s] as int == v {
                            let s = choose|s: int| 0 <= s < t + 1 && vs[s] as int == v;
                            assert(s != t);
                        }
                    } else {
                        assert(vs[t as int] as int == v);
                    }
                }
            }
            t += 1;
        }
        proof {
            assert forall|v: int| 0 <= v < self.n() implies #[trigger] sol.cover@[v] == if
                self.free(sol1.cover@, sol2.cover@, v) && v < sub_solution.cover@.len() {
                sub_solution.cover@[v]
            } else {
                sol1.cover@[v]
            } by {
                if self.free(sol1.cover@, sol2.cover@, v) {
                    let s = choose|s: int| 0 <= s < vs.len() && vs[s] as int == v;
                }
            }
        }
        sol
    }
}

} // verus!
