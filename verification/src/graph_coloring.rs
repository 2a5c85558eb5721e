//! Graph coloring with a palette of `k` colors: minimize the colors used plus
//! a penalty for every edge whose endpoints share a color.

use vstd::prelude::*;
use rand::rngs::SmallRng;
use crate::rng::{half_chance, below, between_u64};
use crate::sums::{
    sum_to, sum_over, occurs, all_distinct, lemma_sum_over_distinct, lemma_sum_to_ext,
    lemma_sum_to_point, lemma_sum_to_split, lemma_sum_to_zero, lemma_sum_to_le,
    lemma_sum_to_nonneg_mono,
};
use crate::graph::Graph;

verus! {

/// A graph coloring instance: `k` colors, and the penalty for each
/// conflicting edge.
pub struct GraphColoring {
    pub graph: Graph,
    pub k: usize,
    pub penalty_weight: i64,
}

/// A coloring with its cached counters.
///
/// `gamma[i * k + c]` is the number of neighbours of `i` colored `c`, and
/// `class_size[c]` the number of vertices colored `c`.
#[derive(Debug, Clone)]
pub struct GraphColoringSolution {
    pub colors: Vec<usize>,
    pub gamma: Vec<u32>,
    pub class_size: Vec<usize>,
    pub colors_used: usize,
    pub conflicts: usize,
    pub objective: i64,
}

/// A scaled difference of two counts bounded by `e` is bounded by the
/// scaled `e`, and distributes.
proof fn lemma_scaled_diff(pw: int, a: int, b: int, e: int)
    by (nonlinear_arith)
    requires
        pw >= 0,
        0 <= a <= e,
        0 <= b <= e,
    ensures
        -(pw * e) <= pw * (a - b) <= pw * e,
        pw * (a - b) == pw * a - pw * b,
        0 <= pw * a <= pw * e,
{
}

/// The entry `i * k + c` lies in `0..n * k`, and no other pair maps to it.
proof fn lemma_index(i: int, c: int, n: int, k: int)
    requires
        0 <= i < n,
        0 <= c < k,
    ensures
        0 <= i * k + c < n * k,
        forall|i2: int, c2: int| 0 <= i2 < n && 0 <= c2 < k && #[trigger] (i2 * k + c2) == i * k + c ==> i2 == i && c2 == c,
{
    assert(0 <= i * k + c < n * k) by (nonlinear_arith)
        requires 0 <= i < n, 0 <= c < k;
    assert forall|i2: int, c2: int| 0 <= i2 < n && 0 <= c2 < k && #[trigger] (i2 * k + c2) == i * k + c implies i2 == i && c2 == c by {
        if i2 < i {
            assert(i2 * k + c2 < i * k) by (nonlinear_arith)
                requires i2 < i, 0 <= c2 < k;
        } else if i2 > i {
            assert(i * k + c < i2 * k) by (nonlinear_arith)
                requires i < i2, 0 <= c < k;
        }
    }
}

impl GraphColoring {
    /// The number of vertex slots.
    pub open spec fn n(self) -> int {
        self.graph.dim() as int
    }

    /// `1` if `j` is a neighbour of `i` colored `c`.
    pub open spec fn nb_term(self, cs: Seq<usize>, i: int, c: int, j: int) -> int {
        if self.graph.edge(i, j) && cs[j] as int == c { 1 } else { 0 }
    }

    /// The number of neighbours of `i` colored `c`.
    pub open spec fn gamma_at(self, cs: Seq<usize>, i: int, c: int) -> int {
        sum_to(|j: int| self.nb_term(cs, i, c, j), self.n())
    }

    /// The neighbours of `i` colored `c` among the vertices listed in `s`.
    pub open spec fn row_nb(self, cs: Seq<usize>, i: int, c: int, s: Seq<usize>) -> int {
        sum_over(s, |j: int| self.nb_term(cs, i, c, j))
    }

    /// `1` if vertex `v` is colored `c`.
    pub open spec fn class_term(self, cs: Seq<usize>, c: int, v: int) -> int {
        if cs[v] as int == c { 1 } else { 0 }
    }

    /// The number of vertices colored `c`.
    pub open spec fn class_at(self, cs: Seq<usize>, c: int) -> int {
        sum_to(|v: int| self.class_term(cs, c, v), self.n())
    }

    /// `1` if color `c` is used.
    pub open spec fn used_term(self, cs: Seq<usize>, c: int) -> int {
        if self.class_at(cs, c) > 0 { 1 } else { 0 }
    }

    /// The number of colors used.
    pub open spec fn used(self, cs: Seq<usize>) -> int {
        sum_to(|c: int| self.used_term(cs, c), self.k as int)
    }

    /// `1` if `i < j` are joined and share a color.
    pub open spec fn same_term(self, cs: Seq<usize>, i: int, j: int) -> int {
        if i < j && self.graph.edge(i, j) && cs[i] == cs[j] { 1 } else { 0 }
    }

    /// The conflicting edges from `i` to larger vertices.
    pub open spec fn same_row(self, cs: Seq<usize>, i: int) -> int {
        sum_to(|j: int| self.same_term(cs, i, j), self.n())
    }

    /// The number of conflicting edges.
    pub open spec fn conflicts(self, cs: Seq<usize>) -> int {
        sum_to(|i: int| self.same_row(cs, i), self.n())
    }

    /// The penalized objective.
    pub open spec fn objective(self, cs: Seq<usize>) -> int {
        self.used(cs) + self.penalty_weight * self.conflicts(cs)
    }

    /// A coloring of every vertex with a color of the palette.
    pub open spec fn valid_colors(self, cs: Seq<usize>) -> bool {
        &&& cs.len() == self.n()
        &&& forall|v: int| 0 <= v < cs.len() ==> #[trigger] cs[v] < self.k
    }

    /// Every counter and objective of the instance fits its type.
    pub open spec fn fits(self) -> bool {
        &&& self.graph.wf()
        &&& self.k >= 1
        &&& self.n() * self.k <= usize::MAX
        &&& self.n() <= u32::MAX
        &&& self.penalty_weight >= 1
        &&& self.graph.edge_count() <= usize::MAX
        &&& self.k + self.penalty_weight * self.graph.edge_count() <= i64::MAX
    }

    /// Recoloring `v` from `cur` to `new` changes the conflicts by the
    /// neighbours of `v` colored `new` less those colored `cur`.
    pub proof fn lemma_conflicts_recolor(self, cs: Seq<usize>, v: int, new: usize)
        requires
            self.graph.wf(),
            cs.len() == self.n(),
            0 <= v < self.n(),
            cs[v] != new,
        ensures
            self.conflicts(cs.update(v, new)) == self.conflicts(cs)
                + self.gamma_at(cs, v, new as int) - self.gamma_at(cs, v, cs[v] as int),
    {
        self.graph.lemma_wf();
        let n = self.n();
        let c2 = cs.update(v, new);
        let cur = cs[v] as int;
        let lower = |i: int| if i < v && self.graph.edge(i, v) { (if cs[i] as int == new as int { 1int } else { 0int }) - (if cs[i] as int == cur { 1int } else { 0int }) } else { 0int };
        let upper = |j: int| if v < j && self.graph.edge(v, j) { (if cs[j] as int == new as int { 1int } else { 0int }) - (if cs[j] as int == cur { 1int } else { 0int }) } else { 0int };
        assert forall|i: int| 0 <= i < n && i != v implies #[trigger] self.same_row(c2, i) == self.same_row(cs, i) + lower(i) by {
            lemma_sum_to_point(|j: int| self.same_term(cs, i, j), |j: int| self.same_term(c2, i, j), v, n);
        }
        let d = |j: int| self.same_term(c2, v, j) - self.same_term(cs, v, j);
        assert forall|j: int| 0 <= j < n implies #[trigger] upper(j) == d(j) by {}
        lemma_sum_to_split(|j: int| self.same_term(c2, v, j), |j: int| self.same_term(cs, v, j), d, n);
        lemma_sum_to_ext(upper, d, n);
        let r1 = |i: int| self.same_row(cs, i);
        let r2 = |i: int| self.same_row(c2, i);
        let diff = |i: int| r2(i) - r1(i);
        let dk = |i: int| if i == v { sum_to(upper, n) } else { lower(i) };
        assert forall|i: int| 0 <= i < n implies #[trigger] diff(i) == dk(i) by {}
        lemma_sum_to_split(r2, r1, diff, n);
        lemma_sum_to_ext(diff, dk, n);
        lemma_sum_to_point(lower, dk, v, n);
        let gn = |j: int| self.nb_term(cs, v, new as int, j);
        let gc = |j: int| self.nb_term(cs, v, cur, j);
        let both = |j: int| gn(j) - gc(j);
        assert forall|j: int| 0 <= j < n implies #[trigger] both(j) == lower(j) + upper(j) by {
            assert(self.graph.edge(j, v) == self.graph.edge(v, j));
            if self.graph.edge(v, j) {
                assert(j != v);
            }
        }
        lemma_sum_to_split(both, lower, upper, n);
        lemma_sum_to_split(gn, both, gc, n);
    }

    /// Recoloring `v` moves one neighbour of each neighbour of `v` from the
    /// old color to the new one.
    pub proof fn lemma_gamma_recolor(self, cs: Seq<usize>, v: int, new: usize, u: int, c: int)
        requires
            self.graph.wf(),
            cs.len() == self.n(),
            0 <= v < self.n(),
        ensures
            self.gamma_at(cs.update(v, new), u, c) == self.gamma_at(cs, u, c)
                + if self.graph.edge(u, v) {
                    (if new as int == c { 1int } else { 0int }) - (if cs[v] as int == c { 1int } else { 0int })
                } else { 0int },
    {
        let c2 = cs.update(v, new);
        lemma_sum_to_point(|j: int| self.nb_term(cs, u, c, j), |j: int| self.nb_term(c2, u, c, j), v, self.n());
    }

    /// Recoloring `v` moves it from one class to the other.
    pub proof fn lemma_class_recolor(self, cs: Seq<usize>, v: int, new: usize, c: int)
        requires
            cs.len() == self.n(),
            0 <= v < self.n(),
        ensures
            self.class_at(cs.update(v, new), c) == self.class_at(cs, c)
                + (if new as int == c { 1int } else { 0int }) - (if cs[v] as int == c { 1int } else { 0int }),
    {
        let c2 = cs.update(v, new);
        lemma_sum_to_point(|x: int| self.class_term(cs, c, x), |x: int| self.class_term(c2, c, x), v, self.n());
    }

    /// The swap law: exchanging the colors of two vertices keeps every
    /// class's size, hence the number of colors used.
    pub proof fn lemma_swap_keeps_used(self, cs: Seq<usize>, i: int, j: int)
        requires
            cs.len() == self.n(),
            0 <= i < self.n(),
            0 <= j < self.n(),
        ensures
            forall|c: int| #[trigger] self.class_at(swapped_colors(cs, i, j), c) == self.class_at(cs, c),
            self.used(swapped_colors(cs, i, j)) == self.used(cs),
    {
        let mid = cs.update(i, cs[j]);
        assert forall|c: int| #[trigger] self.class_at(swapped_colors(cs, i, j), c) == self.class_at(cs, c) by {
            self.lemma_class_recolor(cs, i, cs[j], c);
            self.lemma_class_recolor(mid, j, cs[i], c);
            if i == j {
                assert(swapped_colors(cs, i, j) =~= cs);
            }
        }
        crate::sums::lemma_sum_to_ext(|c: int| self.used_term(swapped_colors(cs, i, j), c), |c: int| self.used_term(cs, c), self.k as int);
    }

    /// The counters are non-negative and bounded.
    pub proof fn lemma_bounds(self, cs: Seq<usize>)
        requires
            self.graph.wf(),
        ensures
            0 <= self.used(cs) <= self.k,
            0 <= self.conflicts(cs) <= self.graph.edge_count(),
            forall|i: int, c: int| 0 <= i < self.n() ==> 0 <= #[trigger] self.gamma_at(cs, i, c) <= self.graph.deg(i),
            forall|c: int| 0 <= #[trigger] self.class_at(cs, c) <= self.n(),
            forall|i: int| 0 <= i < self.n() ==> 0 <= #[trigger] self.same_row(cs, i) <= self.graph.upper_deg(i),
            forall|i: int| 0 <= i < self.n() ==> #[trigger] self.graph.upper_deg(i) >= 0,
    {
        let n = self.n();
        let k = self.k as int;
        lemma_sum_to_le(|c: int| self.used_term(cs, c), |c: int| 1int, k);
        lemma_sum_to_nonneg_mono(|c: int| self.used_term(cs, c), 0, k);
        crate::sums::lemma_sum_ones(k);
        assert forall|i: int, c: int| 0 <= i < n implies 0 <= #[trigger] self.gamma_at(cs, i, c) <= self.graph.deg(i) by {
            lemma_sum_to_le(|j: int| self.nb_term(cs, i, c, j), |j: int| self.graph.edge_term(i, j), n);
            lemma_sum_to_nonneg_mono(|j: int| self.nb_term(cs, i, c, j), 0, n);
        }
        assert forall|c: int| 0 <= #[trigger] self.class_at(cs, c) <= n by {
            lemma_sum_to_le(|v: int| self.class_term(cs, c, v), |v: int| 1int, n);
            lemma_sum_to_nonneg_mono(|v: int| self.class_term(cs, c, v), 0, n);
            crate::sums::lemma_sum_ones(n);
        }
        assert forall|i: int| 0 <= i < n implies 0 <= #[trigger] self.same_row(cs, i) <= self.graph.upper_deg(i) by {
            lemma_sum_to_le(|j: int| self.same_term(cs, i, j), |j: int| self.graph.upper_term(i, j), n);
            lemma_sum_to_nonneg_mono(|j: int| self.same_term(cs, i, j), 0, n);
        }
        lemma_sum_to_le(|i: int| self.same_row(cs, i), |i: int| self.graph.upper_deg(i), n);
        lemma_sum_to_nonneg_mono(|i: int| self.same_row(cs, i), 0, n);
        assert forall|i: int| 0 <= i < n implies #[trigger] self.graph.upper_deg(i) >= 0 by {
            lemma_sum_to_nonneg_mono(|j: int| self.graph.upper_term(i, j), 0, n);
        }
    }

    /// An instance with a palette of `k` colors and penalty weight
    /// `graph.len() + 1`. The palette must not be empty.
    pub fn with_palette(graph: Graph, k: usize) -> (r: GraphColoring)
        requires
            k >= 1,
            graph.dim() < i64::MAX,
        ensures
            r.graph == graph,
            r.k == k,
            r.penalty_weight == graph.dim() + 1,
    {
        let penalty_weight = graph.len() as i64 + 1;
        GraphColoring { graph, k, penalty_weight }
    }

    /// An instance whose palette has one more color than the largest degree,
    /// enough for a greedy coloring without conflicts.
    pub fn new(graph: Graph) -> (r: GraphColoring)
        requires
            graph.wf(),
            graph.dim() < i64::MAX,
        ensures
            r.graph == graph,
            r.penalty_weight == graph.dim() + 1,
            forall|v: int| 0 <= v < graph.dim() ==> #[trigger] graph.deg(v) < r.k,
            r.k == 1 || exists|v: int| 0 <= v < graph.dim() && #[trigger] graph.deg(v) + 1 == r.k,
    {
        let n = graph.len();
        let mut max_degree: usize = 0;
        let mut v: usize = 0;
        while v < n
            invariant
                0 <= v <= n,
                n == graph.dim(),
                graph.wf(),
                forall|u: int| 0 <= u < v ==> #[trigger] graph.deg(u) <= max_degree,
                max_degree == 0 || exists|u: int| 0 <= u < v && #[trigger] graph.deg(u) == max_degree,
            decreases n - v,
        {
            let d = graph.degree(v);
            if d > max_degree {
                max_degree = d;
            }
            v += 1;
        }
        proof {
            graph.lemma_wf();
            assert(max_degree < usize::MAX) by {
                if max_degree > 0 {
                    let u = choose|u: int| 0 <= u < n && #[trigger] graph.deg(u) == max_degree;
                    graph.lemma_deg_lt(u);
                }
            }
        }
        let k = max_degree + 1;
        Self::with_palette(graph, k)
    }
}

/// The position of counter `(i, c)` in the flat `gamma` vector.
pub open spec fn cell(k: int, i: int, c: int) -> int {
    i * k + c
}

impl GraphColoringSolution {
    /// The number of positions where the two solutions' `colors` differ.
    pub fn distance(&self, other: &GraphColoringSolution) -> (r: usize)
        ensures
            r == crate::sums::mismatches(self.colors@, other.colors@,
                if self.colors@.len() < other.colors@.len() { self.colors@.len() as int } else { other.colors@.len() as int }),
    {
        crate::sums::count_mismatches_usize(self.colors.as_slice(), other.colors.as_slice())
    }

    /// The cached counters agree with the coloring.
    pub open spec fn consistent(self, p: GraphColoring) -> bool {
        &&& p.fits()
        &&& p.valid_colors(self.colors@)
        &&& self.gamma@.len() == p.n() * p.k
        &&& forall|i: int, c: int| 0 <= i < p.n() && 0 <= c < p.k ==>
            #[trigger] self.gamma@[cell(p.k as int, i, c)] as int == p.gamma_at(self.colors@, i, c)
        &&& self.class_size@.len() == p.k
        &&& forall|c: int| 0 <= c < p.k ==> #[trigger] self.class_size@[c] as int == p.class_at(self.colors@, c)
        &&& self.colors_used as int == p.used(self.colors@)
        &&& self.conflicts as int == p.conflicts(self.colors@)
        &&& self.objective as int == p.objective(self.colors@)
    }
}

impl GraphColoring {
    /// Builds the solution of a coloring, computing every counter.
    pub fn solution_from_colors(&self, colors: Vec<usize>) -> (r: GraphColoringSolution)
        requires
            self.fits(),
            self.valid_colors(colors@),
        ensures
            r.consistent(*self),
            r.colors@ == colors@,
    {
        let ghost cs = colors@;
        proof {
            self.graph.lemma_wf();
            self.lemma_bounds(cs);
        }
        let n = self.graph.len();
        let k = self.k;
        let mut class_size: Vec<usize> = Vec::new();
        let mut c: usize = 0;
        while c < k
            invariant
                0 <= c <= k,
                class_size@.len() == c,
                forall|x: int| 0 <= x < c ==> #[trigger] class_size@[x] == 0,
            decreases k - c,
        {
            class_size.push(0);
            c += 1;
        }
        let mut v: usize = 0;
        while v < n
            invariant
                0 <= v <= n,
                n == self.n(),
                k == self.k,
                cs == colors@,
                self.valid_colors(cs),
                class_size@.len() == k,
                forall|x: int| 0 <= x < k ==> #[trigger] class_size@[x] as int == sum_to(|u: int| self.class_term(cs, x, u), v as int),
                forall|x: int| 0 <= x < k ==> #[trigger] class_size@[x] <= v,
            decreases n - v,
        {
            let cv = colors[v];
            class_size.set(cv, class_size[cv] + 1);
            v += 1;
        }
        let mut colors_used: usize = 0;
        let mut c2: usize = 0;
        while c2 < k
            invariant
                0 <= c2 <= k,
                k == self.k,
                n == self.n(),
                class_size@.len() == k,
                forall|x: int| 0 <= x < k ==> #[trigger] class_size@[x] as int == self.class_at(cs, x),
                colors_used as int == sum_to(|x: int| self.used_term(cs, x), c2 as int),
                colors_used <= c2,
            decreases k - c2,
        {
            if class_size[c2] > 0 {
                colors_used += 1;
            }
            c2 += 1;
        }
        let total = n * k;
        let mut gamma: Vec<u32> = Vec::new();
        let mut m: usize = 0;
        while m < total
            invariant
                0 <= m <= total,
                gamma@.len() == m,
                forall|x: int| 0 <= x < m ==> #[trigger] gamma@[x] == 0,
            decreases total - m,
        {
            gamma.push(0);
            m += 1;
        }
        proof {
            assert forall|a: int, x: int| 0 <= a < n && 0 <= x < k implies #[trigger] gamma@[cell(k as int, a, x)] == 0 by {
                lemma_index(a, x, n as int, k as int);
            }
            assert(self.graph.edge_count() <= i64::MAX) by {
                let e = self.graph.edge_count();
                let pw = self.penalty_weight as int;
                crate::sums::lemma_sum_to_nonneg_mono(|i: int| self.graph.upper_deg(i), 0, n as int);
                assert(e <= pw * e) by (nonlinear_arith)
                    requires 0 <= e, pw >= 1;
            }
        }
        let mut conflicts: usize = 0;
        let mut i: usize = 0;
        while i < n
            invariant
                0 <= i <= n,
                n == self.n(),
                k == self.k,
                total == n * k,
                self.fits(),
                cs == colors@,
                self.valid_colors(cs),
                gamma@.len() == total,
                forall|a: int, x: int| 0 <= a < n && 0 <= x < k ==> #[trigger] gamma@[cell(k as int, a, x)] as int
                    == if a < i { self.gamma_at(cs, a, x) } else { 0 },
                conflicts as int == sum_to(|a: int| self.same_row(cs, a), i as int),
                conflicts as int <= sum_to(|i: int| self.graph.upper_deg(i), i as int),
                forall|a: int| 0 <= a < n ==> 0 <= #[trigger] self.same_row(cs, a) <= self.graph.upper_deg(a),
                forall|a: int| 0 <= a < n ==> #[trigger] self.graph.upper_deg(a) >= 0,
                sum_to(|i: int| self.graph.upper_deg(i), n as int) <= self.graph.edge_count(),
                self.graph.edge_count() <= i64::MAX,
            decreases n - i,
        {
            let row = self.graph.iter_on_adjacency(i);
            proof {
                self.graph.lemma_wf();
                self.graph.lemma_deg_lt(i as int);
                self.graph.lemma_deg_len(i as int);
                crate::sums::lemma_sum_to_nonneg_mono(|i: int| self.graph.upper_deg(i), i as int + 1, n as int);
            }
            let mut t: usize = 0;
            let mut same: usize = 0;
            while t < row.len()
                invariant
                    0 <= t <= row@.len(),
                    i < n,
                    n == self.n(),
                    k == self.k,
                    total == n * k,
                    self.fits(),
                    n <= u32::MAX,
                    row@.len() < n,
                    cs == colors@,
                    self.valid_colors(cs),
                    row@ == self.graph.nbrs(i as int),
                    all_distinct(row@),
                    forall|kk: int| 0 <= kk < row@.len() ==> #[trigger] row@[kk] < n,
                    forall|kk: int| 0 <= kk < row@.len() ==> #[trigger] self.graph.edge(i as int, row@[kk] as int),
                    gamma@.len() == total,
                    forall|a: int, x: int| 0 <= a < n && 0 <= x < k ==> #[trigger] gamma@[cell(k as int, a, x)] as int
                        == if a < i { self.gamma_at(cs, a, x) } else if a == i {
                            self.row_nb(cs, a, x, row@.take(t as int))
                        } else { 0 },
                    forall|x: int| 0 <= x < k ==> #[trigger] self.row_nb(cs, i as int, x, row@.take(t as int)) <= t,
                    same as int == sum_over(row@.take(t as int), |j: int| self.same_term(cs, i as int, j)),
                    same <= t,
                decreases row@.len() - t,
            {
                let j = row[t];
                let cj = colors[j];
                proof {
                    lemma_index(i as int, cj as int, n as int, k as int);
                }
                let idx = i * k + cj;
                proof {
                    assert(row@.take(t as int + 1).drop_last() =~= row@.take(t as int));
                    assert(row@.take(t as int + 1).last() == j);
                    assert(idx == cell(k as int, i as int, cj as int));
                    assert(self.row_nb(cs, i as int, cj as int, row@.take(t as int)) <= t);
                }
                gamma.set(idx, gamma[idx] + 1);
                if i < j && colors[i] == cj {
                    same += 1;
                }
                proof {
                    assert forall|a: int, x: int| 0 <= a < n && 0 <= x < k implies #[trigger] gamma@[cell(k as int, a, x)] as int
                        == if a < i { self.gamma_at(cs, a, x) } else if a == i {
                            self.row_nb(cs, a, x, row@.take(t as int + 1))
                        } else { 0 } by {
                        lemma_index(a, x, n as int, k as int);
                        lemma_index(i as int, cj as int, n as int, k as int);
                    }
                    assert forall|x: int| 0 <= x < k implies #[trigger] self.row_nb(cs, i as int, x, row@.take(t as int + 1)) <= t + 1 by {
                        assert(self.row_nb(cs, i as int, x, row@.take(t as int)) <= t);
                    }
                }
                t += 1;
            }
            proof {
                assert(row@.take(row@.len() as int) =~= row@);
                assert forall|a: int, x: int| 0 <= a < n && 0 <= x < k implies #[trigger] gamma@[cell(k as int, a, x)] as int
                    == if a < i + 1 { self.gamma_at(cs, a, x) } else { 0 } by {
                    if a == i {
                        assert forall|j: int| 0 <= j < n && !occurs(row@, j) implies #[trigger] self.nb_term(cs, a, x, j) == 0 by {
                            assert(!self.graph.edge(a, j));
                        }
                        lemma_sum_over_distinct(row@, |j: int| self.nb_term(cs, a, x, j), n as int);
                    }
                }
                assert forall|j: int| 0 <= j < n && !occurs(row@, j) implies #[trigger] self.same_term(cs, i as int, j) == 0 by {
                    assert(!self.graph.edge(i as int, j));
                }
                lemma_sum_over_distinct(row@, |j: int| self.same_term(cs, i as int, j), n as int);
            }
            proof {
                assert(same as int == self.same_row(cs, i as int));
                assert(self.same_row(cs, i as int) <= self.graph.upper_deg(i as int));
            }
            conflicts = conflicts + same;
            i += 1;
        }
        proof {
            let e = self.graph.edge_count();
            let cf = self.conflicts(cs);
            let pw = self.penalty_weight as int;
            assert(0 <= pw * cf <= pw * e) by (nonlinear_arith)
                requires 0 <= cf <= e, pw >= 0;
        }
        let objective = colors_used as i64 + self.penalty_weight * conflicts as i64;
        GraphColoringSolution { colors, gamma, class_size, colors_used, conflicts, objective }
    }
}

impl GraphColoring {
    /// Recoloring changes only the classes of the old and the new color, so
    /// the number of colors used moves by whether the old class empties and
    /// the new one was empty.
    pub proof fn lemma_used_recolor(self, cs: Seq<usize>, v: int, new: usize)
        requires
            self.valid_colors(cs),
            0 <= v < self.n(),
            new < self.k,
            cs[v] != new,
        ensures
            self.used(cs.update(v, new)) == self.used(cs)
                - (if self.class_at(cs, cs[v] as int) == 1 { 1int } else { 0int })
                + (if self.class_at(cs, new as int) == 0 { 1int } else { 0int }),
            self.class_at(cs, cs[v] as int) >= 1,
            self.used(cs) >= 1,
    {
        let c2 = cs.update(v, new);
        let cur = cs[v] as int;
        let k = self.k as int;
        let f0 = |c: int| self.used_term(cs, c);
        let f2 = |c: int| self.used_term(c2, c);
        let f1 = |c: int| if c == cur { self.used_term(c2, c) } else { self.used_term(cs, c) };
        assert forall|c: int| 0 <= c < k implies #[trigger] self.class_at(c2, c) == self.class_at(cs, c)
            + (if new as int == c { 1int } else { 0int }) - (if cur == c { 1int } else { 0int }) by {
            self.lemma_class_recolor(cs, v, new, c);
        }
        self.lemma_class_recolor(cs, v, new, cur);
        self.lemma_class_recolor(cs, v, new, new as int);
        assert(self.class_at(cs, cur) >= 1) by {
            let g = |x: int| if x == v { 1int } else { 0int };
            let z = |x: int| 0int;
            crate::sums::lemma_sum_to_le(g, |x: int| self.class_term(cs, cur, x), self.n());
            lemma_sum_to_point(z, g, v, self.n());
            lemma_sum_to_zero(z, self.n());
        }
        assert(self.used(cs) >= 1) by {
            let g = |c: int| if c == cur { 1int } else { 0int };
            let z = |c: int| 0int;
            crate::sums::lemma_sum_to_le(g, f0, k);
            lemma_sum_to_point(z, g, cur, k);
            lemma_sum_to_zero(z, k);
        }
        assert forall|c: int| 0 <= c < k && c != cur implies #[trigger] f1(c) == f0(c) by {}
        lemma_sum_to_point(f0, f1, cur, k);
        assert forall|c: int| 0 <= c < k && c != new as int implies #[trigger] f2(c) == f1(c) by {}
        lemma_sum_to_point(f1, f2, new as int, k);
    }

    /// Recolors `v` with `new_color`, updating every counter; a recoloring to
    /// the current color changes nothing.
    pub fn recolor(&self, sol: &mut GraphColoringSolution, v: usize, new_color: usize)
        requires
            old(sol).consistent(*self),
            v < self.n(),
            new_color < self.k,
        ensures
            final(sol).consistent(*self),
            final(sol).colors@ == old(sol).colors@.update(v as int, new_color),
    {
        let ghost cs = sol.colors@;
        let cur = sol.colors[v];
        if cur == new_color {
            proof {
                assert(cs.update(v as int, new_color) =~= cs);
            }
            return;
        }
        let ghost c2 = cs.update(v as int, new_color);
        let k = self.k;
        let n = self.graph.len();
        proof {
            self.graph.lemma_wf();
            self.lemma_bounds(cs);
            self.lemma_bounds(c2);
            self.lemma_conflicts_recolor(cs, v as int, new_color);
            self.lemma_used_recolor(cs, v as int, new_color);
            lemma_index(v as int, cur as int, n as int, k as int);
            lemma_index(v as int, new_color as int, n as int, k as int);
            assert(c2.len() == cs.len());
            assert forall|x: int| 0 <= x < c2.len() implies #[trigger] c2[x] < self.k by {}
        }
        proof {
            assert(cell(k as int, v as int, cur as int) == v * k + cur);
            assert(cell(k as int, v as int, new_color as int) == v * k + new_color);
            assert(sol.gamma@[cell(k as int, v as int, cur as int)] as int == self.gamma_at(cs, v as int, cur as int));
            assert(sol.gamma@[cell(k as int, v as int, new_color as int)] as int == self.gamma_at(cs, v as int, new_color as int));
        }
        let removed = sol.gamma[v * k + cur] as usize;
        let added = sol.gamma[v * k + new_color] as usize;
        proof {
            assert(removed as int == self.gamma_at(cs, v as int, cur as int));
            assert(added as int == self.gamma_at(cs, v as int, new_color as int));
        }
        if added >= removed {
            sol.conflicts = sol.conflicts + (added - removed);
        } else {
            sol.conflicts = sol.conflicts - (removed - added);
        }
        let row = self.graph.iter_on_adjacency(v);
        proof {
            assert forall|u: int| 0 <= u < n implies #[trigger] self.graph.deg(u) < n by {
                self.graph.lemma_deg_lt(u);
            }
        }
        let ghost g0 = sol.gamma@;
        let mut t: usize = 0;
        while t < row.len()
            invariant
                0 <= t <= row@.len(),
                v < n,
                n == self.n(),
                k == self.k,
                self.fits(),
                cs.len() == n,
                c2 == cs.update(v as int, new_color),
                cur == cs[v as int],
                cur != new_color,
                cur < k,
                new_color < k,
                row@ == self.graph.nbrs(v as int),
                all_distinct(row@),
                forall|kk: int| 0 <= kk < row@.len() ==> #[trigger] row@[kk] < n,
                forall|kk: int| 0 <= kk < row@.len() ==> #[trigger] self.graph.edge(v as int, row@[kk] as int),
                sol.gamma@.len() == n * k,
                sol.colors@ == cs,
                sol.class_size == old(sol).class_size,
                sol.colors_used == old(sol).colors_used,
                sol.conflicts as int == self.conflicts(c2),
                forall|u: int, c: int| 0 <= u < n && 0 <= c < k ==> #[trigger] g0[cell(k as int, u, c)] as int == self.gamma_at(cs, u, c),
                forall|u: int, c: int| 0 <= u < n && 0 <= c < k ==> #[trigger] sol.gamma@[cell(k as int, u, c)] as int
                    == if occurs(row@.take(t as int), u) { self.gamma_at(c2, u, c) } else { self.gamma_at(cs, u, c) },
                forall|u: int, c: int| 0 <= u < n ==> 0 <= #[trigger] self.gamma_at(c2, u, c) <= self.graph.deg(u),
                forall|u: int| 0 <= u < n ==> #[trigger] self.graph.deg(u) < n,
                n <= u32::MAX,
            decreases row@.len() - t,
        {
            let u = row[t];
            proof {
                self.graph.lemma_wf();
                lemma_index(u as int, cur as int, n as int, k as int);
                lemma_index(u as int, new_color as int, n as int, k as int);
                self.lemma_gamma_recolor(cs, v as int, new_color, u as int, cur as int);
                self.lemma_gamma_recolor(cs, v as int, new_color, u as int, new_color as int);
                assert(self.graph.edge(u as int, v as int));
                assert(!occurs(row@.take(t as int), u as int)) by {
                    if occurs(row@.take(t as int), u as int) {
                        let kk = choose|kk: int| 0 <= kk < row@.take(t as int).len() && row@.take(t as int)[kk] as int == u as int;
                        assert(row@[kk] == row@[t as int]);
                    }
                }
            }
            proof {
                assert(cell(k as int, u as int, cur as int) == u * k + cur);
                assert(cell(k as int, u as int, new_color as int) == u * k + new_color);
                assert(sol.gamma@[cell(k as int, u as int, cur as int)] as int == self.gamma_at(cs, u as int, cur as int));
                assert(sol.gamma@[cell(k as int, u as int, new_color as int)] as int == self.gamma_at(cs, u as int, new_color as int));
                assert(self.gamma_at(c2, u as int, cur as int) >= 0);
                assert(self.gamma_at(c2, u as int, new_color as int) <= self.graph.deg(u as int));
            }
            let a = u * k + cur;
            let b = u * k + new_color;
            sol.gamma.set(a, sol.gamma[a] - 1);
            sol.gamma.set(b, sol.gamma[b] + 1);
            proof {
                assert(row@.take(t as int + 1) =~= row@.take(t as int).push(u));
                assert forall|w: int, c: int| 0 <= w < n && 0 <= c < k implies #[trigger] sol.gamma@[cell(k as int, w, c)] as int
                    == if occurs(row@.take(t as int + 1), w) { self.gamma_at(c2, w, c) } else { self.gamma_at(cs, w, c) } by {
                    lemma_index(w, c, n as int, k as int);
                    crate::sums::lemma_occurs_push(row@.take(t as int), u, w);
                    if w == u as int {
                        self.lemma_gamma_recolor(cs, v as int, new_color, w, c);
                    }
                }
            }
            t += 1;
        }
        proof {
            assert(sol.class_size@[cur as int] as int == self.class_at(cs, cur as int));
            assert(sol.class_size@[new_color as int] as int == self.class_at(cs, new_color as int));
            self.lemma_class_recolor(cs, v as int, new_color, new_color as int);
            assert(self.class_at(c2, new_color as int) <= n);
        }
        let cc = sol.class_size[cur];
        sol.class_size.set(cur, cc - 1);
        if cc - 1 == 0 {
            sol.colors_used = sol.colors_used - 1;
        }
        let cn = sol.class_size[new_color];
        if cn == 0 {
            sol.colors_used = sol.colors_used + 1;
        }
        sol.class_size.set(new_color, cn + 1);
        sol.colors.set(v, new_color);
        proof {
            assert(row@.take(row@.len() as int) =~= row@);
            let e = self.graph.edge_count();
            let cf = self.conflicts(c2);
            let pw = self.penalty_weight as int;
            assert(0 <= pw * cf <= pw * e) by (nonlinear_arith)
                requires 0 <= cf <= e, pw >= 0;
            assert forall|u: int, c: int| 0 <= u < n && 0 <= c < k implies
                #[trigger] sol.gamma@[cell(k as int, u, c)] as int == self.gamma_at(sol.colors@, u, c) by {
                if !occurs(row@, u) {
                    self.lemma_gamma_recolor(cs, v as int, new_color, u, c);
                    if self.graph.edge(u, v as int) {
                        assert(self.graph.edge(v as int, u));
                    }
                }
            }
            assert forall|c: int| 0 <= c < k implies #[trigger] sol.class_size@[c] as int == self.class_at(sol.colors@, c) by {
                self.lemma_class_recolor(cs, v as int, new_color, c);
            }
            assert(sol.colors@ =~= c2);
            assert(sol.colors_used as int == self.used(c2));
            assert(sol.conflicts as int == self.conflicts(c2));
            assert(self.used(c2) <= k);
            assert(e <= pw * e) by (nonlinear_arith)
                requires 0 <= e, pw >= 1;
            assert(cf <= i64::MAX);
        }
        sol.objective = sol.colors_used as i64 + self.penalty_weight * sol.conflicts as i64;
    }

    /// The change in objective when `v` is recolored with `new_color`.
    pub fn recolor_gain(&self, sol: &GraphColoringSolution, v: usize, new_color: usize) -> (r: i64)
        requires
            sol.consistent(*self),
            v < self.n(),
            new_color < self.k,
            sol.colors@[v as int] != new_color,
        ensures
            r == self.objective(sol.colors@.update(v as int, new_color)) - self.objective(sol.colors@),
    {
        let ghost cs = sol.colors@;
        let ghost c2 = cs.update(v as int, new_color);
        let cur = sol.colors[v];
        let k = self.k;
        proof {
            self.graph.lemma_wf();
            self.lemma_bounds(cs);
            self.lemma_bounds(c2);
            self.lemma_conflicts_recolor(cs, v as int, new_color);
            self.lemma_used_recolor(cs, v as int, new_color);
            lemma_index(v as int, cur as int, self.n(), k as int);
            lemma_index(v as int, new_color as int, self.n(), k as int);
            let e = self.graph.edge_count();
            let pw = self.penalty_weight as int;
            let d = self.conflicts(c2) - self.conflicts(cs);
            lemma_scaled_diff(pw, self.conflicts(c2), self.conflicts(cs), e);
        }
        proof {
            assert(cell(k as int, v as int, cur as int) == v * k + cur);
            assert(cell(k as int, v as int, new_color as int) == v * k + new_color);
            assert(sol.gamma@[cell(k as int, v as int, cur as int)] as int == self.gamma_at(cs, v as int, cur as int));
            assert(sol.gamma@[cell(k as int, v as int, new_color as int)] as int == self.gamma_at(cs, v as int, new_color as int));
            assert(sol.class_size@[cur as int] as int == self.class_at(cs, cur as int));
            assert(sol.class_size@[new_color as int] as int == self.class_at(cs, new_color as int));
        }
        let d_conflicts = sol.gamma[v * k + new_color] as i64 - sol.gamma[v * k + cur] as i64;
        let mut d_colors: i64 = 0;
        if sol.class_size[cur] == 1 {
            d_colors = d_colors - 1;
        }
        if sol.class_size[new_color] == 0 {
            d_colors = d_colors + 1;
        }
        proof {
            let pw = self.penalty_weight as int;
            assert(pw * (self.conflicts(c2) - self.conflicts(cs)) == pw * self.conflicts(c2) - pw * self.conflicts(cs)) by (nonlinear_arith);
        }
        d_colors + self.penalty_weight * d_conflicts
    }

    /// The change in objective when vertices `i` and `j` of different colors
    /// exchange their colors.
    pub fn swap_gain(&self, sol: &GraphColoringSolution, i: usize, j: usize) -> (r: i64)
        requires
            sol.consistent(*self),
            i < self.n(),
            j < self.n(),
            sol.colors@[i as int] != sol.colors@[j as int],
        ensures
            r == self.objective(sol.colors@.update(i as int, sol.colors@[j as int]).update(j as int, sol.colors@[i as int]))
                - self.objective(sol.colors@),
    {
        let ghost cs = sol.colors@;
        let k = self.k;
        let ci = sol.colors[i];
        let cj = sol.colors[j];
        let ghost c1 = cs.update(i as int, cj);
        let ghost c2 = c1.update(j as int, ci);
        proof {
            self.graph.lemma_wf();
            self.lemma_bounds(cs);
            self.lemma_bounds(c2);
            self.lemma_conflicts_recolor(cs, i as int, cj);
            self.lemma_conflicts_recolor(c1, j as int, ci);
            self.lemma_gamma_recolor(cs, i as int, cj, j as int, ci as int);
            self.lemma_gamma_recolor(cs, i as int, cj, j as int, cj as int);
            lemma_index(i as int, ci as int, self.n(), k as int);
            lemma_index(i as int, cj as int, self.n(), k as int);
            lemma_index(j as int, ci as int, self.n(), k as int);
            lemma_index(j as int, cj as int, self.n(), k as int);
            assert forall|c: int| 0 <= c < k implies #[trigger] self.class_at(c2, c) == self.class_at(cs, c) by {
                self.lemma_class_recolor(cs, i as int, cj, c);
                self.lemma_class_recolor(c1, j as int, ci, c);
            }
            lemma_sum_to_ext(|c: int| self.used_term(cs, c), |c: int| self.used_term(c2, c), k as int);
            assert(self.graph.edge(i as int, j as int) == self.graph.edge(j as int, i as int));
            let e = self.graph.edge_count();
            let pw = self.penalty_weight as int;
            let d = self.conflicts(c2) - self.conflicts(cs);
            lemma_scaled_diff(pw, self.conflicts(c2), self.conflicts(cs), e);
        }
        proof {
            assert(cell(k as int, i as int, ci as int) == i * k + ci);
            assert(cell(k as int, i as int, cj as int) == i * k + cj);
            assert(cell(k as int, j as int, ci as int) == j * k + ci);
            assert(cell(k as int, j as int, cj as int) == j * k + cj);
            assert(sol.gamma@[cell(k as int, i as int, ci as int)] as int == self.gamma_at(cs, i as int, ci as int));
            assert(sol.gamma@[cell(k as int, i as int, cj as int)] as int == self.gamma_at(cs, i as int, cj as int));
            assert(sol.gamma@[cell(k as int, j as int, ci as int)] as int == self.gamma_at(cs, j as int, ci as int));
            assert(sol.gamma@[cell(k as int, j as int, cj as int)] as int == self.gamma_at(cs, j as int, cj as int));
        }
        let adjacent: i64 = if self.graph.has_edge(i, j) { 1 } else { 0 };
        let d_conflicts = (sol.gamma[i * k + cj] as i64 - sol.gamma[i * k + ci] as i64)
            + (sol.gamma[j * k + ci] as i64 - sol.gamma[j * k + cj] as i64)
            - 2 * adjacent;
        self.penalty_weight * d_conflicts
    }
}

/// Some move of the list recolors `v` with `c`.
pub open spec fn has_recolor(r: Seq<GraphColoringRecolorNeighbor>, v: int, c: int) -> bool {
    exists|t: int| 0 <= t < r.len() && (#[trigger] r[t]).v == v && r[t].new_color == c
}

/// The coloring with the colors of `i` and `j` exchanged.
pub open spec fn swapped_colors(cs: Seq<usize>, i: int, j: int) -> Seq<usize> {
    cs.update(i, cs[j]).update(j, cs[i])
}

/// Some swap of `r` exchanges `i` and `j`.
pub open spec fn has_swap(r: Seq<GraphColoringSwapNeighbor>, i: int, j: int) -> bool {
    exists|t: int| 0 <= t < r.len() && (#[trigger] r[t]).i == i && r[t].j == j
}

/// A move that recolors vertex `v` with `new_color`; `gain` is the change in
/// objective.
#[derive(Debug, Clone, Copy)]
pub struct GraphColoringRecolorNeighbor {
    pub v: usize,
    pub new_color: usize,
    pub gain: i64,
}

/// The tabu map after marking `v` until `until`: grown with zeros to hold
/// `v`, entry `v` set, the others unchanged.
pub open spec fn tabu_marked(old_map: Seq<u64>, new_map: Seq<u64>, v: int) -> bool {
    &&& new_map.len() == (if v < old_map.len() { old_map.len() as int } else { v + 1 })
    &&& forall|w: int| 0 <= w < new_map.len() && w != v ==>
        #[trigger] new_map[w] == (if w < old_map.len() { old_map[w] } else { 0u64 })
}

/// A move that touches `v` is allowed at `iteration` when `v` has no entry
/// in the tabu map or its tenure has passed.
pub open spec fn tabu_free(map: Seq<u64>, v: int, iteration: u64) -> bool {
    v >= map.len() || iteration > map[v]
}

/// Grows `map` with zeros until it holds index `v`.
fn grow_tabu_map(map: &mut Vec<u64>, v: usize)
    requires
        v < usize::MAX,
    ensures
        final(map)@.len() == (if v < old(map)@.len() { old(map)@.len() as int } else { v + 1 }),
        forall|w: int| 0 <= w < final(map)@.len() ==>
            #[trigger] final(map)@[w] == (if w < old(map)@.len() { old(map)@[w] } else { 0u64 }),
{
    while map.len() <= v
        invariant
            v < usize::MAX,
            old(map)@.len() <= map@.len() <= (if v < old(map)@.len() { old(map)@.len() as int } else { v + 1 }),
            forall|w: int| 0 <= w < map@.len() ==>
                #[trigger] map@[w] == (if w < old(map)@.len() { old(map)@[w] } else { 0u64 }),
        decreases v + 1 - map@.len(),
    {
        map.push(0);
    }
}

impl GraphColoringRecolorNeighbor {
    /// Whether the move is allowed at `iteration`: `v` is not tabu.
    pub fn is_move_enabled(&self, tabu_map: &Vec<u64>, iteration: u64) -> (r: bool)
        ensures
            r == tabu_free(tabu_map@, self.v as int, iteration),
    {
        self.v >= tabu_map.len() || iteration > tabu_map[self.v]
    }

    /// Makes recoloring `v` tabu for a tenure drawn uniformly from
    /// `tabu_tenure.0..=tabu_tenure.1` iterations after `iteration`.
    pub fn add_to_tabu_map(&self, tabu_map: &mut Vec<u64>, iteration: u64, tabu_tenure: (u64, u64), rng: &mut SmallRng)
        requires
            tabu_tenure.0 <= tabu_tenure.1,
            iteration + tabu_tenure.1 <= u64::MAX,
            self.v < usize::MAX,
        ensures
            tabu_marked(old(tabu_map)@, final(tabu_map)@, self.v as int),
            iteration + tabu_tenure.0 <= final(tabu_map)@[self.v as int] <= iteration + tabu_tenure.1,
    {
        let d = between_u64(rng, tabu_tenure.0, tabu_tenure.1);
        grow_tabu_map(tabu_map, self.v);
        tabu_map.set(self.v, iteration + d);
    }


    /// Applies the recoloring.
    pub fn apply_to_solution(&self, prob: &GraphColoring, sol: &mut GraphColoringSolution)
        requires
            old(sol).consistent(*prob),
            self.v < prob.n(),
            self.new_color < prob.k,
        ensures
            final(sol).consistent(*prob),
            final(sol).colors@ == old(sol).colors@.update(self.v as int, self.new_color),
    {
        prob.recolor(sol, self.v, self.new_color);
    }

    /// Every recoloring of a vertex with another color, by vertex and then
    /// by color, with its gain.
    pub fn iter(prob: &GraphColoring, sol: &GraphColoringSolution) -> (r: Vec<GraphColoringRecolorNeighbor>)
        requires
            sol.consistent(*prob),
        ensures
            forall|t: int| 0 <= t < r@.len() ==> {
                let m = #[trigger] r@[t];
                &&& m.v < prob.n()
                &&& m.new_color < prob.k
                &&& m.new_color != sol.colors@[m.v as int]
                &&& m.gain == prob.objective(sol.colors@.update(m.v as int, m.new_color)) - prob.objective(sol.colors@)
            },
            forall|v: int, c: int| 0 <= v < prob.n() && 0 <= c < prob.k && c != sol.colors@[v] ==>
                #[trigger] has_recolor(r@, v, c),
    {
        let n = prob.graph.len();
        let k = prob.k;
        let mut r: Vec<GraphColoringRecolorNeighbor> = Vec::new();
        let mut v: usize = 0;
        while v < n
            invariant
                0 <= v <= n,
                n == prob.n(),
                k == prob.k,
                sol.consistent(*prob),
                forall|t: int| 0 <= t < r@.len() ==> {
                    let m = #[trigger] r@[t];
                    &&& m.v < prob.n()
                    &&& m.new_color < prob.k
                    &&& m.new_color != sol.colors@[m.v as int]
                    &&& m.gain == prob.objective(sol.colors@.update(m.v as int, m.new_color)) - prob.objective(sol.colors@)
                },
                forall|w: int, c: int| 0 <= w < v && 0 <= c < k && c != sol.colors@[w] ==>
                    #[trigger] has_recolor(r@, w, c),
            decreases n - v,
        {
            let cur = sol.colors[v];
            let mut c: usize = 0;
            while c < k
                invariant
                    0 <= c <= k,
                    v < n,
                    n == prob.n(),
                    k == prob.k,
                    cur == sol.colors@[v as int],
                    sol.consistent(*prob),
                    forall|t: int| 0 <= t < r@.len() ==> {
                        let m = #[trigger] r@[t];
                        &&& m.v < prob.n()
                        &&& m.new_color < prob.k
                        &&& m.new_color != sol.colors@[m.v as int]
                        &&& m.gain == prob.objective(sol.colors@.update(m.v as int, m.new_color)) - prob.objective(sol.colors@)
                    },
                    forall|w: int, cc: int| 0 <= w < v && 0 <= cc < k && cc != sol.colors@[w] ==>
                        #[trigger] has_recolor(r@, w, cc),
                    forall|cc: int| 0 <= cc < c && cc != cur ==> #[trigger] has_recolor(r@, v as int, cc),
                decreases k - c,
            {
                if c != cur {
                    let g = prob.recolor_gain(sol, v, c);
                    let ghost r0 = r@;
                    r.push(GraphColoringRecolorNeighbor { v, new_color: c, gain: g });
                    proof {
                        assert forall|w: int, cc: int| 0 <= w < v && 0 <= cc < k && cc != sol.colors@[w] implies
                            #[trigger] has_recolor(r@, w, cc) by {
                            assert(has_recolor(r0, w, cc));
                            let t = choose|t: int| 0 <= t < r0.len() && (#[trigger] r0[t]).v == w && r0[t].new_color == cc;
                            assert(r@[t] == r0[t]);
                        }
                        assert forall|cc: int| 0 <= cc < c + 1 && cc != cur implies #[trigger] has_recolor(r@, v as int, cc) by {
                            if cc == c {
                                assert(r@[r0.len() as int].v == v);
                            } else {
                                assert(has_recolor(r0, v as int, cc));
                                let t = choose|t: int| 0 <= t < r0.len() && (#[trigger] r0[t]).v == v && r0[t].new_color == cc;
                                assert(r@[t] == r0[t]);
                            }
                        }
                    }
                }
                c += 1;
            }
            v += 1;
        }
        r
    }

    /// A recoloring of a uniformly drawn vertex with a uniformly drawn other
    /// color; none when there is no vertex or fewer than two colors.
    pub fn random_neighbor(prob: &GraphColoring, sol: &GraphColoringSolution, rng: &mut SmallRng) -> (r: Option<GraphColoringRecolorNeighbor>)
        requires
            sol.consistent(*prob),
        ensures
            r is None <==> (prob.n() == 0 || prob.k < 2),
            r matches Some(m) ==> m.v < prob.n() && m.new_color < prob.k && m.new_color != sol.colors@[m.v as int]
                && m.gain == prob.objective(sol.colors@.update(m.v as int, m.new_color)) - prob.objective(sol.colors@),
    {
        let n = prob.graph.len();
        if n == 0 || prob.k < 2 {
            return None;
        }
        let v = below(rng, n);
        let cur = sol.colors[v];
        let mut c = below(rng, prob.k - 1);
        if c >= cur {
            c += 1;
        }
        Some(GraphColoringRecolorNeighbor { v, new_color: c, gain: prob.recolor_gain(sol, v, c) })
    }

    /// Whether applying the move to `src` gives a lower objective than
    /// `other`'s.
    pub fn move_to_be_better_than(&self, src: &GraphColoringSolution, other: &GraphColoringSolution) -> (r: bool)
        requires
            i64::MIN <= src.objective + self.gain <= i64::MAX,
        ensures
            r == (src.objective + self.gain < other.objective),
    {
        src.objective + self.gain < other.objective
    }
}

/// A move that exchanges the colors of vertices `i` and `j`; `gain` is the
/// change in objective.
#[derive(Debug, Clone, Copy)]
pub struct GraphColoringSwapNeighbor {
    pub i: usize,
    pub j: usize,
    pub gain: i64,
}

impl GraphColoringSwapNeighbor {
    /// Whether the move is allowed at `iteration`: neither `i` nor `j` is
    /// tabu.
    pub fn is_move_enabled(&self, tabu_map: &Vec<u64>, iteration: u64) -> (r: bool)
        ensures
            r == (tabu_free(tabu_map@, self.i as int, iteration) && tabu_free(tabu_map@, self.j as int, iteration)),
    {
        let enabled_i = self.i >= tabu_map.len() || iteration > tabu_map[self.i];
        let enabled_j = self.j >= tabu_map.len() || iteration > tabu_map[self.j];
        enabled_i && enabled_j
    }

    /// Makes `i` and `j` tabu, each for its own tenure drawn uniformly from
    /// `tabu_tenure.0..=tabu_tenure.1` iterations after `iteration`.
    pub fn add_to_tabu_map(&self, tabu_map: &mut Vec<u64>, iteration: u64, tabu_tenure: (u64, u64), rng: &mut SmallRng)
        requires
            tabu_tenure.0 <= tabu_tenure.1,
            iteration + tabu_tenure.1 <= u64::MAX,
            self.i < usize::MAX,
            self.j < usize::MAX,
        ensures
            final(tabu_map)@.len() == vstd::math::max(old(tabu_map)@.len() as int, vstd::math::max(self.i as int, self.j as int) + 1),
            forall|w: int| 0 <= w < final(tabu_map)@.len() && w != self.i && w != self.j ==>
                #[trigger] final(tabu_map)@[w] == (if w < old(tabu_map)@.len() { old(tabu_map)@[w] } else { 0u64 }),
            iteration + tabu_tenure.0 <= final(tabu_map)@[self.i as int] <= iteration + tabu_tenure.1,
            iteration + tabu_tenure.0 <= final(tabu_map)@[self.j as int] <= iteration + tabu_tenure.1,
    {
        let max_v = if self.i > self.j { self.i } else { self.j };
        grow_tabu_map(tabu_map, max_v);
        let d = between_u64(rng, tabu_tenure.0, tabu_tenure.1);
        tabu_map.set(self.i, iteration + d);
        let d = between_u64(rng, tabu_tenure.0, tabu_tenure.1);
        tabu_map.set(self.j, iteration + d);
    }


    /// A swap counts as two iterations, one per recolor.
    pub fn apply_to_iteration(&self, iter: u64) -> (r: u64)
        requires
            iter <= u64::MAX - 2,
        ensures
            r == iter + 2,
    {
        iter + 2
    }

    /// Applies the swap as two recolorings: `i` takes `j`'s color, then `j`
    /// takes `i`'s former color.
    pub fn apply_to_solution(&self, prob: &GraphColoring, sol: &mut GraphColoringSolution)
        requires
            old(sol).consistent(*prob),
            self.i < prob.n(),
            self.j < prob.n(),
        ensures
            final(sol).consistent(*prob),
            final(sol).colors@ == old(sol).colors@.update(self.i as int, old(sol).colors@[self.j as int])
                .update(self.j as int, old(sol).colors@[self.i as int]),
            final(sol).colors_used == old(sol).colors_used,
    {
        let ci = sol.colors[self.i];
        let cj = sol.colors[self.j];
        prob.recolor(sol, self.i, cj);
        prob.recolor(sol, self.j, ci);
        proof {
            prob.lemma_swap_keeps_used(old(sol).colors@, self.i as int, self.j as int);
        }
    }

    /// Every swap of two vertices `j < i` of different colors, by `i` and
    /// then by `j`, with its gain.
    pub fn iter(prob: &GraphColoring, sol: &GraphColoringSolution) -> (r: Vec<GraphColoringSwapNeighbor>)
        requires
            sol.consistent(*prob),
        ensures
            forall|t: int| 0 <= t < r@.len() ==> {
                let m = #[trigger] r@[t];
                &&& m.j < m.i < prob.n()
                &&& sol.colors@[m.i as int] != sol.colors@[m.j as int]
                &&& m.gain == prob.objective(swapped_colors(sol.colors@, m.i as int, m.j as int)) - prob.objective(sol.colors@)
            },
            forall|t1: int, t2: int| 0 <= t1 < t2 < r@.len() ==>
                (#[trigger] r@[t1]).i < (#[trigger] r@[t2]).i || (r@[t1].i == r@[t2].i && r@[t1].j < r@[t2].j),
            forall|i: int, j: int| 0 <= j < i < prob.n() && sol.colors@[i] != sol.colors@[j] ==> #[trigger] has_swap(r@, i, j),
    {
        let n = prob.graph.len();
        let mut r: Vec<GraphColoringSwapNeighbor> = Vec::new();
        let mut i: usize = 0;
        while i < n
            invariant
                0 <= i <= n,
                n == prob.n(),
                sol.consistent(*prob),
                forall|t: int| 0 <= t < r@.len() ==> {
                    let m = #[trigger] r@[t];
                    &&& m.j < m.i < i
                    &&& sol.colors@[m.i as int] != sol.colors@[m.j as int]
                    &&& m.gain == prob.objective(swapped_colors(sol.colors@, m.i as int, m.j as int)) - prob.objective(sol.colors@)
                },
                forall|t1: int, t2: int| 0 <= t1 < t2 < r@.len() ==>
                    (#[trigger] r@[t1]).i < (#[trigger] r@[t2]).i || (r@[t1].i == r@[t2].i && r@[t1].j < r@[t2].j),
                forall|a: int, b: int| 0 <= b < a < i && sol.colors@[a] != sol.colors@[b] ==> #[trigger] has_swap(r@, a, b),
            decreases n - i,
        {
            let mut j: usize = 0;
            while j < i
                invariant
                    0 <= j <= i,
                    i < n,
                    n == prob.n(),
                    sol.consistent(*prob),
                    forall|t: int| 0 <= t < r@.len() ==> {
                        let m = #[trigger] r@[t];
                        &&& m.j < m.i && (m.i < i || (m.i == i && m.j < j))
                        &&& sol.colors@[m.i as int] != sol.colors@[m.j as int]
                        &&& m.gain == prob.objective(swapped_colors(sol.colors@, m.i as int, m.j as int)) - prob.objective(sol.colors@)
                    },
                    forall|t1: int, t2: int| 0 <= t1 < t2 < r@.len() ==>
                        (#[trigger] r@[t1]).i < (#[trigger] r@[t2]).i || (r@[t1].i == r@[t2].i && r@[t1].j < r@[t2].j),
                    forall|a: int, b: int| 0 <= b < a < i && sol.colors@[a] != sol.colors@[b] ==> #[trigger] has_swap(r@, a, b),
                    forall|b: int| 0 <= b < j && sol.colors@[i as int] != sol.colors@[b] ==> #[trigger] has_swap(r@, i as int, b),
                decreases i - j,
            {
                proof {
                    assert(sol.colors@.len() == n);
                }
                if sol.colors[j] != sol.colors[i] {
                    let g = prob.swap_gain(sol, i, j);
                    let ghost r0 = r@;
                    r.push(GraphColoringSwapNeighbor { i, j, gain: g });
                    proof {
                        assert forall|a: int, b: int| 0 <= b < a < i && sol.colors@[a] != sol.colors@[b] implies
                            #[trigger] has_swap(r@, a, b) by {
                            assert(has_swap(r0, a, b));
                            let t = choose|t: int| 0 <= t < r0.len() && (#[trigger] r0[t]).i == a && r0[t].j == b;
                            assert(r@[t] == r0[t]);
                        }
                        assert forall|b: int| 0 <= b < j + 1 && sol.colors@[i as int] != sol.colors@[b] implies
                            #[trigger] has_swap(r@, i as int, b) by {
                            if b == j {
                                assert(r@[r0.len() as int].i == i && r@[r0.len() as int].j == j);
                            } else {
                                assert(has_swap(r0, i as int, b));
                                let t = choose|t: int| 0 <= t < r0.len() && (#[trigger] r0[t]).i == i && r0[t].j == b;
                                assert(r@[t] == r0[t]);
                            }
                        }
                    }
                }
                j += 1;
            }
            i += 1;
        }
        r
    }

    /// The swap that a drawn pair `(a, b)` gives: the larger index first,
    /// with its gain, when the two are different vertices of different
    /// colors; none otherwise.
    pub fn pick_swap(prob: &GraphColoring, sol: &GraphColoringSolution, a: usize, b: usize) -> (r: Option<GraphColoringSwapNeighbor>)
        requires
            sol.consistent(*prob),
            a < prob.n(),
            b < prob.n(),
        ensures
            r is Some <==> (a != b && sol.colors@[a as int] != sol.colors@[b as int]),
            r matches Some(m) ==> m.i == (if a > b { a } else { b }) && m.j == (if a > b { b } else { a })
                && m.gain == prob.objective(swapped_colors(sol.colors@, m.i as int, m.j as int)) - prob.objective(sol.colors@),
    {
        proof {
            assert(sol.colors@.len() == prob.n());
        }
        if a != b && sol.colors[a] != sol.colors[b] {
            let i = if a > b { a } else { b };
            let j = if a > b { b } else { a };
            Some(GraphColoringSwapNeighbor { i, j, gain: prob.swap_gain(sol, i, j) })
        } else {
            None
        }
    }

    /// A swap of a uniformly drawn pair of differently colored vertices,
    /// larger index first, within sixteen draws; none when there are fewer
    /// than two vertices or every draw failed.
    pub fn random_neighbor(prob: &GraphColoring, sol: &GraphColoringSolution, rng: &mut SmallRng) -> (r: Option<GraphColoringSwapNeighbor>)
        requires
            sol.consistent(*prob),
        ensures
            prob.n() < 2 ==> r is None,
            r matches Some(m) ==> m.j < m.i < prob.n() && sol.colors@[m.i as int] != sol.colors@[m.j as int]
                && m.gain == prob.objective(swapped_colors(sol.colors@, m.i as int, m.j as int)) - prob.objective(sol.colors@),
    {
        let n = prob.graph.len();
        if n < 2 {
            return None;
        }
        let mut attempt: usize = 0;
        while attempt < 16
            invariant
                n == prob.n(),
                n >= 2,
                sol.consistent(*prob),
            decreases 16 - attempt,
        {
            proof {
                assert(sol.colors@.len() == n);
            }
            let a = below(rng, n);
            let b = below(rng, n);
            let picked = Self::pick_swap(prob, sol, a, b);
            if picked.is_some() {
                return picked;
            }
            attempt += 1;
        }
        None
    }

    /// Whether applying the move to `src` gives a lower objective than
    /// `other`'s.
    pub fn move_to_be_better_than(&self, src: &GraphColoringSolution, other: &GraphColoringSolution) -> (r: bool)
        requires
            i64::MIN <= src.objective + self.gain <= i64::MAX,
        ensures
            r == (src.objective + self.gain < other.objective),
    {
        src.objective + self.gain < other.objective
    }
}

/// Uniform crossover for graph coloring: each vertex takes its color from
/// the first or the second parent with equal probability.
#[derive(Debug, Clone, Copy)]
pub struct GraphColoringUniformCrossover;

impl GraphColoringUniformCrossover {
    /// The child coloring: `sol1`'s color of `v` when `picks[v]` holds,
    /// `sol2`'s otherwise.
    pub fn crossover_with(prob: &GraphColoring, sol1: &GraphColoringSolution, sol2: &GraphColoringSolution, picks: &[bool]) -> (r: GraphColoringSolution)
        requires
            sol1.consistent(*prob),
            sol2.consistent(*prob),
            picks@.len() == prob.n(),
        ensures
            r.consistent(*prob),
            forall|v: int| 0 <= v < prob.n() ==> #[trigger] r.colors@[v] == if picks@[v] { sol1.colors@[v] } else { sol2.colors@[v] },
    {
        let n = prob.graph.len();
        let mut colors: Vec<usize> = Vec::new();
        let mut v: usize = 0;
        while v < n
            invariant
                0 <= v <= n,
                n == prob.n(),
                sol1.consistent(*prob),
                sol2.consistent(*prob),
                picks@.len() == n,
                colors@.len() == v,
                forall|u: int| 0 <= u < v ==> #[trigger] colors@[u] == if picks@[u] { sol1.colors@[u] } else { sol2.colors@[u] },
                forall|u: int| 0 <= u < v ==> #[trigger] colors@[u] < prob.k,
            decreases n - v,
        {
            if picks[v] {
                colors.push(sol1.colors[v]);
            } else {
                colors.push(sol2.colors[v]);
            }
            v += 1;
        }
        prob.solution_from_colors(colors)
    }

    /// Uniform crossover: a fair coin picks the parent of each vertex's
    /// color, and every counter is recomputed.
    pub fn crossover(&mut self, prob: &GraphColoring, sol1: &GraphColoringSolution, sol2: &GraphColoringSolution, rng: &mut SmallRng) -> (r: GraphColoringSolution)
        requires
            sol1.consistent(*prob),
            sol2.consistent(*prob),
        ensures
            r.consistent(*prob),
            forall|v: int| 0 <= v < prob.n() ==> #[trigger] r.colors@[v] == sol1.colors@[v] || r.colors@[v] == sol2.colors@[v],
    {
        let n = prob.graph.len();
        let mut picks: Vec<bool> = Vec::new();
        let mut v: usize = 0;
        while v < n
            invariant
                0 <= v <= n,
                picks@.len() == v,
            decreases n - v,
        {
            let b = half_chance(rng);
            picks.push(b);
            v += 1;
        }
        Self::crossover_with(prob, sol1, sol2, picks.as_slice())
    }
}

impl GraphColoring {
    /// A random coloring: each vertex gets a uniformly drawn color.
    pub fn new_solution(&self, rng: &mut SmallRng) -> (r: GraphColoringSolution)
        requires
            self.fits(),
        ensures
            r.consistent(*self),
    {
        let n = self.graph.len();
        let mut colors: Vec<usize> = Vec::new();
        let mut v: usize = 0;
        while v < n
            invariant
                0 <= v <= n,
                n == self.n(),
                self.k >= 1,
                colors@.len() == v,
                forall|u: int| 0 <= u < v ==> #[trigger] colors@[u] < self.k,
            decreases n - v,
        {
            let c = below(rng, self.k);
            colors.push(c);
            v += 1;
        }
        self.solution_from_colors(colors)
    }
}

} // verus!
