//! Undirected simple graphs as symmetric adjacency lists, with the sorted
//! list of vertices that have appeared in an edge.

use vstd::prelude::*;
use crate::sums::{
    sum_to, sum_over, occurs, all_distinct, lemma_sum_over_distinct, lemma_sum_to_point,
};
use crate::sorted::{strictly_sorted, insert_unique_sorted};

verus! {

/// An undirected graph without self-loops or repeated edges.
///
/// `adj[i]` lists the neighbours of `i`, and `vertices` lists, increasing,
/// every vertex that has appeared in an edge.
#[derive(Debug, Clone)]
pub struct Graph {
    adj: Vec<Vec<usize>>,
    vertices: Vec<usize>,
}

impl Graph {
    /// One more than the largest vertex ever named.
    pub closed spec fn dim(self) -> nat {
        self.adj@.len()
    }

    /// `i` and `j` are joined by an edge.
    pub closed spec fn edge(self, i: int, j: int) -> bool {
        0 <= i < self.adj@.len() && occurs(self.adj@[i]@, j)
    }

    /// The neighbours of `i`, in storage order.
    pub closed spec fn nbrs(self, i: int) -> Seq<usize> {
        self.adj@[i]@
    }

    /// The vertices, increasing.
    pub closed spec fn verts(self) -> Seq<usize> {
        self.vertices@
    }

    /// `1` if `i` and `j` are joined, else `0`.
    pub open spec fn edge_term(self, i: int, j: int) -> int {
        if self.edge(i, j) { 1 } else { 0 }
    }

    /// The number of neighbours of `i`.
    pub open spec fn deg(self, i: int) -> int {
        sum_to(|j: int| self.edge_term(i, j), self.dim() as int)
    }

    /// `1` if `i < j` and they are joined, else `0`.
    pub open spec fn upper_term(self, i: int, j: int) -> int {
        if i < j && self.edge(i, j) { 1 } else { 0 }
    }

    /// The number of edges joining `i` to a larger vertex.
    pub open spec fn upper_deg(self, i: int) -> int {
        sum_to(|j: int| self.upper_term(i, j), self.dim() as int)
    }

    /// The number of edges.
    pub open spec fn edge_count(self) -> int {
        sum_to(|i: int| self.upper_deg(i), self.dim() as int)
    }

    /// The representation invariant.
    pub closed spec fn wf(self) -> bool {
        &&& forall|i: int| 0 <= i < self.adj@.len() ==> all_distinct(#[trigger] self.adj@[i]@)
        &&& forall|i: int, k: int| 0 <= i < self.adj@.len() && 0 <= k < self.adj@[i]@.len() ==>
            #[trigger] self.adj@[i]@[k] < self.adj@.len() && self.adj@[i]@[k] != i
        &&& forall|i: int, j: int| #[trigger] self.edge(i, j) == self.edge(j, i)
        &&& strictly_sorted(self.vertices@)
        &&& forall|k: int| 0 <= k < self.vertices@.len() ==> #[trigger] self.vertices@[k] < self.adj@.len()
        &&& forall|i: int| 0 <= i < self.adj@.len() && #[trigger] self.adj@[i]@.len() > 0 ==> self.vertices@.contains(i as usize)
    }

    /// What the invariant tells a user of the model.
    pub proof fn lemma_wf(self)
        requires
            self.wf(),
        ensures
            forall|i: int, j: int| #[trigger] self.edge(i, j) == self.edge(j, i),
            forall|i: int, j: int| #[trigger] self.edge(i, j) ==> 0 <= i < self.dim() && 0 <= j < self.dim() && i != j,
            forall|i: int, j: int| #[trigger] self.edge(i, j) ==> self.verts().contains(i as usize),
            forall|i: int| 0 <= i < self.dim() ==> all_distinct(#[trigger] self.nbrs(i)),
            forall|i: int, k: int| 0 <= i < self.dim() && 0 <= k < self.nbrs(i).len() ==> #[trigger] self.nbrs(i)[k] < self.dim(),
            forall|i: int, j: int| 0 <= i < self.dim() ==> (#[trigger] self.edge(i, j) == occurs(self.nbrs(i), j)),
            strictly_sorted(self.verts()),
            forall|k: int| 0 <= k < self.verts().len() ==> #[trigger] self.verts()[k] < self.dim(),
            self.dim() <= usize::MAX,
    {
        assert(self.adj.len() == self.adj@.len());
        assert forall|i: int, j: int| #[trigger] self.edge(i, j) implies 0 <= i < self.dim() && 0 <= j < self.dim() && i != j
            && self.verts().contains(i as usize) by {
            let k = choose|k: int| 0 <= k < self.adj@[i]@.len() && self.adj@[i]@[k] as int == j;
            assert(self.adj@[i]@[k] < self.adj@.len());
        }
    }

    /// The degree of a vertex is the length of its neighbour list.
    pub proof fn lemma_deg_len(self, i: int)
        requires
            self.wf(),
            0 <= i < self.dim(),
        ensures
            self.deg(i) == self.nbrs(i).len(),
    {
        self.lemma_wf();
        let row = self.nbrs(i);
        let f = |j: int| self.edge_term(i, j);
        lemma_sum_over_distinct(row, f, self.dim() as int);
        lemma_sum_over_ones(row, f);
    }

    /// A vertex has fewer neighbours than there are vertex slots.
    pub proof fn lemma_deg_lt(self, i: int)
        requires
            self.wf(),
            0 <= i < self.dim(),
        ensures
            0 <= self.deg(i) < self.dim(),
    {
        self.lemma_wf();
        let n = self.dim() as int;
        let g = |j: int| if j == i { 0int } else { 1int };
        let one = |j: int| 1int;
        assert forall|j: int| 0 <= j < n implies #[trigger] self.edge_term(i, j) <= g(j) by {}
        crate::sums::lemma_sum_to_le(|j: int| self.edge_term(i, j), g, n);
        crate::sums::lemma_sum_to_nonneg_mono(|j: int| self.edge_term(i, j), 0, n);
        lemma_sum_to_point(one, g, i, n);
        crate::sums::lemma_sum_ones(n);
    }

    /// Creates an empty graph.
    pub fn new() -> (g: Graph)
        ensures
            g.wf(),
            g.dim() == 0,
            g.verts().len() == 0,
            forall|i: int, j: int| !#[trigger] g.edge(i, j),
    {
        Graph { adj: Vec::new(), vertices: Vec::new() }
    }

    /// Creates a graph over the vertices `0..n` with no edges.
    pub fn with_vertices(n: usize) -> (g: Graph)
        ensures
            g.wf(),
            g.dim() == n,
            g.verts() == Seq::new(n as nat, |k: int| k as usize),
            forall|i: int, j: int| !#[trigger] g.edge(i, j),
    {
        let mut adj: Vec<Vec<usize>> = Vec::new();
        let mut vertices: Vec<usize> = Vec::new();
        let mut k: usize = 0;
        while k < n
            invariant
                k <= n,
                adj@.len() == k,
                forall|i: int| 0 <= i < k ==> (#[trigger] adj@[i])@.len() == 0,
                vertices@ == Seq::new(k as nat, |m: int| m as usize),
            decreases n - k,
        {
            adj.push(Vec::new());
            vertices.push(k);
            k += 1;
            proof {
                assert(vertices@ =~= Seq::new(k as nat, |m: int| m as usize));
            }
        }
        let g = Graph { adj, vertices };
        proof {
            assert forall|i: int, j: int| !#[trigger] g.edge(i, j) by {
                if 0 <= i < g.adj@.len() {
                    assert(g.adj@[i]@.len() == 0);
                }
            }
            assert forall|i: int| 0 <= i < g.adj@.len() implies all_distinct(#[trigger] g.adj@[i]@) by {
                assert(g.adj@[i]@.len() == 0);
            }
        }
        g
    }

    /// One more than the largest vertex ever named.
    pub fn len(&self) -> (r: usize)
        ensures
            r == self.dim(),
    {
        self.adj.len()
    }

    /// The number of vertices that have appeared in an edge.
    pub fn num_vertices(&self) -> (r: usize)
        ensures
            r == self.verts().len(),
    {
        self.vertices.len()
    }

    /// The vertices, increasing.
    pub fn iter_on_vertices(&self) -> (r: &[usize])
        ensures
            r@ == self.verts(),
    {
        self.vertices.as_slice()
    }

    /// The neighbours of `i`, empty when `i` is beyond the dimension.
    pub fn iter_on_adjacency(&self, i: usize) -> (r: &[usize])
        ensures
            i < self.dim() ==> r@ == self.nbrs(i as int),
            i >= self.dim() ==> r@.len() == 0,
    {
        if i < self.adj.len() {
            self.adj[i].as_slice()
        } else {
            &[]
        }
    }

    /// Whether `i` and `j` are joined by an edge.
    pub fn has_edge(&self, i: usize, j: usize) -> (r: bool)
        requires
            self.wf(),
        ensures
            r == self.edge(i as int, j as int),
    {
        if i < self.adj.len() {
            row_contains(self.adj[i].as_slice(), j)
        } else {
            false
        }
    }

    /// The number of neighbours of `i`.
    pub fn degree(&self, i: usize) -> (r: usize)
        requires
            self.wf(),
        ensures
            r == self.deg(i as int),
    {
        proof {
            self.lemma_wf();
            if i < self.dim() {
                let row = self.nbrs(i as int);
                let f = |j: int| self.edge_term(i as int, j);
                lemma_sum_over_distinct(row, f, self.dim() as int);
                lemma_sum_over_ones(row, f);
            } else {
                assert forall|j: int| 0 <= j < self.dim() implies #[trigger] self.edge_term(i as int, j) == 0 by {}
                crate::sums::lemma_sum_to_zero(|j: int| self.edge_term(i as int, j), self.dim() as int);
            }
        }
        if i < self.adj.len() {
            self.adj[i].len()
        } else {
            0
        }
    }

    /// The number of edges.
    pub fn num_edges(&self) -> (r: usize)
        requires
            self.wf(),
            self.edge_count() <= usize::MAX,
        ensures
            r == self.edge_count(),
    {
        proof {
            self.lemma_wf();
        }
        let n = self.adj.len();
        let mut total: usize = 0;
        let mut i: usize = 0;
        while i < n
            invariant
                0 <= i <= n,
                n == self.dim(),
                self.wf(),
                self.edge_count() <= usize::MAX,
                total == sum_to(|a: int| self.upper_deg(a), i as int),
            decreases n - i,
        {
            let row = self.adj[i].as_slice();
            let mut c: usize = 0;
            let mut k: usize = 0;
            proof {
                self.lemma_wf();
                assert forall|a: int| 0 <= a < n implies #[trigger] self.upper_deg(a) >= 0 by {
                    crate::sums::lemma_sum_to_nonneg_mono(|j: int| self.upper_term(a, j), 0, n as int);
                }
                crate::sums::lemma_sum_to_nonneg_mono(|a: int| self.upper_deg(a), i as int + 1, n as int);
            }
            while k < row.len()
                invariant
                    0 <= k <= row@.len(),
                    row@ == self.nbrs(i as int),
                    i < n,
                    n == self.dim(),
                    c <= k,
                    c == sum_over(row@.take(k as int), |j: int| self.upper_term(i as int, j)),
                    forall|kk: int| 0 <= kk < row@.len() ==> #[trigger] self.edge(i as int, row@[kk] as int),
                decreases row@.len() - k,
            {
                proof {
                    assert(row@.take(k as int + 1).drop_last() =~= row@.take(k as int));
                    assert(self.edge(i as int, row@[k as int] as int));
                }
                if row[k] > i {
                    c += 1;
                }
                k += 1;
            }
            proof {
                assert(row@.take(row@.len() as int) =~= row@);
                lemma_sum_over_distinct(row@, |j: int| self.upper_term(i as int, j), n as int);
                assert(total + c == sum_to(|a: int| self.upper_deg(a), i as int + 1));
            }
            total = total + c;
            i += 1;
        }
        total
    }

    /// Appends empty rows until the dimension reaches `n`.
    fn ensure_capacity(&mut self, n: usize)
        requires
            old(self).wf(),
        ensures
            final(self).wf(),
            final(self).dim() == if old(self).dim() < n { n as nat } else { old(self).dim() },
            final(self).verts() == old(self).verts(),
            forall|i: int| 0 <= i < old(self).dim() ==> #[trigger] final(self).adj@[i] == old(self).adj@[i],
            forall|i: int| old(self).dim() <= i < final(self).dim() ==> (#[trigger] final(self).adj@[i])@.len() == 0,
            forall|i: int, j: int| #[trigger] final(self).edge(i, j) == old(self).edge(i, j),
    {
        while self.adj.len() < n
            invariant
                self.wf(),
                self.verts() == old(self).verts(),
                self.dim() >= old(self).dim(),
                self.dim() <= if old(self).dim() < n { n as nat } else { old(self).dim() },
                forall|i: int| 0 <= i < old(self).dim() ==> #[trigger] self.adj@[i] == old(self).adj@[i],
                forall|i: int| old(self).dim() <= i < self.dim() ==> (#[trigger] self.adj@[i])@.len() == 0,
                forall|i: int, j: int| #[trigger] self.edge(i, j) == old(self).edge(i, j),
            decreases n - self.adj@.len(),
        {
            let ghost prev = *self;
            self.adj.push(Vec::new());
            proof {
                assert forall|i: int, j: int| #[trigger] self.edge(i, j) == prev.edge(i, j) by {
                    if 0 <= i < prev.adj@.len() {
                        assert(self.adj@[i] == prev.adj@[i]);
                    }
                    if i == prev.adj@.len() {
                        assert(self.adj@[i]@.len() == 0);
                    }
                }
                assert forall|i: int| 0 <= i < self.adj@.len() implies all_distinct(#[trigger] self.adj@[i]@) by {
                    if i < prev.adj@.len() {
                        assert(self.adj@[i] == prev.adj@[i]);
                    }
                }
                assert forall|i: int, k: int| 0 <= i < self.adj@.len() && 0 <= k < self.adj@[i]@.len() implies
                    #[trigger] self.adj@[i]@[k] < self.adj@.len() && self.adj@[i]@[k] != i by {
                    assert(i < prev.adj@.len());
                    assert(self.adj@[i] == prev.adj@[i]);
                }
                assert forall|i: int| 0 <= i < self.adj@.len() && #[trigger] self.adj@[i]@.len() > 0 implies
                    self.vertices@.contains(i as usize) by {
                    assert(i < prev.adj@.len());
                    assert(self.adj@[i] == prev.adj@[i]);
                }
            }
        }
    }

    /// Adds the undirected edge `(i, j)`; an edge already present, or a
    /// self-loop `i == i`, is left alone.
    pub fn add_edge(&mut self, i: usize, j: usize)
        requires
            old(self).wf(),
            i < usize::MAX,
            j < usize::MAX,
        ensures
            final(self).wf(),
            i == j ==> *final(self) == *old(self),
            i != j ==> final(self).dim() == vstd::math::max(old(self).dim() as int, vstd::math::max(i as int, j as int) + 1),
            i != j ==> final(self).verts().to_set() == old(self).verts().to_set().insert(i).insert(j),
            forall|a: int, b: int| #[trigger] final(self).edge(a, b) == (
                old(self).edge(a, b) || (i != j && ((a == i && b == j) || (a == j && b == i)))),
    {
        if i == j {
            return;
        }
        let m = if i > j { i } else { j };
        self.ensure_capacity(m + 1);
        let ghost mid = *self;
        proof {
            mid.lemma_wf();
        }
        let present = row_contains(self.adj[i].as_slice(), j);
        if !present {
            proof {
                assert(!mid.edge(j as int, i as int));
                assert(!occurs(mid.adj@[j as int]@, i as int));
            }
            self.adj[i].push(j);
            self.adj[j].push(i);
        }
        let ghost pre = *self;
        insert_unique_sorted(&mut self.vertices, i);
        insert_unique_sorted(&mut self.vertices, j);
        proof {
            self.lemma_add_edge_wf(mid, pre, i, j, present);
        }
    }

    proof fn lemma_add_edge_wf(self, mid: Graph, pre: Graph, i: usize, j: usize, present: bool)
        requires
            mid.wf(),
            i != j,
            i < mid.dim(),
            j < mid.dim(),
            present == mid.edge(i as int, j as int),
            present ==> pre.adj == mid.adj,
            !present ==> pre.adj@.len() == mid.adj@.len(),
            !present ==> pre.adj@[i as int]@ == mid.adj@[i as int]@.push(j),
            !present ==> pre.adj@[j as int]@ == mid.adj@[j as int]@.push(i),
            !present ==> forall|a: int| 0 <= a < mid.adj@.len() && a != i && a != j ==> #[trigger] pre.adj@[a] == mid.adj@[a],
            !present ==> !occurs(mid.adj@[j as int]@, i as int),
            self.adj == pre.adj,
            strictly_sorted(self.vertices@),
            self.vertices@.to_set() == mid.vertices@.to_set().insert(i).insert(j),
        ensures
            self.wf(),
            forall|a: int, b: int| #[trigger] self.edge(a, b) == (mid.edge(a, b) || (a == i && b == j) || (a == j && b == i)),
    {
        mid.lemma_wf();
        assert forall|a: int, b: int| #[trigger] self.edge(a, b) == (mid.edge(a, b) || (a == i && b == j) || (a == j && b == i)) by {
            if !present && 0 <= a < mid.adj@.len() {
                if a == i as int {
                    crate::sums::lemma_occurs_push(mid.adj@[a]@, j, b);
                } else if a == j as int {
                    crate::sums::lemma_occurs_push(mid.adj@[a]@, i, b);
                } else {
                    assert(pre.adj@[a] == mid.adj@[a]);
                }
            }
        }
        assert forall|a: int| 0 <= a < self.adj@.len() implies all_distinct(#[trigger] self.adj@[a]@) by {
            if !present {
                if a == i as int {
                    assert(!occurs(mid.adj@[a]@, j as int));
                    crate::sums::lemma_distinct_push(mid.adj@[a]@, j);
                } else if a == j as int {
                    crate::sums::lemma_distinct_push(mid.adj@[a]@, i);
                } else {
                    assert(pre.adj@[a] == mid.adj@[a]);
                }
            }
        }
        assert forall|a: int, k: int| 0 <= a < self.adj@.len() && 0 <= k < self.adj@[a]@.len() implies
            #[trigger] self.adj@[a]@[k] < self.adj@.len() && self.adj@[a]@[k] != a by {
            if !present {
                if a == i as int {
                    if k < mid.adj@[a]@.len() {
                        assert(self.adj@[a]@[k] == mid.adj@[a]@[k]);
                    }
                } else if a == j as int {
                    if k < mid.adj@[a]@.len() {
                        assert(self.adj@[a]@[k] == mid.adj@[a]@[k]);
                    }
                } else {
                    assert(pre.adj@[a] == mid.adj@[a]);
                }
            }
        }
        assert forall|k: int| 0 <= k < self.vertices@.len() implies #[trigger] self.vertices@[k] < self.adj@.len() by {
            let x = self.vertices@[k];
            assert(self.vertices@.to_set().contains(x));
            if x != i && x != j {
                assert(mid.vertices@.to_set().contains(x));
                let kk = choose|kk: int| 0 <= kk < mid.vertices@.len() && mid.vertices@[kk] == x;
                assert(mid.vertices@[kk] < mid.adj@.len());
            }
        }
        assert forall|a: int| 0 <= a < self.adj@.len() && #[trigger] self.adj@[a]@.len() > 0 implies self.vertices@.contains(a as usize) by {
            if a == i as int {
                assert(self.vertices@.to_set().contains(i));
            } else if a == j as int {
                assert(self.vertices@.to_set().contains(j));
            } else {
                if !present {
                    assert(pre.adj@[a] == mid.adj@[a]);
                }
                assert(mid.vertices@.contains(a as usize));
                assert(mid.vertices@.to_set().contains(a as usize));
                assert(self.vertices@.to_set().contains(a as usize));
            }
        }
    }
}

/// Whether `x` occurs in `row`.
fn row_contains(row: &[usize], x: usize) -> (r: bool)
    ensures
        r == occurs(row@, x as int),
{
    let mut k: usize = 0;
    while k < row.len()
        invariant
            0 <= k <= row@.len(),
            forall|kk: int| 0 <= kk < k ==> #[trigger] row@[kk] != x,
        decreases row@.len() - k,
    {
        if row[k] == x {
            return true;
        }
        k += 1;
    }
    false
}

/// Summing a function that is `1` on every element of a list of distinct
/// values gives the length of the list.
proof fn lemma_sum_over_ones(s: Seq<usize>, f: spec_fn(int) -> int)
    requires
        forall|k: int| 0 <= k < s.len() ==> #[trigger] f(s[k] as int) == 1,
    ensures
        sum_over(s, f) == s.len(),
    decreases s.len(),
{
    if s.len() > 0 {
        let t = s.drop_last();
        assert forall|k: int| 0 <= k < t.len() implies #[trigger] f(t[k] as int) == 1 by {
            assert(t[k] == s[k]);
        }
        lemma_sum_over_ones(t, f);
    }
}

} // verus!
