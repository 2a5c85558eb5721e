//! The edge-list graph format: a header line `N M`, then one line `i j ...`
//! per edge, with 1-indexed `i` and `j`; further tokens on a line, such as
//! a weight, are not read.

use vstd::prelude::*;
use crate::graph::Graph;
use crate::text::{InstanceError, data_lines, split_data_lines, usize_token, parse_usize};

verus! {

/// A header line: at least two tokens, each a `usize`.
pub open spec fn edge_header_ok(t: Seq<Seq<u8>>) -> bool {
    t.len() >= 2 && usize_token(t[0]) is Some && usize_token(t[1]) is Some
}

/// An edge line: at least two tokens, `i >= 1` and `j >= 1` as `usize`.
pub open spec fn edge_line_ok(t: Seq<Seq<u8>>) -> bool {
    &&& t.len() >= 2
    &&& usize_token(t[0]) is Some && usize_token(t[0])->0 >= 1
    &&& usize_token(t[1]) is Some && usize_token(t[1])->0 >= 1
}

/// The 0-indexed endpoints that an edge line names.
pub open spec fn edge_of(t: Seq<Seq<u8>>) -> (usize, usize) {
    ((usize_token(t[0])->0 - 1) as usize, (usize_token(t[1])->0 - 1) as usize)
}

/// The edges named by the data lines after the header.
pub open spec fn listed_edges(dl: Seq<Seq<Seq<u8>>>) -> Seq<(usize, usize)> {
    Seq::new((dl.len() - 1) as nat, |k: int| edge_of(dl[k + 1]))
}

/// Some listed edge joins `a` and `b`; a listed self-loop joins nothing.
pub open spec fn joins(es: Seq<(usize, usize)>, a: int, b: int) -> bool {
    exists|k: int| 0 <= k < es.len() && (#[trigger] es[k]).0 != es[k].1
        && ((a == es[k].0 && b == es[k].1) || (a == es[k].1 && b == es[k].0))
}

/// The endpoints of the listed edges that are not self-loops.
pub open spec fn endpoints(es: Seq<(usize, usize)>) -> Set<usize> {
    Set::new(|x: usize| exists|k: int| 0 <= k < es.len() && (#[trigger] es[k]).0 != es[k].1 && (es[k].0 == x || es[k].1 == x))
}

/// One more than the largest vertex that a listed edge other than a
/// self-loop names, `0` for none.
pub open spec fn edges_dim(es: Seq<(usize, usize)>) -> int
    decreases es.len(),
{
    if es.len() == 0 {
        0
    } else if es.last().0 == es.last().1 {
        edges_dim(es.drop_last())
    } else {
        vstd::math::max(edges_dim(es.drop_last()), vstd::math::max(es.last().0 as int, es.last().1 as int) + 1)
    }
}

impl Graph {
    /// Reads a graph from an edge list: the first data line is the header
    /// `N M`, each further data line an edge `i j` joining `i-1` and `j-1`.
    /// The vertices are `0..N` and every endpoint of an edge; a self-loop is
    /// dropped. Blank lines and lines starting with `#` are skipped.
    pub fn parse_edge_list(text: &[u8]) -> (r: Result<Graph, InstanceError>)
        ensures
            ({
                let dl = data_lines(text@);
                match r {
                    Err(InstanceError::MissingHeader) => dl.len() == 0,
                    Err(InstanceError::BadHeader) => dl.len() > 0 && !edge_header_ok(dl[0]),
                    Err(InstanceError::BadLine(k)) => {
                        &&& dl.len() > 0 && edge_header_ok(dl[0])
                        &&& 1 <= k < dl.len() && !edge_line_ok(dl[k as int])
                        &&& forall|m: int| 1 <= m < k ==> edge_line_ok(#[trigger] dl[m])
                    },
                    Ok(g) => {
                        &&& dl.len() > 0 && edge_header_ok(dl[0])
                        &&& forall|m: int| 1 <= m < dl.len() ==> edge_line_ok(#[trigger] dl[m])
                        &&& g.wf()
                        &&& g.dim() == vstd::math::max(usize_token(dl[0][0])->0, edges_dim(listed_edges(dl)))
                        &&& forall|a: int, b: int| #[trigger] g.edge(a, b) == joins(listed_edges(dl), a, b)
                        &&& g.verts().to_set() == Set::new(|x: usize| x < usize_token(dl[0][0])->0).union(
                            endpoints(listed_edges(dl)))
                    },
                }
            }),
    {
        let lines = split_data_lines(text);
        let ghost dl = data_lines(text@);
        if lines.len() == 0 {
            return Err(InstanceError::MissingHeader);
        }
        proof {
            assert(lines@[0].deep_view() == dl[0]);
        }
        if lines[0].len() < 2 {
            return Err(InstanceError::BadHeader);
        }
        proof {
            assert(lines@[0]@[0]@ =~= dl[0][0]);
            assert(lines@[0]@[1]@ =~= dl[0][1]);
        }
        let n = match parse_usize(lines[0][0].as_slice()) {
            Some(n) => n,
            None => return Err(InstanceError::BadHeader),
        };
        if parse_usize(lines[0][1].as_slice()).is_none() {
            return Err(InstanceError::BadHeader);
        }
        let mut g = Graph::with_vertices(n);
        let ghost es = listed_edges(dl);
        let ghost base = Set::new(|x: usize| x < n);
        proof {
            assert(edges_dim(es.take(0)) == 0);
            assert(endpoints(es.take(0)) =~= Set::empty());
            assert forall|x: usize| base.contains(x) implies g.verts().to_set().contains(x) by {
                assert(g.verts()[x as int] == x);
            }
            assert(g.verts().to_set() =~= base.union(endpoints(es.take(0))));
        }
        let mut k: usize = 1;
        while k < lines.len()
            invariant
                1 <= k <= lines@.len(),
                lines.deep_view() == dl,
                dl == data_lines(text@),
                dl.len() > 0 && edge_header_ok(dl[0]),
                n == usize_token(dl[0][0])->0,
                es == listed_edges(dl),
                base == Set::new(|x: usize| x < n),
                forall|m: int| 1 <= m < k ==> edge_line_ok(#[trigger] dl[m]),
                g.wf(),
                g.dim() == vstd::math::max(n as int, edges_dim(es.take(k - 1))),
                forall|a: int, b: int| #[trigger] g.edge(a, b) == joins(es.take(k - 1), a, b),
                g.verts().to_set() == base.union(endpoints(es.take(k - 1))),
            decreases lines@.len() - k,
        {
            let t = &lines[k];
            proof {
                assert(t.deep_view() == dl[k as int]);
                assert(dl[k as int].len() == t@.len());
            }
            if t.len() < 2 {
                return Err(InstanceError::BadLine(k));
            }
            proof {
                assert(t@[0]@ =~= dl[k as int][0]);
                assert(t@[1]@ =~= dl[k as int][1]);
            }
            let i = match parse_usize(t[0].as_slice()) {
                Some(i) => i,
                None => return Err(InstanceError::BadLine(k)),
            };
            if i == 0 {
                return Err(InstanceError::BadLine(k));
            }
            let j = match parse_usize(t[1].as_slice()) {
                Some(j) => j,
                None => return Err(InstanceError::BadLine(k)),
            };
            if j == 0 {
                return Err(InstanceError::BadLine(k));
            }
            let ghost before = g;
            g.add_edge(i - 1, j - 1);
            proof {
                let p = es.take(k - 1);
                let p2 = es.take(k as int);
                assert(p2.drop_last() =~= p);
                let e = p2.last();
                assert(e == (((i - 1) as usize, (j - 1) as usize)));
                assert forall|a: int, b: int| #[trigger] g.edge(a, b) == joins(p2, a, b) by {
                    if joins(p, a, b) {
                        let w = choose|w: int| 0 <= w < p.len() && (#[trigger] p[w]).0 != p[w].1
                            && ((a == p[w].0 && b == p[w].1) || (a == p[w].1 && b == p[w].0));
                        assert(p2[w] == p[w]);
                    }
                    if joins(p2, a, b) && !joins(p, a, b) {
                        let w = choose|w: int| 0 <= w < p2.len() && (#[trigger] p2[w]).0 != p2[w].1
                            && ((a == p2[w].0 && b == p2[w].1) || (a == p2[w].1 && b == p2[w].0));
                        if w < p.len() {
                            assert(p[w] == p2[w]);
                        }
                    }
                    if i - 1 != j - 1 && ((a == i - 1 && b == j - 1) || (a == j - 1 && b == i - 1)) {
                        assert(p2[p.len() as int] == e);
                    }
                }
                lemma_endpoints_push(p, p2);
                if i - 1 != j - 1 {
                    assert(g.verts().to_set() =~= base.union(endpoints(p2)));
                } else {
                    assert(endpoints(p2) =~= endpoints(p));
                }
            }
            k += 1;
        }
        proof {
            assert(es.take(k - 1) =~= es);
        }
        Ok(g)
    }
}

/// Appending an edge adds its endpoints unless it is a self-loop.
proof fn lemma_endpoints_push(p: Seq<(usize, usize)>, p2: Seq<(usize, usize)>)
    requires
        p2.len() == p.len() + 1,
        p2.drop_last() == p,
    ensures
        p2.last().0 != p2.last().1 ==> endpoints(p2) == endpoints(p).insert(p2.last().0).insert(p2.last().1),
        p2.last().0 == p2.last().1 ==> endpoints(p2) == endpoints(p),
{
    let e = p2.last();
    assert forall|x: usize| endpoints(p2).contains(x) implies
        endpoints(p).contains(x) || (e.0 != e.1 && (x == e.0 || x == e.1)) by {
        let m = choose|m: int| 0 <= m < p2.len() && (#[trigger] p2[m]).0 != p2[m].1 && (p2[m].0 == x || p2[m].1 == x);
        if m < p.len() {
            assert(p[m] == p2[m]);
        }
    }
    assert forall|x: usize| endpoints(p).contains(x) implies endpoints(p2).contains(x) by {
        let m = choose|m: int| 0 <= m < p.len() && (#[trigger] p[m]).0 != p[m].1 && (p[m].0 == x || p[m].1 == x);
        assert(p2[m] == p[m]);
    }
    if e.0 != e.1 {
        assert(p2[p.len() as int] == e);
        assert(endpoints(p2) =~= endpoints(p).insert(e.0).insert(e.1));
    } else {
        assert(endpoints(p2) =~= endpoints(p));
    }
}

} // verus!
