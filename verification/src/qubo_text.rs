//! The QUBO instance format: a header line `N M`, then one line `i j v`
//! per entry, with 1-indexed `i` and `j`.

use vstd::prelude::*;
use crate::qubo::{Qubo, entries_value, entries_indices, entries_dim};
use crate::text::{
    InstanceError, data_lines, split_data_lines, usize_token, i32_token, parse_usize, parse_i32,
};

verus! {

/// A header line: at least two tokens, each a `usize`.
pub open spec fn qubo_header_ok(t: Seq<Seq<u8>>) -> bool {
    t.len() >= 2 && usize_token(t[0]) is Some && usize_token(t[1]) is Some
}

/// An entry line: at least three tokens, `i >= 1` and `j >= 1` as `usize`,
/// `v` as `i32`.
pub open spec fn qubo_entry_ok(t: Seq<Seq<u8>>) -> bool {
    &&& t.len() >= 3
    &&& usize_token(t[0]) is Some && usize_token(t[0])->0 >= 1
    &&& usize_token(t[1]) is Some && usize_token(t[1])->0 >= 1
    &&& i32_token(t[2]) is Some
}

/// The 0-indexed entry that an entry line names.
pub open spec fn qubo_entry_of(t: Seq<Seq<u8>>) -> (usize, usize, i32) {
    ((usize_token(t[0])->0 - 1) as usize, (usize_token(t[1])->0 - 1) as usize, i32_token(t[2])->0 as i32)
}

/// The entries named by the data lines after the header.
pub open spec fn qubo_entries(dl: Seq<Seq<Seq<u8>>>) -> Seq<(usize, usize, i32)> {
    Seq::new((dl.len() - 1) as nat, |k: int| qubo_entry_of(dl[k + 1]))
}

impl Qubo {
    /// Reads a QUBO instance from its text: the first data line is the
    /// header `N M`, each further data line an entry `i j v` that sets
    /// `Q[i-1][j-1] = Q[j-1][i-1] = v`, the last write winning. The
    /// variables are `0..N` and every index an entry names. Blank lines and
    /// lines starting with `#` are skipped; tokens after the ones read are
    /// ignored.
    pub fn parse_text(text: &[u8]) -> (r: Result<Qubo, InstanceError>)
        ensures
            ({
                let dl = data_lines(text@);
                match r {
                    Err(InstanceError::MissingHeader) => dl.len() == 0,
                    Err(InstanceError::BadHeader) => dl.len() > 0 && !qubo_header_ok(dl[0]),
                    Err(InstanceError::BadLine(k)) => {
                        &&& dl.len() > 0 && qubo_header_ok(dl[0])
                        &&& 1 <= k < dl.len() && !qubo_entry_ok(dl[k as int])
                        &&& forall|m: int| 1 <= m < k ==> qubo_entry_ok(#[trigger] dl[m])
                    },
                    Ok(q) => {
                        &&& dl.len() > 0 && qubo_header_ok(dl[0])
                        &&& forall|m: int| 1 <= m < dl.len() ==> qubo_entry_ok(#[trigger] dl[m])
                        &&& q.wf()
                        &&& q.dim() == vstd::math::max(usize_token(dl[0][0])->0, entries_dim(qubo_entries(dl)))
                        &&& forall|a: int, b: int| #[trigger] q.entry(a, b) == entries_value(qubo_entries(dl), a, b)
                        &&& q.vars().to_set() == Set::new(|x: usize| x < usize_token(dl[0][0])->0).union(
                            entries_indices(qubo_entries(dl)))
                    },
                }
            }),
    {
        let lines = split_data_lines(text);
        let ghost dl = data_lines(text@);
        if lines.len() == 0 {
            return Err(InstanceError::MissingHeader);
        }
        proof {
            assert(lines@[0].deep_view() == dl[0]);
        }
        if lines[0].len() < 2 {
            return Err(InstanceError::BadHeader);
        }
        proof {
            assert(lines@[0]@[0]@ =~= dl[0][0]);
            assert(lines@[0]@[1]@ =~= dl[0][1]);
        }
        let n = match parse_usize(lines[0][0].as_slice()) {
            Some(n) => n,
            None => return Err(InstanceError::BadHeader),
        };
        if parse_usize(lines[0][1].as_slice()).is_none() {
            return Err(InstanceError::BadHeader);
        }
        let mut q = Qubo::with_variables(n);
        let ghost es = qubo_entries(dl);
        let ghost base = Set::new(|x: usize| x < n);
        proof {
            assert(entries_dim(es.take(0)) == 0);
            assert(entries_indices(es.take(0)) =~= Set::empty());
            assert forall|x: usize| base.contains(x) implies q.vars().to_set().contains(x) by {
                assert(q.vars()[x as int] == x);
            }
            assert(q.vars().to_set() =~= base.union(entries_indices(es.take(0))));
        }
        let mut k: usize = 1;
        while k < lines.len()
            invariant
                1 <= k <= lines@.len(),
                lines.deep_view() == dl,
                dl == data_lines(text@),
                dl.len() > 0 && qubo_header_ok(dl[0]),
                n == usize_token(dl[0][0])->0,
                es == qubo_entries(dl),
                base == Set::new(|x: usize| x < n),
                forall|m: int| 1 <= m < k ==> qubo_entry_ok(#[trigger] dl[m]),
                q.wf(),
                q.dim() == vstd::math::max(n as int, entries_dim(es.take(k - 1))),
                forall|a: int, b: int| #[trigger] q.entry(a, b) == entries_value(es.take(k - 1), a, b),
                q.vars().to_set() == base.union(entries_indices(es.take(k - 1))),
            decreases lines@.len() - k,
        {
            let t = &lines[k];
            proof {
                assert(t.deep_view() == dl[k as int]);
            }
            proof {
                assert(dl[k as int].len() == t@.len());
            }
            if t.len() < 3 {
                return Err(InstanceError::BadLine(k));
            }
            proof {
                assert(t@[0]@ =~= dl[k as int][0]);
                assert(t@[1]@ =~= dl[k as int][1]);
                assert(t@[2]@ =~= dl[k as int][2]);
            }
            let i = match parse_usize(t[0].as_slice()) {
                Some(i) => i,
                None => return Err(InstanceError::BadLine(k)),
            };
            if i == 0 {
                return Err(InstanceError::BadLine(k));
            }
            let j = match parse_usize(t[1].as_slice()) {
                Some(j) => j,
                None => return Err(InstanceError::BadLine(k)),
            };
            if j == 0 {
                return Err(InstanceError::BadLine(k));
            }
            let v = match parse_i32(t[2].as_slice()) {
                Some(v) => v,
                None => return Err(InstanceError::BadLine(k)),
            };
            let ghost before = q;
            q.set_q(i - 1, j - 1, v);
            proof {
                let p = es.take(k - 1);
                let p2 = es.take(k as int);
                assert(p2.drop_last() =~= p);
                assert(p2.last() == (((i - 1) as usize, (j - 1) as usize, v)));
                lemma_indices_push(p, p2);
                assert(q.vars().to_set() =~= base.union(entries_indices(p2)));
            }
            k += 1;
        }
        proof {
            assert(es.take(k - 1) =~= es);
        }
        Ok(q)
    }
}

/// Appending an entry adds its two indices.
proof fn lemma_indices_push(p: Seq<(usize, usize, i32)>, p2: Seq<(usize, usize, i32)>)
    requires
        p2.len() == p.len() + 1,
        p2.drop_last() == p,
    ensures
        entries_indices(p2) == entries_indices(p).insert(p2.last().0).insert(p2.last().1),
{
    let e = p2.last();
    assert forall|x: usize| entries_indices(p2).contains(x) implies entries_indices(p).insert(e.0).insert(e.1).contains(x) by {
        let m = choose|m: int| 0 <= m < p2.len() && ((#[trigger] p2[m]).0 == x || p2[m].1 == x);
        if m < p.len() {
            assert(p[m] == p2[m]);
        }
    }
    assert forall|x: usize| entries_indices(p).insert(e.0).insert(e.1).contains(x) implies entries_indices(p2).contains(x) by {
        if x == e.0 || x == e.1 {
            assert(p2[p.len() as int] == e);
        } else {
            let m = choose|m: int| 0 <= m < p.len() && ((#[trigger] p[m]).0 == x || p[m].1 == x);
            assert(p2[m] == p[m]);
        }
    }
    assert(entries_indices(p2) =~= entries_indices(p).insert(e.0).insert(e.1));
}

} // verus!
