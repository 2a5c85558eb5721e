//! The DIMACS CNF format for MaxSAT instances: comment lines starting with
//! `c` or `%`, a header `p cnf <n_vars> <n_clauses>`, and one clause per
//! line as literals ended by `0`.

use vstd::prelude::*;
use crate::sat::Sat;
use crate::text::{
    lines, normalized, text_token_lines, split_token_lines, usize_token, i64_token, parse_usize,
    parse_i64,
};

verus! {

/// Why a DIMACS text was refused. Line indices count from `0`.
#[derive(Debug, Clone, Copy, PartialEq, Eq, Structural)]
pub enum DimacsError {
    /// A `p` line lacks `n_vars` or `n_clauses`, or one is not a `usize`.
    BadHeader(usize),
    /// A clause line comes before any `p` line.
    ClauseBeforeHeader(usize),
    /// A token of a clause line is not an `i64`.
    BadLiteral(usize),
    /// A literal of a clause names a variable above `n_vars`.
    LiteralOutOfRange(usize),
    /// The text has no `p` line.
    MissingHeader,
    /// The number of clauses read differs from the one the header declares.
    ClauseCountMismatch { declared: usize, found: usize },
}

/// The literals before the first `0`.
pub open spec fn zero_prefix(s: Seq<i64>) -> Seq<i64>
    decreases s.len(),
{
    if s.len() == 0 || s[0] == 0 {
        Seq::empty()
    } else {
        seq![s[0]] + zero_prefix(s.drop_first())
    }
}

/// The absolute value of a literal.
pub open spec fn lit_abs(l: i64) -> int {
    if l < 0 { -l } else { l as int }
}

/// The reading so far: the header's `(n_vars, n_clauses)` once seen, and
/// the clauses read since the last header.
pub type DimacsState = (Option<(int, int)>, Seq<Seq<i64>>);

/// The literals of a clause line whose tokens all read as `i64`.
pub open spec fn line_literals(t: Seq<Seq<u8>>) -> Seq<i64> {
    Seq::new(t.len(), |k: int| i64_token(t[k])->0 as i64)
}

/// The effect of the line with tokens `t` and index `idx`.
pub open spec fn dimacs_line(st: DimacsState, t: Seq<Seq<u8>>, idx: int) -> Result<DimacsState, DimacsError> {
    if t.len() == 0 || t[0][0] == 99 || t[0][0] == 37 {
        Ok(st)
    } else if t[0][0] == 112 {
        if t.len() >= 4 && usize_token(t[2]) is Some && usize_token(t[3]) is Some {
            Ok((Some((usize_token(t[2])->0, usize_token(t[3])->0)), Seq::empty()))
        } else {
            Err(DimacsError::BadHeader(idx as usize))
        }
    } else if st.0 is None {
        Err(DimacsError::ClauseBeforeHeader(idx as usize))
    } else if exists|k: int| 0 <= k < t.len() && #[trigger] i64_token(t[k]) is None {
        Err(DimacsError::BadLiteral(idx as usize))
    } else {
        let clause = zero_prefix(line_literals(t));
        if exists|k: int| 0 <= k < clause.len() && lit_abs(#[trigger] clause[k]) > (st.0->0).0 {
            Err(DimacsError::LiteralOutOfRange(idx as usize))
        } else if clause.len() == 0 {
            Ok(st)
        } else {
            Ok((st.0, st.1.push(clause)))
        }
    }
}

/// The reading of the token lines `tl`, line by line.
pub open spec fn dimacs_fold(tl: Seq<Seq<Seq<u8>>>) -> Result<DimacsState, DimacsError>
    decreases tl.len(),
{
    if tl.len() == 0 {
        Ok((None, Seq::empty()))
    } else {
        match dimacs_fold(tl.drop_last()) {
            Err(e) => Err(e),
            Ok(st) => dimacs_line(st, tl.last(), tl.len() - 1),
        }
    }
}

/// What a DIMACS text describes: `(n_vars, clauses)`, or why it is refused.
pub open spec fn dimacs_result(text: Seq<u8>) -> Result<(int, Seq<Seq<i64>>), DimacsError> {
    match dimacs_fold(text_token_lines(text)) {
        Err(e) => Err(e),
        Ok(st) => match st.0 {
            None => Err(DimacsError::MissingHeader),
            Some(h) => if st.1.len() != h.1 {
                Err(DimacsError::ClauseCountMismatch { declared: h.1 as usize, found: st.1.len() as usize })
            } else {
                Ok((h.0, st.1))
            },
        },
    }
}

impl Sat {
    /// Reads a MaxSAT instance from DIMACS CNF text. A later `p` line starts
    /// the instance over; empty clauses are dropped.
    pub fn parse_dimacs(text: &[u8]) -> (r: Result<Sat, DimacsError>)
        ensures
            r matches Ok(s) ==> s.wf() && dimacs_result(text@) == Ok::<(int, Seq<Seq<i64>>), DimacsError>((s.nv() as int, s.cls())),
            r matches Err(e) ==> dimacs_result(text@) == Err::<(int, Seq<Seq<i64>>), DimacsError>(e),
    {
        let tl = split_token_lines(text);
        let ghost tv = text_token_lines(text@);
        let mut sat: Option<Sat> = None;
        let mut declared: usize = 0;
        let mut l: usize = 0;
        while l < tl.len()
            invariant
                l <= tl@.len(),
                tl.deep_view() == tv,
                tv == text_token_lines(text@),
                dimacs_fold(tv.take(l as int)) matches Ok(st) && (match sat {
                    None => st.0 is None && st.1.len() == 0,
                    Some(s) => s.wf() && st.0 == Some((s.nv() as int, declared as int)) && st.1 == s.cls()
                        && s.cls().len() <= l,
                }),
            decreases tl@.len() - l,
        {
            let t = &tl[l];
            let ghost st = dimacs_fold(tv.take(l as int))->Ok_0;
            proof {
                assert(tv.take(l as int + 1).drop_last() =~= tv.take(l as int));
                assert(t.deep_view() == tv[l as int]);
                assert(dimacs_fold(tv.take(l as int + 1)) == dimacs_line(st, tv[l as int], l as int));
            }
            if t.len() == 0 || t[0].len() == 0 {
                proof {
                    if t@.len() > 0 {
                        crate::text::lemma_token_nonempty(lines(normalized(text@))[l as int]);
                        assert(false);
                    }
                }
                l += 1;
                continue;
            }
            proof {
                assert(t@[0]@ =~= tv[l as int][0]);
            }
            let first = t[0][0];
            if first == 99 || first == 37 {
                l += 1;
                continue;
            }
            if first == 112 {
                if t.len() < 4 {
                    { proof { lemma_fold_err(tv, l as int + 1); } return Err(DimacsError::BadHeader(l)); }
                }
                proof {
                    assert(t@[2]@ =~= tv[l as int][2]);
                    assert(t@[3]@ =~= tv[l as int][3]);
                }
                let n_vars = match parse_usize(t[2].as_slice()) {
                    Some(v) => v,
                    None => { proof { lemma_fold_err(tv, l as int + 1); } return Err(DimacsError::BadHeader(l)); },
                };
                let n_cl = match parse_usize(t[3].as_slice()) {
                    Some(v) => v,
                    None => { proof { lemma_fold_err(tv, l as int + 1); } return Err(DimacsError::BadHeader(l)); },
                };
                sat = Some(Sat::new(n_vars));
                declared = n_cl;
                l += 1;
                continue;
            }
            let mut s = match sat {
                Some(s) => s,
                None => { proof { lemma_fold_err(tv, l as int + 1); } return Err(DimacsError::ClauseBeforeHeader(l)); },
            };
            let mut lits: Vec<i64> = Vec::new();
            let mut k: usize = 0;
            while k < t.len()
                invariant
                    l < tl@.len(),
                    tl.deep_view() == tv,
                    tv == text_token_lines(text@),
                    dimacs_fold(tv.take(l as int + 1)) == dimacs_line(st, tv[l as int], l as int),
                    tv[l as int].len() > 0,
                    tv[l as int][0][0] != 99 && tv[l as int][0][0] != 37 && tv[l as int][0][0] != 112,
                    st.0 == Some((s.nv() as int, declared as int)),
                    k <= t@.len(),
                    t.deep_view() == tv[l as int],
                    t@.len() == tv[l as int].len(),
                    lits@.len() == k,
                    forall|m: int| 0 <= m < k ==> i64_token(tv[l as int][m]) == Some(#[trigger] lits@[m] as int),
                decreases t@.len() - k,
            {
                proof {
                    assert(t@[k as int]@ =~= tv[l as int][k as int]);
                }
                match parse_i64(t[k].as_slice()) {
                    Some(v) => lits.push(v),
                    None => {
                        proof {
                            assert(i64_token(tv[l as int][k as int]) is None);
                            lemma_fold_err(tv, l as int + 1);
                        }
                        return Err(DimacsError::BadLiteral(l));
                    },
                }
                k += 1;
            }
            let ghost all = line_literals(tv[l as int]);
            proof {
                assert(lits@ =~= all);
                assert forall|k: int| 0 <= k < tv[l as int].len() implies #[trigger] i64_token(tv[l as int][k]) is Some by {
                    assert(i64_token(tv[l as int][k]) == Some(lits@[k] as int));
                }
            }
            let clause = zero_prefix_vec(&lits);
            let n = s.n_vars();
            let mut c: usize = 0;
            while c < clause.len()
                invariant
                    l < tl@.len(),
                    tl.deep_view() == tv,
                    tv == text_token_lines(text@),
                    dimacs_fold(tv.take(l as int + 1)) == dimacs_line(st, tv[l as int], l as int),
                    tv[l as int].len() > 0,
                    tv[l as int][0][0] != 99 && tv[l as int][0][0] != 37 && tv[l as int][0][0] != 112,
                    st.0 == Some((s.nv() as int, declared as int)),
                    clause@ == zero_prefix(all),
                    all == line_literals(tv[l as int]),
                    forall|k: int| 0 <= k < tv[l as int].len() ==> #[trigger] i64_token(tv[l as int][k]) is Some,
                    c <= clause@.len(),
                    n == s.nv(),
                    forall|m: int| 0 <= m < c ==> lit_abs(#[trigger] clause@[m]) <= n,
                decreases clause@.len() - c,
            {
                let lit = clause[c];
                if lit_out_of_range(lit, n) {
                    proof {
                        assert(lit_abs(clause@[c as int]) > n);
                        assert(lit_abs(zero_prefix(line_literals(tv[l as int]))[c as int]) > (st.0->0).0);
                        lemma_fold_err(tv, l as int + 1);
                    }
                    return Err(DimacsError::LiteralOutOfRange(l));
                }
                c += 1;
            }
            proof {
                lemma_zero_prefix_nonzero(all);
                assert forall|m: int| 0 <= m < clause@.len() implies crate::sat::valid_lit(#[trigger] clause@[m], s.nv() as int) by {
                    assert(lit_abs(clause@[m]) <= n);
                }
                assert(!exists|k: int| 0 <= k < clause@.len() && lit_abs(#[trigger] clause@[k]) > (st.0->0).0);
            }
            if clause.len() > 0 {
                s.add_clause(clause.as_slice());
            }
            sat = Some(s);
            l += 1;
        }
        proof {
            assert(tv.take(l as int) =~= tv);
        }
        match sat {
            None => Err(DimacsError::MissingHeader),
            Some(s) => {
                if s.n_clauses() != declared {
                    Err(DimacsError::ClauseCountMismatch { declared, found: s.n_clauses() })
                } else {
                    Ok(s)
                }
            },
        }
    }
}

/// Whether the literal names a variable above `n`.
fn lit_out_of_range(lit: i64, n: usize) -> (r: bool)
    ensures
        r == (lit_abs(lit) > n),
{
    let a: u128 = if lit < 0 { (-(lit as i128)) as u128 } else { lit as u128 };
    a > n as u128
}

/// The literals of `v` before its first `0`.
fn zero_prefix_vec(v: &Vec<i64>) -> (r: Vec<i64>)
    ensures
        r@ == zero_prefix(v@),
{
    let mut k: usize = 0;
    while k < v.len() && v[k] != 0
        invariant
            k <= v@.len(),
            forall|m: int| 0 <= m < k ==> v@[m] != 0,
        decreases v@.len() - k,
    {
        k += 1;
    }
    let mut r: Vec<i64> = Vec::new();
    let mut t: usize = 0;
    while t < k
        invariant
            t <= k <= v@.len(),
            r@ == v@.take(t as int),
        decreases k - t,
    {
        r.push(v[t]);
        t += 1;
        proof {
            assert(r@ =~= v@.take(t as int));
        }
    }
    proof {
        lemma_zero_prefix_take(v@, k as int);
    }
    r
}

/// The literals before the first `0` are the first `k` when `k` is where
/// the first `0` (or the end) is.
proof fn lemma_zero_prefix_take(s: Seq<i64>, k: int)
    requires
        0 <= k <= s.len(),
        forall|m: int| 0 <= m < k ==> s[m] != 0,
        k == s.len() || s[k] == 0,
    ensures
        zero_prefix(s) == s.take(k),
    decreases s.len(),
{
    if k == 0 {
        assert(s.take(0) =~= Seq::<i64>::empty());
    } else {
        let d = s.drop_first();
        assert forall|m: int| 0 <= m < k - 1 implies d[m] != 0 by {
            assert(d[m] == s[m + 1]);
        }
        if k < s.len() {
            assert(d[k - 1] == s[k]);
        }
        lemma_zero_prefix_take(d, k - 1);
        assert(seq![s[0]] + d.take(k - 1) =~= s.take(k));
    }
}

/// A refusal on a prefix of the lines is the refusal of the whole text.
proof fn lemma_fold_err(tl: Seq<Seq<Seq<u8>>>, m: int)
    requires
        0 <= m <= tl.len(),
        dimacs_fold(tl.take(m)) is Err,
    ensures
        dimacs_fold(tl) == dimacs_fold(tl.take(m)),
    decreases tl.len() - m,
{
    if m < tl.len() {
        assert(tl.take(m + 1).drop_last() =~= tl.take(m));
        lemma_fold_err(tl, m + 1);
    } else {
        assert(tl.take(m) =~= tl);
    }
}

/// No literal before the first `0` is `0`.
proof fn lemma_zero_prefix_nonzero(s: Seq<i64>)
    ensures
        forall|m: int| 0 <= m < zero_prefix(s).len() ==> #[trigger] zero_prefix(s)[m] != 0,
    decreases s.len(),
{
    if s.len() > 0 && s[0] != 0 {
        lemma_zero_prefix_nonzero(s.drop_first());
        assert forall|m: int| 0 <= m < zero_prefix(s).len() implies #[trigger] zero_prefix(s)[m] != 0 by {
            if m > 0 {
                assert(zero_prefix(s)[m] == zero_prefix(s.drop_first())[m - 1]);
            }
        }
    }
}

} // verus!
