//! Sorted vectors of indices without repetition.

use vstd::prelude::*;

verus! {

/// `s` is strictly increasing.
pub open spec fn strictly_sorted(s: Seq<usize>) -> bool {
    forall|a: int, b: int| 0 <= a < b < s.len() ==> s[a] < s[b]
}

/// Inserts `x` into the strictly increasing vector `v` unless it is already
/// there, keeping `v` strictly increasing.
pub fn insert_unique_sorted(v: &mut Vec<usize>, x: usize)
    requires
        strictly_sorted(old(v)@),
    ensures
        strictly_sorted(final(v)@),
        final(v)@.to_set() == old(v)@.to_set().insert(x),
        old(v)@.contains(x) ==> final(v)@ == old(v)@,
        !old(v)@.contains(x) ==> final(v)@.len() == old(v)@.len() + 1,
{
    // Binary search for the first position holding a value >= x.
    let mut lo: usize = 0;
    let mut hi: usize = v.len();
    while lo < hi
        invariant
            0 <= lo <= hi <= v.len(),
            strictly_sorted(v@),
            forall|k: int| 0 <= k < lo ==> v@[k] < x,
            forall|k: int| hi <= k < v.len() ==> v@[k] >= x,
        decreases hi - lo,
    {
        let mid = lo + (hi - lo) / 2;
        if v[mid] < x {
            lo = mid + 1;
        } else {
            hi = mid;
        }
    }
    if lo < v.len() && v[lo] == x {
        return;
    }
    proof {
        assert(!v@.contains(x)) by {
            if v@.contains(x) {
                let k = choose|k: int| 0 <= k < v@.len() && v@[k] == x;
                assert(k < lo || k >= lo);
            }
        }
    }
    let ghost old_v = v@;
    v.insert(lo, x);
    proof {
        assert(v@ == old_v.insert(lo as int, x));
        assert forall|a: int, b: int| 0 <= a < b < v@.len() implies v@[a] < v@[b] by {
            if b < lo {
            } else if b == lo {
            } else if a < lo {
            } else if a == lo {
                assert(v@[b] == old_v[b - 1]);
            } else {
                assert(v@[a] == old_v[a - 1]);
                assert(v@[b] == old_v[b - 1]);
            }
        }
        assert(v@.to_set() =~= old_v.to_set().insert(x)) by {
            assert forall|y: usize| v@.to_set().contains(y) <==> old_v.to_set().insert(x).contains(y) by {
                if v@.contains(y) {
                    let k = choose|k: int| 0 <= k < v@.len() && v@[k] == y;
                    if k < lo {
                        assert(old_v[k] == y);
                    } else if k > lo {
                        assert(old_v[k - 1] == y);
                    }
                }
                if old_v.contains(y) {
                    let k = choose|k: int| 0 <= k < old_v.len() && old_v[k] == y;
                    if k < lo {
                        assert(v@[k] == y);
                    } else {
                        assert(v@[k + 1] == y);
                    }
                }
                if y == x {
                    assert(v@[lo as int] == x);
                }
            }
        }
    }
}

/// A strictly increasing list of values below `m` has at most `m` elements.
pub proof fn lemma_sorted_len(s: Seq<usize>, m: int)
    requires
        strictly_sorted(s),
        0 <= m,
        forall|k: int| 0 <= k < s.len() ==> #[trigger] s[k] < m,
    ensures
        s.len() <= m,
{
    lemma_sorted_ge_index(s, s.len() as int);
    if s.len() > 0 {
        assert(s[s.len() - 1] >= s.len() - 1);
    }
}

/// In a strictly increasing list, each value is at least its index.
proof fn lemma_sorted_ge_index(s: Seq<usize>, n: int)
    requires
        strictly_sorted(s),
        0 <= n <= s.len(),
    ensures
        forall|k: int| 0 <= k < n ==> #[trigger] s[k] >= k,
    decreases n,
{
    if n > 0 {
        lemma_sorted_ge_index(s, n - 1);
        assert forall|k: int| 0 <= k < n implies #[trigger] s[k] >= k by {
            if k == n - 1 && n >= 2 {
                assert(s[n - 2] >= n - 2);
                assert(s[n - 2] < s[n - 1]);
            }
        }
    }
}

} // verus!
