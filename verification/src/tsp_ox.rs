//! Order crossover (OX) of two tours: a segment of the first tour is kept in
//! place, and the other cities follow in the order of the second tour.

use vstd::prelude::*;
use rand::Rng;

verus! {

/// `s` visits each of the cities `0..n` exactly once.
pub open spec fn is_tour(s: Seq<usize>, n: int) -> bool {
    &&& s.len() == n
    &&& forall|i: int| 0 <= i < n ==> #[trigger] s[i] < n
    &&& forall|i: int, j: int| 0 <= i < j < n ==> #[trigger] s[i] != #[trigger] s[j]
    &&& forall|c: usize| c < n ==> #[trigger] s.contains(c)
}

/// `s` read from position `k` on, wrapping around.
pub open spec fn rotate(s: Seq<usize>, k: int) -> Seq<usize> {
    s.subrange(k, s.len() as int) + s.subrange(0, k)
}

/// The entries of `s` that `seg` does not hold, in order.
pub open spec fn outside(s: Seq<usize>, seg: Seq<usize>) -> Seq<usize>
    decreases s.len(),
{
    if s.len() == 0 {
        Seq::empty()
    } else if seg.contains(s.last()) {
        outside(s.drop_last(), seg)
    } else {
        outside(s.drop_last(), seg).push(s.last())
    }
}

/// The number of entries of `s` that `seg` holds.
pub open spec fn count_in(s: Seq<usize>, seg: Seq<usize>) -> int
    decreases s.len(),
{
    if s.len() == 0 {
        0
    } else {
        count_in(s.drop_last(), seg) + (if seg.contains(s.last()) { 1int } else { 0int })
    }
}

/// The OX child of `tour1` and `tour2` with the kept segment
/// `start..=end`: read from position `end + 1` on, it is the cities of
/// `tour2` (read from the same position) outside the segment, then the
/// segment.
pub open spec fn ox_child(tour1: Seq<usize>, tour2: Seq<usize>, start: int, end: int, child: Seq<usize>) -> bool {
    &&& child.len() == tour1.len()
    &&& rotate(child, end + 1) == outside(rotate(tour2, end + 1), tour1.subrange(start, end + 1)) + tour1.subrange(start, end + 1)
}

proof fn lemma_outside_len(s: Seq<usize>, seg: Seq<usize>)
    ensures
        outside(s, seg).len() + count_in(s, seg) == s.len(),
    decreases s.len(),
{
    if s.len() > 0 {
        lemma_outside_len(s.drop_last(), seg);
    }
}

/// Over entries that are all different, counting the entries in `seg` is
/// counting the cities both hold.
proof fn lemma_count_in_set(s: Seq<usize>, seg: Seq<usize>)
    requires
        forall|i: int, j: int| 0 <= i < j < s.len() ==> #[trigger] s[i] != #[trigger] s[j],
    ensures
        count_in(s, seg) == s.to_set().intersect(seg.to_set()).len(),
        s.to_set().intersect(seg.to_set()).finite(),
    decreases s.len(),
{
    if s.len() == 0 {
        assert(s.to_set().intersect(seg.to_set()) =~= Set::<usize>::empty());
    } else {
        let t = s.drop_last();
        let x = s.last();
        lemma_count_in_set(t, seg);
        assert(s.to_set() =~= t.to_set().insert(x)) by {
            assert forall|c: usize| s.to_set().contains(c) implies t.to_set().insert(x).contains(c) by {
                let i = choose|i: int| 0 <= i < s.len() && s[i] == c;
                if i < t.len() {
                    assert(t[i] == c);
                }
            }
            assert forall|c: usize| t.to_set().insert(x).contains(c) implies s.to_set().contains(c) by {
                if c == x {
                    assert(s[s.len() - 1] == c);
                } else {
                    let i = choose|i: int| 0 <= i < t.len() && t[i] == c;
                    assert(s[i] == c);
                }
            }
        }
        assert(!t.to_set().contains(x)) by {
            if t.to_set().contains(x) {
                let i = choose|i: int| 0 <= i < t.len() && t[i] == x;
                assert(s[i] == s[s.len() - 1]);
            }
        }
        let a = t.to_set().intersect(seg.to_set());
        if seg.to_set().contains(x) {
            assert(s.to_set().intersect(seg.to_set()) =~= a.insert(x));
            assert(seg.contains(x));
        } else {
            assert(s.to_set().intersect(seg.to_set()) =~= a);
            assert(!seg.contains(x));
        }
    }
}

/// Outside a segment of different cities, a tour keeps all but the
/// segment's length.
proof fn lemma_outside_tour_len(s: Seq<usize>, n: int, seg: Seq<usize>)
    requires
        is_tour(s, n),
        forall|i: int, j: int| 0 <= i < j < seg.len() ==> #[trigger] seg[i] != #[trigger] seg[j],
        forall|i: int| 0 <= i < seg.len() ==> #[trigger] seg[i] < n,
    ensures
        outside(s, seg).len() == n - seg.len(),
{
    lemma_outside_len(s, seg);
    lemma_count_in_set(s, seg);
    assert(s.to_set().intersect(seg.to_set()) =~= seg.to_set()) by {
        assert forall|c: usize| seg.to_set().contains(c) implies s.to_set().contains(c) by {
            let i = choose|i: int| 0 <= i < seg.len() && seg[i] == c;
            assert(seg[i] < n);
            assert(s.contains(c));
        }
    }
    seg.unique_seq_to_set();
}

/// The cities of a tour's segment are all different and in range.
proof fn lemma_segment(s: Seq<usize>, n: int, start: int, end: int)
    requires
        is_tour(s, n),
        0 <= start <= end < n,
    ensures
        forall|i: int, j: int| 0 <= i < j < s.subrange(start, end + 1).len() ==>
            #[trigger] s.subrange(start, end + 1)[i] != #[trigger] s.subrange(start, end + 1)[j],
        forall|i: int| 0 <= i < s.subrange(start, end + 1).len() ==> #[trigger] s.subrange(start, end + 1)[i] < n,
{
    let seg = s.subrange(start, end + 1);
    assert forall|i: int, j: int| 0 <= i < j < seg.len() implies #[trigger] seg[i] != #[trigger] seg[j] by {
        assert(seg[i] == s[start + i]);
        assert(seg[j] == s[start + j]);
    }
    assert forall|i: int| 0 <= i < seg.len() implies #[trigger] seg[i] < n by {
        assert(seg[i] == s[start + i]);
    }
}

/// Marks the cities of `tour[start..=end]` in a vector indexed by city.
fn segment_marks(tour: &[usize], start: usize, end: usize) -> (r: Vec<bool>)
    requires
        is_tour(tour@, tour@.len() as int),
        start <= end < tour@.len(),
    ensures
        r@.len() == tour@.len(),
        forall|x: int| 0 <= x < tour@.len() ==> (#[trigger] r@[x] <==> tour@.subrange(start as int, end as int + 1).contains(x as usize)),
{
    let n = tour.len();
    let mut in_seg: Vec<bool> = Vec::new();
    let mut c: usize = 0;
    while c < n
        invariant
            c <= n,
            in_seg@.len() == c,
            forall|x: int| 0 <= x < c ==> !(#[trigger] in_seg@[x]),
        decreases n - c,
    {
        in_seg.push(false);
        c += 1;
    }
    let mut t: usize = start;
    proof {
        assert forall|x: int| 0 <= x < n implies (#[trigger] in_seg@[x] <==> tour@.subrange(start as int, t as int).contains(x as usize)) by {
            assert(tour@.subrange(start as int, t as int).len() == 0);
        }
    }
    while t <= end
        invariant
            start <= t <= end + 1,
            end < n,
            n == tour@.len(),
            is_tour(tour@, n as int),
            in_seg@.len() == n,
            forall|x: int| 0 <= x < n ==> (#[trigger] in_seg@[x] <==> tour@.subrange(start as int, t as int).contains(x as usize)),
        decreases end + 1 - t,
    {
        let city = tour[t];
        in_seg.set(city, true);
        t += 1;
        proof {
            assert forall|x: int| 0 <= x < n implies (#[trigger] in_seg@[x] <==> tour@.subrange(start as int, t as int).contains(x as usize)) by {
                let pre = tour@.subrange(start as int, t - 1);
                let cur = tour@.subrange(start as int, t as int);
                assert(cur =~= pre.push(city));
                if x == city as int {
                    assert(cur[cur.len() - 1] == city);
                } else {
                    if cur.contains(x as usize) {
                        let i = choose|i: int| 0 <= i < cur.len() && cur[i] == x as usize;
                        assert(pre[i] == cur[i]);
                    }
                    if pre.contains(x as usize) {
                        let i = choose|i: int| 0 <= i < pre.len() && pre[i] == x as usize;
                        assert(cur[i] == pre[i]);
                    }
                }
            }
        }
    }
    in_seg
}

/// The cities of `tour`, read from `end + 1` on and wrapping around, that
/// `marks` does not mark.
fn cities_outside(tour: &[usize], marks: &Vec<bool>, end: usize, Ghost(seg): Ghost<Seq<usize>>) -> (r: Vec<usize>)
    requires
        is_tour(tour@, tour@.len() as int),
        end < tour@.len(),
        marks@.len() == tour@.len(),
        forall|x: int| 0 <= x < tour@.len() ==> (#[trigger] marks@[x] <==> seg.contains(x as usize)),
    ensures
        r@ == outside(rotate(tour@, end as int + 1), seg),
{
    let n = tour.len();
    let ghost rot = rotate(tour@, end as int + 1);
    let mut rest: Vec<usize> = Vec::new();
    let mut k: usize = 0;
    while k < n
        invariant
            k <= n,
            end < n,
            n == tour@.len(),
            is_tour(tour@, n as int),
            rot == rotate(tour@, end as int + 1),
            marks@.len() == n,
            forall|x: int| 0 <= x < n ==> (#[trigger] marks@[x] <==> seg.contains(x as usize)),
            rest@ == outside(rot.take(k as int), seg),
        decreases n - k,
    {
        let b = if k < n - (end + 1) { end + 1 + k } else { k - (n - (end + 1)) };
        let city = tour[b];
        proof {
            assert(rot[k as int] == city);
            assert(rot.take(k as int + 1).drop_last() =~= rot.take(k as int));
            assert(rot.take(k as int + 1).last() == city);
        }
        if !marks[city] {
            rest.push(city);
        }
        k += 1;
    }
    proof {
        assert(rot.take(n as int) =~= rot);
    }
    rest
}

/// `rest` followed by `tour[start..=end]`.
fn append_segment(rest: &Vec<usize>, tour: &[usize], start: usize, end: usize) -> (r: Vec<usize>)
    requires
        start <= end < tour@.len(),
    ensures
        r@ == rest@ + tour@.subrange(start as int, end as int + 1),
{
    let mut rotated: Vec<usize> = Vec::new();
    let mut q: usize = 0;
    while q < rest.len()
        invariant
            q <= rest@.len(),
            rotated@ == rest@.take(q as int),
        decreases rest@.len() - q,
    {
        rotated.push(rest[q]);
        q += 1;
        proof {
            assert(rotated@ =~= rest@.take(q as int));
        }
    }
    proof {
        assert(rest@.take(rest@.len() as int) =~= rest@);
        assert(rotated@ =~= rest@ + tour@.subrange(start as int, start as int));
    }
    let mut t: usize = start;
    while t <= end
        invariant
            start <= t <= end + 1,
            end < tour@.len(),
            rotated@ == rest@ + tour@.subrange(start as int, t as int),
        decreases end + 1 - t,
    {
        rotated.push(tour[t]);
        t += 1;
        proof {
            assert(rotated@ =~= rest@ + tour@.subrange(start as int, t as int));
        }
    }
    rotated
}

/// The sequence whose rotation by `e` is `rotated`.
fn unrotate(rotated: &Vec<usize>, e: usize) -> (r: Vec<usize>)
    requires
        0 < e <= rotated@.len(),
    ensures
        r@.len() == rotated@.len(),
        rotate(r@, e as int) == rotated@,
{
    let n = rotated.len();
    let mut child: Vec<usize> = Vec::new();
    let mut j: usize = 0;
    while j < n
        invariant
            j <= n,
            0 < e <= n,
            rotated@.len() == n,
            child@.len() == j,
            forall|x: int| 0 <= x < j ==> #[trigger] child@[x] == rotated@[if x >= e { x - e } else { x + (n - e) }],
        decreases n - j,
    {
        let idx = if j >= e { j - e } else { j + (n - e) };
        child.push(rotated[idx]);
        j += 1;
    }
    proof {
        assert(rotate(child@, e as int) =~= rotated@) by {
            assert forall|i: int| 0 <= i < n implies #[trigger] rotate(child@, e as int)[i] == rotated@[i] by {
                if i < n - e {
                    assert(rotate(child@, e as int)[i] == child@[e + i]);
                } else {
                    assert(rotate(child@, e as int)[i] == child@[i - (n - e)]);
                }
            }
        }
    }
    child
}

/// A tour read from any position is a tour.
proof fn lemma_rotate_tour(s: Seq<usize>, n: int, e: int)
    requires
        is_tour(s, n),
        0 < e <= n,
    ensures
        is_tour(rotate(s, e), n),
{
    let r = rotate(s, e);
    assert forall|i: int| 0 <= i < n implies #[trigger] r[i] < n by {
        if i < n - e { assert(r[i] == s[e + i]); } else { assert(r[i] == s[i - (n - e)]); }
    }
    assert forall|i: int, j: int| 0 <= i < j < n implies #[trigger] r[i] != #[trigger] r[j] by {
        let pi = if i < n - e { e + i } else { i - (n - e) };
        let pj = if j < n - e { e + j } else { j - (n - e) };
        assert(r[i] == s[pi]);
        assert(r[j] == s[pj]);
        if pi < pj { assert(s[pi] != s[pj]); } else { assert(s[pj] != s[pi]); }
    }
    assert forall|c: usize| c < n implies #[trigger] r.contains(c) by {
        assert(s.contains(c));
        let p = choose|p: int| 0 <= p < n && s[p] == c;
        let i = if p >= e { p - e } else { p + (n - e) };
        assert(r[i] == c);
    }
}

/// A uniform draw from `0..n` by the thread-local generator:
/// `rand::Rng::random_range(0..n)` on `rand::rng()`.
///
/// The contract states only that the draw lies in the range; which value
/// comes depends on the generator's state. `rand` panics on an empty range,
/// so `n` must be positive.
#[verifier::external_body]
fn thread_below(n: usize) -> (r: usize)
    requires
        n > 0,
    ensures
        r < n,
{
    rand::rng().random_range(0..n)
}

/// Order Crossover (OX) for tours.
#[derive(Debug, Clone, Copy)]
pub struct TspOrderCrossover;

impl TspOrderCrossover {
    /// The OX child that keeps `tour1[start..=end]` in place and fills the
    /// other positions, from `end + 1` on and wrapping around, with the
    /// cities of `tour2` outside that segment, in `tour2`'s order read from
    /// `end + 1` on.
    pub fn child_tour(tour1: &[usize], tour2: &[usize], start: usize, end: usize) -> (r: Vec<usize>)
        requires
            is_tour(tour1@, tour1@.len() as int),
            is_tour(tour2@, tour1@.len() as int),
            start <= end < tour1@.len(),
        ensures
            ox_child(tour1@, tour2@, start as int, end as int, r@),
            is_tour(r@, tour1@.len() as int),
    {
        let n = tour1.len();
        let ghost seg = tour1@.subrange(start as int, end as int + 1);
        proof {
            lemma_segment(tour1@, n as int, start as int, end as int);
        }
        let marks = segment_marks(tour1, start, end);
        let rest = cities_outside(tour2, &marks, end, Ghost(seg));
        let ghost rot2 = rotate(tour2@, end as int + 1);
        proof {
            lemma_rotate_tour(tour2@, n as int, end as int + 1);
            lemma_outside_tour_len(rot2, n as int, seg);
        }
        let rotated = append_segment(&rest, tour1, start, end);
        let child = unrotate(&rotated, end + 1);
        proof {
            lemma_tour_of_rotation(child@, rotated@, rot2, seg, n as int, end as int + 1);
        }
        child
    }

    /// The OX child of two tours with a segment drawn by the thread-local
    /// generator; a copy of `tour1` when the tours are empty.
    pub fn crossover_tour(&mut self, tour1: &[usize], tour2: &[usize]) -> (r: Vec<usize>)
        requires
            is_tour(tour1@, tour1@.len() as int),
            is_tour(tour2@, tour1@.len() as int),
        ensures
            tour1@.len() == 0 ==> r@ == tour1@,
            tour1@.len() > 0 ==> exists|start: int, end: int| 0 <= start <= end < tour1@.len()
                && #[trigger] ox_child(tour1@, tour2@, start, end, r@),
    {
        let n = tour1.len();
        if n == 0 {
            return Vec::new();
        }
        let s1 = thread_below(n);
        let s2 = thread_below(n);
        let (start, end) = if s1 <= s2 { (s1, s2) } else { (s2, s1) };
        let child = Self::child_tour(tour1, tour2, start, end);
        proof {
            assert(ox_child(tour1@, tour2@, start as int, end as int, child@));
        }
        child
    }
}

/// A sequence whose rotation is the cities of a tour outside a segment,
/// then the segment, is a tour.
proof fn lemma_tour_of_rotation(child: Seq<usize>, rotated: Seq<usize>, rot2: Seq<usize>, seg: Seq<usize>, n: int, e: int)
    requires
        0 < e <= n,
        child.len() == n,
        rotate(child, e) == rotated,
        rotated == outside(rot2, seg) + seg,
        outside(rot2, seg).len() == n - seg.len(),
        is_tour(rot2, n),
        forall|i: int, j: int| 0 <= i < j < seg.len() ==> #[trigger] seg[i] != #[trigger] seg[j],
        forall|i: int| 0 <= i < seg.len() ==> #[trigger] seg[i] < n,
    ensures
        is_tour(child, n),
{
    lemma_outside_props(rot2, seg, n);
    let o = outside(rot2, seg);
    // `rotated` is a tour.
    assert forall|i: int| 0 <= i < n implies #[trigger] rotated[i] < n by {
        if i < o.len() { assert(rotated[i] == o[i]); } else { assert(rotated[i] == seg[i - o.len()]); }
    }
    assert forall|i: int, j: int| 0 <= i < j < n implies #[trigger] rotated[i] != #[trigger] rotated[j] by {
        if j < o.len() {
            assert(rotated[i] == o[i] && rotated[j] == o[j]);
        } else if i >= o.len() {
            assert(rotated[i] == seg[i - o.len()] && rotated[j] == seg[j - o.len()]);
        } else {
            assert(rotated[i] == o[i] && rotated[j] == seg[j - o.len()]);
            assert(seg.contains(seg[j - o.len()]));
        }
    }
    assert forall|c: usize| c < n implies #[trigger] rotated.contains(c) by {
        if seg.contains(c) {
            let i = choose|i: int| 0 <= i < seg.len() && seg[i] == c;
            assert(rotated[o.len() + i] == c);
        } else {
            assert(rot2.contains(c));
            assert(o.contains(c));
            let i = choose|i: int| 0 <= i < o.len() && o[i] == c;
            assert(rotated[i] == c);
        }
    }
    // Undoing the rotation keeps it a tour.
    assert forall|x: int| 0 <= x < n implies #[trigger] child[x] == rotated[if x >= e { x - e } else { x + (n - e) }] by {
        if x >= e {
            assert(rotate(child, e)[x - e] == child[x]);
        } else {
            assert(rotate(child, e)[x + (n - e)] == child[x]);
        }
    }
    assert forall|x: int| 0 <= x < n implies #[trigger] child[x] < n by {
        let y = if x >= e { x - e } else { x + (n - e) };
        assert(child[x] == rotated[y]);
    }
    assert forall|x: int, z: int| 0 <= x < z < n implies #[trigger] child[x] != #[trigger] child[z] by {
        let y1 = if x >= e { x - e } else { x + (n - e) };
        let y2 = if z >= e { z - e } else { z + (n - e) };
        assert(child[x] == rotated[y1]);
        assert(child[z] == rotated[y2]);
        if y1 < y2 { assert(rotated[y1] != rotated[y2]); } else { assert(rotated[y2] != rotated[y1]); }
    }
    assert forall|c: usize| c < n implies #[trigger] child.contains(c) by {
        assert(rotated.contains(c));
        let y = choose|y: int| 0 <= y < n && rotated[y] == c;
        let x = if y < n - e { y + e } else { y - (n - e) };
        assert(child[x] == rotated[y]);
    }
}

/// What lies outside a segment: entries of the tour, none in the segment,
/// all different, and every city of the tour outside the segment.
proof fn lemma_outside_props(s: Seq<usize>, seg: Seq<usize>, n: int)
    requires
        forall|i: int| 0 <= i < s.len() ==> #[trigger] s[i] < n,
        forall|i: int, j: int| 0 <= i < j < s.len() ==> #[trigger] s[i] != #[trigger] s[j],
    ensures
        forall|i: int| 0 <= i < outside(s, seg).len() ==> #[trigger] outside(s, seg)[i] < n
            && !seg.contains(outside(s, seg)[i]) && s.contains(outside(s, seg)[i]),
        forall|i: int, j: int| 0 <= i < j < outside(s, seg).len() ==> #[trigger] outside(s, seg)[i] != #[trigger] outside(s, seg)[j],
        forall|c: usize| s.contains(c) && !seg.contains(c) ==> #[trigger] outside(s, seg).contains(c),
    decreases s.len(),
{
    if s.len() > 0 {
        let t = s.drop_last();
        let x = s.last();
        lemma_outside_props(t, seg, n);
        let ot = outside(t, seg);
        let os = outside(s, seg);
        assert forall|i: int| 0 <= i < os.len() implies #[trigger] os[i] < n && !seg.contains(os[i]) && s.contains(os[i]) by {
            if i < ot.len() {
                assert(os[i] == ot[i]);
                let k = choose|k: int| 0 <= k < t.len() && t[k] == ot[i];
                assert(s[k] == t[k]);
            } else {
                assert(os[i] == x);
                assert(s[s.len() - 1] == x);
            }
        }
        assert forall|i: int, j: int| 0 <= i < j < os.len() implies #[trigger] os[i] != #[trigger] os[j] by {
            if j < ot.len() {
                assert(os[i] == ot[i] && os[j] == ot[j]);
            } else {
                assert(os[j] == x);
                assert(os[i] == ot[i]);
                assert(t.contains(ot[i]));
                let k = choose|k: int| 0 <= k < t.len() && t[k] == ot[i];
                assert(s[k] == t[k]);
                assert(s[k] != s[s.len() - 1]);
            }
        }
        assert forall|c: usize| s.contains(c) && !seg.contains(c) implies #[trigger] os.contains(c) by {
            let k = choose|k: int| 0 <= k < s.len() && s[k] == c;
            if k < t.len() {
                assert(t[k] == c);
                assert(t.contains(c));
                assert(ot.contains(c));
                let i = choose|i: int| 0 <= i < ot.len() && ot[i] == c;
                assert(os[i] == c);
            } else {
                assert(os[os.len() - 1] == c);
            }
        }
    }
}

} // verus!
