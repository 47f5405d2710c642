//! Longest increasing subsequence by patience sorting.

use core::cmp::Ordering;
use vstd::laws_cmp::obeys_cmp;
use vstd::laws_cmp::obeys_partial_cmp_spec_properties;
use vstd::prelude::*;
use vstd::std_specs::cmp::{OrdSpec, PartialEqSpec, PartialOrdSpec};

verus! {

/// `x` comes strictly before `y` in the element order.
pub open spec fn precedes<T: PartialOrd>(x: T, y: T) -> bool {
    x.partial_cmp_spec(&y) == Some(Ordering::Less)
}

/// Every element strictly precedes every later one.
pub open spec fn strictly_increasing<T: PartialOrd>(s: Seq<T>) -> bool {
    forall|i: int, j: int| 0 <= i < j < s.len() ==> precedes(#[trigger] s[i], #[trigger] s[j])
}

/// The positions `idx` select the elements of `sub` from `s`, left to right.
pub open spec fn selects<T>(sub: Seq<T>, s: Seq<T>, idx: Seq<int>) -> bool {
    &&& idx.len() == sub.len()
    &&& forall|k: int| 0 <= k < idx.len() ==> 0 <= #[trigger] idx[k] < s.len() && sub[k] == s[idx[k]]
    &&& forall|k: int, l: int| 0 <= k < l < idx.len() ==> #[trigger] idx[k] < #[trigger] idx[l]
}

/// `sub` is obtained from `s` by deleting elements, keeping the order of the rest.
pub open spec fn is_subsequence<T>(sub: Seq<T>, s: Seq<T>) -> bool {
    exists|idx: Seq<int>| selects(sub, s, idx)
}

/// One more than the length of the longest strictly increasing subsequence
/// of `v[0..j)` whose elements all precede `v[e]`.
#[verifier::opaque]
pub open spec fn lis_upto<T: PartialOrd>(v: Seq<T>, e: int, j: int) -> nat
    decreases e, j,
{
    if j <= 0 || j > e || e >= v.len() {
        1
    } else {
        let rest = lis_upto(v, e, j - 1);
        if precedes(v[j - 1], v[e]) {
            let here = lis_upto(v, j - 1, j - 1) + 1;
            if here > rest { here } else { rest }
        } else {
            rest
        }
    }
}

/// Length of the longest strictly increasing subsequence of `v` that ends at
/// position `e`.
pub open spec fn lis_end<T: PartialOrd>(v: Seq<T>, e: int) -> nat {
    lis_upto(v, e, e)
}

/// The positions `idx` are the ones patience sorting picks: `idx[t]` ends a
/// longest increasing run of length `t + 1`; no longer run ends anywhere;
/// the last position is the earliest where a run of full length ends; each
/// earlier one is the latest position, before the next, where a run one
/// shorter ends.
pub open spec fn patience_choice<T: PartialOrd>(v: Seq<T>, idx: Seq<int>) -> bool {
    let m = idx.len() as int;
    &&& forall|t: int| 0 <= t < m ==> lis_end(v, #[trigger] idx[t]) == t + 1
    &&& forall|e: int| 0 <= e < v.len() ==> #[trigger] lis_end(v, e) <= m
    &&& m > 0 ==> forall|e: int| 0 <= e < idx[m - 1] ==> #[trigger] lis_end(v, e) < m
    &&& forall|t: int, j: int| 0 <= t < m - 1 && #[trigger] idx[t] < j < idx[t + 1] ==> #[trigger] lis_end(v, j) != t + 1
}

proof fn lemma_upto_upper<T: PartialOrd>(v: Seq<T>, e: int, j: int, bound: int)
    requires
        0 <= j <= e < v.len(),
        bound >= 1,
        forall|i: int| 0 <= i < j && precedes(v[i], v[e]) ==> #[trigger] lis_end(v, i) + 1 <= bound,
    ensures
        lis_upto(v, e, j) <= bound,
    decreases j,
{
    reveal(lis_upto);
    if j > 0 {
        lemma_upto_upper(v, e, j - 1, bound);
        if precedes(v[j - 1], v[e]) {
            assert(lis_end(v, j - 1) + 1 <= bound);
        }
    }
}

proof fn lemma_upto_lower<T: PartialOrd>(v: Seq<T>, e: int, j: int, i: int)
    requires
        0 <= i < j <= e < v.len(),
        precedes(v[i], v[e]),
    ensures
        lis_upto(v, e, j) >= lis_end(v, i) + 1,
    decreases j,
{
    reveal(lis_upto);
    if i < j - 1 {
        lemma_upto_lower(v, e, j - 1, i);
    }
}

proof fn lemma_precedes_transitive<T: Ord>(x: T, y: T, z: T)
    requires
        obeys_cmp::<T>(),
        precedes(x, y),
        precedes(y, z),
    ensures
        precedes(x, z),
{
    reveal(obeys_partial_cmp_spec_properties);
}

/// The order is total: of two elements one precedes the other, or they are equal.
proof fn lemma_trichotomy<T: Ord>(x: T, y: T)
    requires
        obeys_cmp::<T>(),
    ensures
        precedes(x, y) || precedes(y, x) || x.eq_spec(&y),
        precedes(x, y) ==> !precedes(y, x) && !x.eq_spec(&y) && !y.eq_spec(&x),
{
    reveal(obeys_partial_cmp_spec_properties);
    reveal(vstd::laws_cmp::obeys_cmp_partial_ord);
    reveal(vstd::laws_cmp::obeys_cmp_ord);
    reveal(vstd::laws_eq::obeys_eq_spec_properties);
    assert(x.partial_cmp_spec(&y) == Some(x.cmp_spec(&y)));
    assert(y.partial_cmp_spec(&x) == Some(y.cmp_spec(&x)));
}

proof fn lemma_irreflexive<T: Ord>(x: T)
    requires
        obeys_cmp::<T>(),
    ensures
        !precedes(x, x),
{
    lemma_trichotomy(x, x);
}

/// `x <= t1 < t2` gives `x < t2`.
proof fn lemma_le_lt<T: Ord>(x: T, t1: T, t2: T)
    requires
        obeys_cmp::<T>(),
        !precedes(t1, x),
        precedes(t1, t2),
    ensures
        precedes(x, t2),
{
    reveal(vstd::laws_eq::obeys_eq_spec_properties);
    reveal(obeys_partial_cmp_spec_properties);
    lemma_trichotomy(x, t2);
    lemma_trichotomy(t1, x);
    lemma_trichotomy(t1, t2);
    if !precedes(x, t2) {
        if x.eq_spec(&t2) {
            if t1.eq_spec(&x) {
                assert(t1.eq_spec(&t2));
            } else {
                lemma_precedes_transitive(x, t1, t2);
            }
        } else {
            lemma_precedes_transitive(t1, t2, x);
        }
    }
}

/// `t <= a < x` gives `t < x`.
proof fn lemma_lt_le<T: Ord>(t: T, a: T, x: T)
    requires
        obeys_cmp::<T>(),
        !precedes(a, t),
        precedes(a, x),
    ensures
        precedes(t, x),
{
    reveal(vstd::laws_eq::obeys_eq_spec_properties);
    reveal(obeys_partial_cmp_spec_properties);
    lemma_trichotomy(t, x);
    lemma_trichotomy(a, t);
    lemma_trichotomy(a, x);
    if !precedes(t, x) {
        if t.eq_spec(&x) {
            if t.eq_spec(&a) {
                assert(a.eq_spec(&x));
            } else {
                lemma_precedes_transitive(t, a, x);
            }
        } else {
            lemma_precedes_transitive(a, x, t);
        }
    }
}

/// The tops of the piles rise from left to right.
pub open spec fn tops_rise<T: PartialOrd>(v: Seq<T>, tops: Seq<usize>) -> bool {
    forall|p: int, q: int|
        0 <= p < q < tops.len() ==> precedes(v[#[trigger] tops[p] as int], v[#[trigger] tops[q] as int])
}

/// The state of patience sorting after the first `k` elements of `v`:
/// `tops[p]` is the position of the top of pile `p`, `level[e]` the pile that
/// `v[e]` went on. Each top is no greater than anything below it, and an
/// element that rises above an earlier one lies on a later pile.
pub open spec fn piles_inv<T: PartialOrd>(v: Seq<T>, tops: Seq<usize>, level: Seq<int>, k: int) -> bool {
    &&& 1 <= tops.len() <= k <= v.len()
    &&& level.len() == k
    &&& forall|p: int| 0 <= p < tops.len() ==> #[trigger] tops[p] < k && level[tops[p] as int] == p
    &&& forall|e: int| 0 <= e < k ==> 0 <= #[trigger] level[e] < tops.len()
    &&& tops_rise(v, tops)
    &&& forall|e: int| 0 <= e < k ==> !precedes(v[e], v[tops[#[trigger] level[e]] as int])
    &&& forall|e1: int, e2: int|
        0 <= e1 < e2 < k && precedes(v[e1], v[e2]) ==> #[trigger] level[e1] < #[trigger] level[e2]
}

proof fn lemma_choice_agrees_from<T: PartialOrd>(v: Seq<T>, s1: Seq<T>, i1: Seq<int>, s2: Seq<T>, i2: Seq<int>, t: int)
    requires
        selects(s1, v, i1),
        patience_choice(v, i1),
        selects(s2, v, i2),
        patience_choice(v, i2),
        i1.len() == i2.len(),
        0 <= t < i1.len(),
    ensures
        forall|u: int| t <= u < i1.len() ==> i1[u] == i2[u],
    decreases i1.len() - t,
{
    let m = i1.len() as int;
    if t == m - 1 {
        assert(lis_end(v, i1[t]) == m && lis_end(v, i2[t]) == m);
        if i1[t] < i2[t] {
            assert(lis_end(v, i1[t]) < m);
        } else if i2[t] < i1[t] {
            assert(lis_end(v, i2[t]) < m);
        }
    } else {
        lemma_choice_agrees_from(v, s1, i1, s2, i2, t + 1);
        assert(i1[t] < i1[t + 1] && i2[t] < i2[t + 1]);
        assert(lis_end(v, i1[t]) == t + 1 && lis_end(v, i2[t]) == t + 1);
        if i1[t] < i2[t] {
            assert(lis_end(v, i2[t]) != t + 1);
        } else if i2[t] < i1[t] {
            assert(lis_end(v, i1[t]) != t + 1);
        }
    }
}

/// At most one subsequence of `v` is picked the way patience sorting picks:
/// `patience_choice` fixes the result.
pub proof fn lemma_patience_choice_unique<T: PartialOrd>(v: Seq<T>, s1: Seq<T>, i1: Seq<int>, s2: Seq<T>, i2: Seq<int>)
    requires
        selects(s1, v, i1),
        patience_choice(v, i1),
        selects(s2, v, i2),
        patience_choice(v, i2),
    ensures
        s1 == s2,
{
    let m1 = i1.len() as int;
    let m2 = i2.len() as int;
    if m1 > 0 {
        assert(lis_end(v, i1[m1 - 1]) == m1);
        assert(lis_end(v, i1[m1 - 1]) <= m2);
    } else if v.len() > 0 {
        lemma_upto_pos(v, 0, 0);
        assert(lis_end(v, 0) <= m1);
    }
    if m2 > 0 {
        assert(lis_end(v, i2[m2 - 1]) == m2);
        assert(lis_end(v, i2[m2 - 1]) <= m1);
    } else if v.len() > 0 {
        lemma_upto_pos(v, 0, 0);
        assert(lis_end(v, 0) <= m2);
    }
    if m1 > 0 && m2 > 0 {
        lemma_choice_agrees_from(v, s1, i1, s2, i2, 0);
        assert forall|k: int| 0 <= k < s1.len() implies s1[k] == s2[k] by {
            assert(i1[k] == i2[k]);
        }
    } else if m1 > 0 {
        assert(0 <= i1[0] < v.len());
    } else if m2 > 0 {
        assert(0 <= i2[0] < v.len());
    }
    assert(s1 =~= s2);
}

/// `v` and `w` have the same length and order their positions alike.
pub open spec fn same_order<T: PartialOrd, U: PartialOrd>(v: Seq<T>, w: Seq<U>) -> bool {
    &&& v.len() == w.len()
    &&& forall|i: int, j: int|
        0 <= i < v.len() && 0 <= j < v.len() ==> (precedes(#[trigger] v[i], #[trigger] v[j]) <==> precedes(w[i], w[j]))
}

proof fn lemma_upto_same_order<T: PartialOrd, U: PartialOrd>(v: Seq<T>, w: Seq<U>, e: int, j: int)
    requires
        same_order(v, w),
    ensures
        lis_upto(v, e, j) == lis_upto(w, e, j),
    decreases e, j,
{
    reveal(lis_upto);
    if !(j <= 0 || j > e || e >= v.len()) {
        lemma_upto_same_order(v, w, e, j - 1);
        lemma_upto_same_order(v, w, j - 1, j - 1);
        assert(precedes(v[j - 1], v[e]) <==> precedes(w[j - 1], w[e]));
    }
}

/// Which positions patience sorting picks depends only on how the elements
/// compare: on two sequences ordered alike it picks the same positions.
pub proof fn lemma_patience_choice_order_only<T: PartialOrd, U: PartialOrd>(v: Seq<T>, w: Seq<U>, idx: Seq<int>)
    requires
        same_order(v, w),
    ensures
        patience_choice(v, idx) <==> patience_choice(w, idx),
{
    assert forall|e: int|
        #![trigger lis_end(v, e)]
        #![trigger lis_end(w, e)]
        lis_end(v, e) == lis_end(w, e) by {
        lemma_upto_same_order(v, w, e, e);
    }
}

/// Binary search over the pile tops for the leftmost pile whose top does not
/// precede `x`; `tops.len()` when every top precedes it.
fn leftmost_pile<T: Ord + Copy>(v: &Vec<T>, tops: &Vec<usize>, x: T, k: usize) -> (lo: usize)
    requires
        obeys_cmp::<T>(),
        k < v@.len(),
        forall|p: int| 0 <= p < tops@.len() ==> #[trigger] tops@[p] < k,
        tops_rise(v@, tops@),
    ensures
        lo <= tops@.len(),
        forall|p: int| 0 <= p < lo ==> precedes(v@[#[trigger] tops@[p] as int], x),
        forall|p: int| lo <= p < tops@.len() ==> !precedes(v@[#[trigger] tops@[p] as int], x),
{
    proof {
        reveal(vstd::laws_cmp::obeys_cmp_partial_ord);
    }
    let mut lo: usize = 0;
    let mut hi: usize = tops.len();
    while lo < hi
        invariant
            0 <= lo <= hi <= tops@.len(),
            obeys_cmp::<T>(),
            T::obeys_partial_cmp_spec(),
            k < v@.len(),
            forall|p: int| 0 <= p < tops@.len() ==> #[trigger] tops@[p] < k,
            tops_rise(v@, tops@),
            forall|p: int| 0 <= p < lo ==> precedes(v@[#[trigger] tops@[p] as int], x),
            forall|p: int| hi <= p < tops@.len() ==> !precedes(v@[#[trigger] tops@[p] as int], x),
        decreases hi - lo,
    {
        let mid = lo + (hi - lo) / 2;
        let ghost tm = v@[tops@[mid as int] as int];
        if v[tops[mid]] < x {
            proof {
                assert forall|p: int| 0 <= p < mid + 1 implies precedes(v@[#[trigger] tops@[p] as int], x) by {
                    if p < mid {
                        assert(precedes(v@[tops@[p] as int], tm));
                        lemma_precedes_transitive(v@[tops@[p] as int], tm, x);
                    }
                }
            }
            lo = mid + 1;
        } else {
            proof {
                assert forall|p: int| mid <= p < tops@.len() implies !precedes(v@[#[trigger] tops@[p] as int], x) by {
                    if p > mid && precedes(v@[tops@[p] as int], x) {
                        assert(precedes(tm, v@[tops@[p] as int]));
                        lemma_precedes_transitive(tm, v@[tops@[p] as int], x);
                    }
                }
            }
            hi = mid;
        }
    }
    lo
}

/// Placing `v[k]` on pile `lo`, found by `leftmost_pile`, keeps `piles_inv`.
proof fn lemma_place<T: Ord>(v: Seq<T>, tops: Seq<usize>, level: Seq<int>, k: int, lo: int, t2: Seq<usize>)
    requires
        obeys_cmp::<T>(),
        piles_inv(v, tops, level, k),
        k < v.len(),
        k <= usize::MAX,
        0 <= lo <= tops.len(),
        forall|p: int| 0 <= p < lo ==> precedes(v[#[trigger] tops[p] as int], v[k]),
        forall|p: int| lo <= p < tops.len() ==> !precedes(v[#[trigger] tops[p] as int], v[k]),
        lo == tops.len() ==> t2 == tops.push(k as usize),
        lo < tops.len() ==> t2 == tops.update(lo, k as usize),
    ensures
        piles_inv(v, t2, level.push(lo), k + 1),
{
    let x = v[k];
    let l2 = level.push(lo);
    assert(t2.len() == tops.len() || t2.len() == tops.len() + 1);
    assert(t2[lo] == k);
    assert(l2[k] == lo);
    assert forall|p: int| 0 <= p < t2.len() && p != lo implies #[trigger] t2[p] == tops[p] by {}
    assert forall|p: int| 0 <= p < t2.len() implies #[trigger] t2[p] < k + 1 && l2[t2[p] as int] == p by {
        if p != lo {
            assert(t2[p] == tops[p]);
            assert(l2[tops[p] as int] == level[tops[p] as int]);
        }
    }
    assert forall|p: int, q: int| 0 <= p < q < t2.len() implies precedes(v[#[trigger] t2[p] as int], v[#[trigger] t2[q] as int]) by {
        if q == lo {
            assert(t2[p] == tops[p]);
        } else if p == lo {
            assert(t2[q] == tops[q]);
            assert(precedes(v[tops[p] as int], v[tops[q] as int]));
            lemma_le_lt(x, v[tops[p] as int], v[tops[q] as int]);
        } else {
            assert(t2[p] == tops[p]);
            assert(t2[q] == tops[q]);
        }
    }
    assert forall|e: int| 0 <= e < k + 1 implies !precedes(v[e], v[t2[#[trigger] l2[e]] as int]) by {
        if e == k {
            lemma_irreflexive(x);
        } else if level[e] == lo {
            let t = v[tops[lo] as int];
            assert(!precedes(v[e], v[tops[level[e]] as int]));
            if precedes(v[e], x) {
                lemma_lt_le(t, v[e], x);
            }
        } else {
            assert(l2[e] == level[e]);
            assert(t2[level[e]] == tops[level[e]]);
            assert(!precedes(v[e], v[tops[level[e]] as int]));
        }
    }
    assert forall|e1: int, e2: int| 0 <= e1 < e2 < k + 1 && precedes(v[e1], v[e2]) implies #[trigger] l2[e1]
        < #[trigger] l2[e2] by {
        assert(l2[e1] == level[e1]);
        if e2 == k {
            let t = v[tops[level[e1]] as int];
            assert(!precedes(v[e1], v[tops[level[e1]] as int]));
            lemma_lt_le(t, v[e1], x);
        } else {
            assert(l2[e2] == level[e2]);
        }
    }
    assert forall|e: int| 0 <= e < k + 1 implies 0 <= #[trigger] l2[e] < t2.len() by {
        if e < k {
            assert(l2[e] == level[e]);
        }
    }
}

proof fn lemma_upto_pos<T: PartialOrd>(v: Seq<T>, e: int, j: int)
    ensures
        lis_upto(v, e, j) >= 1,
    decreases e, j,
{
    reveal(lis_upto);
    if !(j <= 0 || j > e || e >= v.len()) {
        lemma_upto_pos(v, e, j - 1);
    }
}

/// The element placed on pile `lo` ends a longest increasing run of length
/// `lo + 1`.
proof fn lemma_lis_end_at<T: Ord>(v: Seq<T>, tops: Seq<usize>, level: Seq<int>, k: int, lo: int)
    requires
        obeys_cmp::<T>(),
        piles_inv(v, tops, level, k),
        k < v.len(),
        forall|e: int| 0 <= e < k ==> lis_end(v, e) == #[trigger] level[e] + 1,
        0 <= lo <= tops.len(),
        forall|p: int| 0 <= p < lo ==> precedes(v[#[trigger] tops[p] as int], v[k]),
        forall|p: int| lo <= p < tops.len() ==> !precedes(v[#[trigger] tops[p] as int], v[k]),
    ensures
        lis_end(v, k) == lo + 1,
{
    let x = v[k];
    assert forall|i: int| 0 <= i < k && precedes(v[i], v[k]) implies #[trigger] lis_end(v, i) + 1 <= lo + 1 by {
        let t = v[tops[level[i]] as int];
        assert(!precedes(v[i], t));
        lemma_lt_le(t, v[i], x);
        assert(level[i] < lo);
    }
    lemma_upto_upper(v, k, k, lo + 1);
    if lo > 0 {
        let j = tops[lo - 1] as int;
        assert(level[j] == lo - 1);
        lemma_upto_lower(v, k, k, j);
    } else {
        lemma_upto_pos(v, k, k);
    }
}

/// How the levels, pile tops, links and `head` of patience sorting relate
/// to `lis_end` after the first `k` elements: each level is one less than
/// the run length, each top is the latest element of its pile, `head` the
/// earliest element of the rightmost pile, and each link the latest element
/// one pile to the left.
pub open spec fn links_inv<T: PartialOrd>(v: Seq<T>, tops: Seq<usize>, level: Seq<int>, pred: Seq<usize>, head: int, k: int) -> bool {
    &&& forall|e: int| 0 <= e < k ==> lis_end(v, e) == #[trigger] level[e] + 1
    &&& forall|p: int, j: int|
        0 <= p < tops.len() && #[trigger] tops[p] < j < k ==> #[trigger] level[j] != p
    &&& forall|e: int| 0 <= e < head ==> #[trigger] level[e] < tops.len() - 1
    &&& forall|e: int, j: int|
        0 <= e < k && #[trigger] level[e] > 0 && pred[e] < j < e ==> #[trigger] level[j] != level[e] - 1
}

proof fn lemma_links<T: Ord>(
    v: Seq<T>,
    tops: Seq<usize>,
    level: Seq<int>,
    pred: Seq<usize>,
    head: int,
    k: int,
    lo: int,
    t2: Seq<usize>,
    p2: Seq<usize>,
    h2: int,
)
    requires
        obeys_cmp::<T>(),
        piles_inv(v, tops, level, k),
        links_inv(v, tops, level, pred, head, k),
        k < v.len(),
        k <= usize::MAX,
        pred.len() == k,
        0 <= head < k,
        0 <= lo <= tops.len(),
        forall|p: int| 0 <= p < lo ==> precedes(v[#[trigger] tops[p] as int], v[k]),
        forall|p: int| lo <= p < tops.len() ==> !precedes(v[#[trigger] tops[p] as int], v[k]),
        lo == tops.len() ==> t2 == tops.push(k as usize) && h2 == k,
        lo < tops.len() ==> t2 == tops.update(lo, k as usize) && h2 == head,
        p2 == pred.push(if lo > 0 { tops[lo - 1] } else { 0 }),
    ensures
        links_inv(v, t2, level.push(lo), p2, h2, k + 1),
{
    let l2 = level.push(lo);
    lemma_lis_end_at(v, tops, level, k, lo);
    assert forall|e: int| 0 <= e < k + 1 implies lis_end(v, e) == #[trigger] l2[e] + 1 by {
        if e < k {
            assert(l2[e] == level[e]);
        }
    }
    assert forall|p: int, j: int| 0 <= p < t2.len() && #[trigger] t2[p] < j < k + 1 implies #[trigger] l2[j] != p by {
        if p != lo {
            assert(t2[p] == tops[p]);
            if j < k {
                assert(l2[j] == level[j]);
            }
        }
    }
    assert forall|e: int| 0 <= e < h2 implies #[trigger] l2[e] < t2.len() - 1 by {
        assert(l2[e] == level[e]);
    }
    assert forall|e: int, j: int| 0 <= e < k + 1 && #[trigger] l2[e] > 0 && p2[e] < j < e implies #[trigger] l2[j]
        != l2[e] - 1 by {
        assert(l2[j] == level[j]);
        if e < k {
            assert(l2[e] == level[e]);
            assert(p2[e] == pred[e]);
        } else {
            assert(p2[e] == tops[lo - 1]);
        }
    }
}

proof fn lemma_short_choice<T: PartialOrd>(v: Seq<T>)
    requires
        v.len() < 2,
    ensures
        patience_choice(v, Seq::new(v.len(), |k: int| k)),
{
    reveal(lis_upto);
    let idx = Seq::new(v.len(), |k: int| k);
    if v.len() == 1 {
        assert(lis_end(v, 0) == 1);
        assert(idx[0] == 0);
    }
}

/// Along a strictly increasing subsequence, picked by `idx`, the pile
/// reached by element `t` is at least `t`.
proof fn lemma_climb<T: Ord>(v: Seq<T>, tops: Seq<usize>, level: Seq<int>, sub: Seq<T>, idx: Seq<int>, t: int)
    requires
        piles_inv(v, tops, level, v.len() as int),
        selects(sub, v, idx),
        strictly_increasing(sub),
        0 <= t < sub.len(),
    ensures
        level[idx[t]] >= t,
    decreases t,
{
    if t > 0 {
        lemma_climb(v, tops, level, sub, idx, t - 1);
        assert(precedes(sub[t - 1], sub[t]));
        assert(idx[t - 1] < idx[t]);
        assert(level[idx[t - 1]] < level[idx[t]]);
    } else {
        assert(0 <= level[idx[0]]);
    }
}

/// A strictly increasing subsequence climbs at least one pile per element,
/// so it is no longer than the number of piles.
proof fn lemma_no_longer<T: Ord>(v: Seq<T>, tops: Seq<usize>, level: Seq<int>, sub: Seq<T>)
    requires
        piles_inv(v, tops, level, v.len() as int),
        is_subsequence(sub, v),
        strictly_increasing(sub),
    ensures
        sub.len() <= tops.len(),
{
    let idx = choose|idx: Seq<int>| selects(sub, v, idx);
    if sub.len() > 0 {
        lemma_climb(v, tops, level, sub, idx, sub.len() - 1);
        assert(level[idx[sub.len() - 1]] < tops.len());
    }
}

/// Returns a longest strictly increasing subsequence of `v`, found by
/// patience sorting: each element goes on the leftmost pile whose top does
/// not precede it (or on a new pile at the right), remembering the top of
/// the pile to its left; the chain of those links from the bottom of the
/// rightmost pile, read backwards, is the result.
#[verifier::rlimit(60)]
pub fn longest_increasing_subsequence<T: Ord + Copy>(v: &Vec<T>) -> (r: Vec<T>)
    requires
        obeys_cmp::<T>(),
    ensures
        is_subsequence(r@, v@),
        strictly_increasing(r@),
        r@.len() == 0 <==> v@.len() == 0,
        forall|sub: Seq<T>| #[trigger] is_subsequence(sub, v@) && strictly_increasing(sub) ==> sub.len() <= r@.len(),
        v@.len() < 2 ==> r@ == v@,
        strictly_increasing(v@) ==> r@ == v@,
        exists|idx: Seq<int>| selects(r@, v@, idx) && patience_choice(v@, idx),
{
    let n = v.len();
    if n < 2 {
        let mut r: Vec<T> = Vec::new();
        if n == 1 {
            r.push(v[0]);
        }
        assert(selects(r@, v@, Seq::new(n as nat, |k: int| k)));
        assert(r@ =~= v@);
        proof {
            lemma_short_choice(v@);
        }
        assert forall|sub: Seq<T>| #[trigger] is_subsequence(sub, v@) && strictly_increasing(sub) implies sub.len()
            <= r@.len() by {
            let idx = choose|idx: Seq<int>| selects(sub, v@, idx);
            if sub.len() > 0 {
                assert(0 <= idx[0] < v@.len());
            }
            if sub.len() > 1 {
                assert(idx[0] < idx[1]);
                assert(0 <= idx[1] < v@.len());
            }
        }
        return r;
    }
    // tops[p]: position in `v` of the current top of pile p
    let mut tops: Vec<usize> = vec![0];
    // pred[e]: position of the top of the pile to the left when v[e] was placed
    let mut pred: Vec<usize> = vec![0];
    // first element placed on the rightmost pile
    let mut head: usize = 0;
    // level[e]: the pile v[e] was placed on
    let ghost mut level: Seq<int> = seq![0int];
    let mut k: usize = 1;
    proof {
        lemma_irreflexive(v@[0]);
        reveal(lis_upto);
        assert(lis_end(v@, 0) == 1);
    }
    while k < n
        invariant
            1 <= k <= n,
            n == v@.len(),
            obeys_cmp::<T>(),
            piles_inv(v@, tops@, level, k as int),
            links_inv(v@, tops@, level, pred@, head as int, k as int),
            pred@.len() == k,
            forall|e: int|
                0 <= e < k && #[trigger] level[e] > 0 ==> {
                    &&& pred@[e] < e
                    &&& level[pred@[e] as int] == level[e] - 1
                    &&& precedes(v@[pred@[e] as int], v@[e])
                },
            head < k,
            level[head as int] == tops@.len() - 1,
            strictly_increasing(v@.take(k as int)) ==> {
                &&& tops@.len() == k
                &&& head == k - 1
                &&& forall|e: int| 0 <= e < k ==> #[trigger] tops@[e] == e && level[e] == e
                &&& forall|e: int| 0 < e < k ==> #[trigger] pred@[e] == e - 1
            },
        decreases n - k,
    {
        let x = v[k];
        let lo = leftmost_pile(v, &tops, x, k);
        let ghost old_tops = tops@;
        let ghost old_pred = pred@;
        let ghost old_head = head as int;
        if lo > 0 {
            pred.push(tops[lo - 1]);
        } else {
            pred.push(0);
        }
        if lo == tops.len() {
            tops.push(k);
            head = k;
        } else {
            tops.set(lo, k);
        }
        proof {
            lemma_place(v@, old_tops, level, k as int, lo as int, tops@);
            lemma_links(v@, old_tops, level, old_pred, old_head, k as int, lo as int, tops@, pred@, head as int);
            level = level.push(lo as int);
            if lo > 0 {
                assert(precedes(v@[old_tops[lo - 1] as int], x));
            }
            if strictly_increasing(v@.take(k + 1)) {
                assert(strictly_increasing(v@.take(k as int))) by {
                    assert forall|i: int, j: int| 0 <= i < j < k implies precedes(
                        #[trigger] v@.take(k as int)[i],
                        #[trigger] v@.take(k as int)[j],
                    ) by {
                        assert(v@.take(k as int)[i] == v@.take(k + 1)[i]);
                        assert(v@.take(k as int)[j] == v@.take(k + 1)[j]);
                    }
                }
                assert forall|p: int| 0 <= p < old_tops.len() implies precedes(
                    v@[#[trigger] old_tops[p] as int],
                    x,
                ) by {
                    assert(v@.take(k + 1)[p] == v@[p]);
                    assert(v@.take(k + 1)[k as int] == v@[k as int]);
                }
            }
        }
        k += 1;
    }
    proof {
        if strictly_increasing(v@) {
            assert(v@.take(n as int) =~= v@);
        }
        assert forall|sub: Seq<T>| #[trigger] is_subsequence(sub, v@) && strictly_increasing(sub) implies sub.len()
            <= tops@.len() by {
            lemma_no_longer(v@, tops@, level, sub);
        }
    }
    let m = tops.len();
    // walk the links from the bottom of the rightmost pile down to pile 0
    let mut rev: Vec<T> = Vec::new();
    let ghost mut rev_idx: Seq<int> = Seq::empty();
    let mut cur: usize = head;
    let mut i: usize = m;
    while i > 0
        invariant
            0 <= i <= m,
            m == tops@.len(),
            1 <= m <= n,
            n == v@.len(),
            obeys_cmp::<T>(),
            pred@.len() == n,
            level.len() == n,
            forall|e: int| 0 <= e < n ==> 0 <= #[trigger] level[e] < m,
            forall|e: int|
                0 <= e < n && #[trigger] level[e] > 0 ==> {
                    &&& pred@[e] < e
                    &&& level[pred@[e] as int] == level[e] - 1
                    &&& precedes(v@[pred@[e] as int], v@[e])
                },
            i > 0 ==> cur < n && level[cur as int] == i - 1,
            links_inv(v@, tops@, level, pred@, head as int, n as int),
            forall|e: int| 0 <= e < head ==> #[trigger] level[e] < m - 1,
            head < n,
            level[head as int] == m - 1,
            i == m ==> cur == head,
            rev_idx.len() > 0 ==> rev_idx[0] == head,
            forall|t: int| 0 <= t < rev_idx.len() ==> #[trigger] level[rev_idx[t]] == m - 1 - t,
            forall|u: int| 0 < u < rev_idx.len() ==> #[trigger] rev_idx[u] == pred@[rev_idx[u - 1]],
            i > 0 && rev@.len() > 0 ==> cur == pred@[rev_idx.last()],
            rev@.len() == m - i,
            rev_idx.len() == rev@.len(),
            forall|t: int| 0 <= t < rev_idx.len() ==> 0 <= #[trigger] rev_idx[t] < n && rev@[t] == v@[rev_idx[t]],
            forall|s: int, t: int| 0 <= s < t < rev_idx.len() ==> #[trigger] rev_idx[t] < #[trigger] rev_idx[s],
            forall|s: int, t: int| 0 <= s < t < rev_idx.len() ==> precedes(#[trigger] rev@[t], #[trigger] rev@[s]),
            i > 0 && rev@.len() > 0 ==> cur < rev_idx.last() && precedes(v@[cur as int], rev@.last()),
            strictly_increasing(v@) ==> {
                &&& m == n
                &&& forall|e: int| 0 < e < n ==> #[trigger] pred@[e] == e - 1
                &&& i > 0 ==> cur == i - 1
                &&& forall|t: int| 0 <= t < rev@.len() ==> #[trigger] rev_idx[t] == n - 1 - t
            },
        decreases i,
    {
        let ghost old_rev = rev@;
        rev.push(v[cur]);
        proof {
            rev_idx = rev_idx.push(cur as int);
            assert forall|s: int, t: int| 0 <= s < t < rev_idx.len() implies precedes(
                #[trigger] rev@[t],
                #[trigger] rev@[s],
            ) by {
                if t == rev_idx.len() - 1 && s < t - 1 {
                    lemma_precedes_transitive(rev@[t], old_rev.last(), rev@[s]);
                }
            }
        }
        i -= 1;
        if i > 0 {
            cur = pred[cur];
        }
    }
    let mut out: Vec<T> = Vec::new();
    let mut t: usize = rev.len();
    while t > 0
        invariant
            0 <= t <= rev@.len(),
            out@.len() == rev@.len() - t,
            forall|s: int| 0 <= s < out@.len() ==> #[trigger] out@[s] == rev@[rev@.len() - 1 - s],
        decreases t,
    {
        t -= 1;
        out.push(rev[t]);
    }
    proof {
        let idx = Seq::new(m as nat, |s: int| rev_idx[m - 1 - s]);
        assert(selects(out@, v@, idx));
        assert forall|t: int| 0 <= t < m implies lis_end(v@, #[trigger] idx[t]) == t + 1 by {
            assert(level[rev_idx[m - 1 - t]] == t);
        }
        assert forall|e: int| 0 <= e < v@.len() implies #[trigger] lis_end(v@, e) <= m by {
            assert(lis_end(v@, e) == level[e] + 1);
        }
        assert forall|e: int| 0 <= e < idx[m - 1] implies #[trigger] lis_end(v@, e) < m by {
            assert(lis_end(v@, e) == level[e] + 1);
        }
        assert forall|t: int, j: int| 0 <= t < m - 1 && #[trigger] idx[t] < j < idx[t + 1] implies #[trigger] lis_end(
            v@,
            j,
        ) != t + 1 by {
            let u = m - 1 - t;
            assert(rev_idx[u] == pred@[rev_idx[u - 1]]);
            assert(level[rev_idx[u - 1]] == t + 1);
            assert(lis_end(v@, j) == level[j] + 1);
        }
        assert(patience_choice(v@, idx));
        assert(strictly_increasing(out@));
        if strictly_increasing(v@) {
            assert(strictly_increasing(v@.take(n as int))) by {
                assert(v@.take(n as int) =~= v@);
            }
            assert forall|s: int| 0 <= s < n implies out@[s] == v@[s] by {
                assert(rev_idx[m - 1 - s] == n - 1 - (m - 1 - s));
            }
            assert(out@ =~= v@);
        }
    }
    out
}

} // verus!
