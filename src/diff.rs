//! The diff engine: splits the two sequences on anchors (tokens found exactly
//! once on each side) and reports what lies between them as hunks.

use std::collections::HashMap;
use std::hash::Hash;
use vstd::laws_eq::obeys_concrete_eq;
use vstd::prelude::*;
use vstd::std_specs::cmp::PartialEqSpec;
use vstd::std_specs::hash::obeys_key_model;
use crate::lis::{longest_increasing_subsequence, precedes, selects};

verus! {

/// A half-open interval `[start, end)` of positions in one sequence.
#[derive(Debug, Clone, Copy, PartialEq, Eq, PartialOrd, Ord, Hash)]
pub struct Range {
    pub start: usize,
    pub end: usize,
}

/// Positions `remove` of the old sequence are replaced by positions `insert`
/// of the new one.
#[derive(Debug, Clone, Copy, PartialEq, Eq, PartialOrd, Ord, Hash)]
pub struct Hunk {
    pub remove: Range,
    pub insert: Range,
}

/// How often a token occurs in the part of a sequence under study.
pub enum UniqueCheck {
    /// exactly once, at this position
    Line(usize),
    /// more than once
    Duplicated,
}

/// `x` occurs in `s[lo..hi)`.
pub open spec fn occurs<T>(s: Seq<T>, lo: int, hi: int, x: T) -> bool {
    exists|i: int| lo <= i < hi && s[i] == x
}

/// `i` is the only position of `s[lo..hi)` that holds `x`.
pub open spec fn sole_position<T>(s: Seq<T>, lo: int, hi: int, x: T, i: int) -> bool {
    &&& lo <= i < hi
    &&& s[i] == x
    &&& forall|j: int| lo <= j < hi && j != i ==> s[j] != x
}

/// `x` occurs at least twice in `s[lo..hi)`.
pub open spec fn occurs_twice<T>(s: Seq<T>, lo: int, hi: int, x: T) -> bool {
    exists|i: int, j: int| lo <= i < j < hi && s[i] == x && s[j] == x
}

/// `m` records, for each token of `s[lo..hi)`, its position if it occurs there
/// once and `Duplicated` otherwise, and holds no other token.
pub open spec fn is_uniqueness_map<T>(m: Map<T, UniqueCheck>, s: Seq<T>, lo: int, hi: int) -> bool {
    &&& forall|x: T| #[trigger] m.contains_key(x) <==> occurs(s, lo, hi, x)
    &&& forall|x: T|
        #[trigger] m.contains_key(x) ==> match m[x] {
            UniqueCheck::Line(i) => sole_position(s, lo, hi, x, i as int),
            UniqueCheck::Duplicated => occurs_twice(s, lo, hi, x),
        }
}

/// Maps each token of `s[lo..hi)` to its position if it occurs there exactly
/// once, and to `Duplicated` if it occurs more often.
pub fn unique_check<T: Eq + Hash + Copy>(s: &Vec<T>, lo: usize, hi: usize) -> (m: HashMap<T, UniqueCheck>)
    requires
        lo <= hi <= s@.len(),
        obeys_key_model::<T>(),
    ensures
        is_uniqueness_map(m@, s@, lo as int, hi as int),
{
    let mut m: HashMap<T, UniqueCheck> = HashMap::new();
    let mut ix: usize = lo;
    while ix < hi
        invariant
            lo <= ix <= hi <= s@.len(),
            obeys_key_model::<T>(),
            is_uniqueness_map(m@, s@, lo as int, ix as int),
        decreases hi - ix,
    {
        let x = s[ix];
        let ghost old_m = m@;
        let seen = match m.get(&x) {
            None => 0u8,
            Some(UniqueCheck::Line(_)) => 1u8,
            Some(UniqueCheck::Duplicated) => 2u8,
        };
        if seen == 0 {
            m.insert(x, UniqueCheck::Line(ix));
        } else if seen == 1 {
            m.insert(x, UniqueCheck::Duplicated);
        }
        proof {
            let n = ix + 1;
            assert forall|y: T| #[trigger] m@.contains_key(y) <==> occurs(s@, lo as int, n as int, y) by {
                if occurs(s@, lo as int, n as int, y) && y != x {
                    let i = choose|i: int| lo <= i < n && s@[i] == y;
                    assert(occurs(s@, lo as int, ix as int, y));
                }
                if y == x {
                    assert(s@[ix as int] == x);
                }
            }
            assert forall|y: T| #[trigger] m@.contains_key(y) implies match m@[y] {
                UniqueCheck::Line(i) => sole_position(s@, lo as int, n as int, y, i as int),
                UniqueCheck::Duplicated => occurs_twice(s@, lo as int, n as int, y),
            } by {
                if y == x {
                    if seen == 0 {
                        assert(!occurs(s@, lo as int, ix as int, x));
                    } else if seen == 1 {
                        match old_m[x] {
                            UniqueCheck::Line(i) => {
                                assert(s@[i as int] == x && s@[ix as int] == x);
                            },
                            _ => {},
                        }
                    } else {
                        let (i, j) = choose|i: int, j: int| lo <= i < j < ix && s@[i] == x && s@[j] == x;
                        assert(lo <= i < j < n && s@[i] == x && s@[j] == x);
                    }
                } else {
                    match m@[y] {
                        UniqueCheck::Line(i) => {
                            assert(s@[ix as int] != y);
                        },
                        UniqueCheck::Duplicated => {
                            let (i, j) = choose|i: int, j: int| lo <= i < j < ix && s@[i] == y && s@[j] == y;
                            assert(lo <= i < j < n && s@[i] == y && s@[j] == y);
                        },
                    }
                }
            }
        }
        ix += 1;
    }
    m
}

/// `a[a_lo..a_hi)` and `b[b_lo..b_hi)` lie within the sequences and hold the
/// same tokens in the same order.
pub open spec fn spans_match<T>(a: Seq<T>, b: Seq<T>, a_lo: int, a_hi: int, b_lo: int, b_hi: int) -> bool {
    &&& 0 <= a_lo <= a_hi <= a.len()
    &&& 0 <= b_lo <= b_hi <= b.len()
    &&& a.subrange(a_lo, a_hi) == b.subrange(b_lo, b_hi)
}

/// Both ranges are intervals and at least one of them is not empty.
pub open spec fn hunk_wf(h: Hunk) -> bool {
    &&& h.remove.start <= h.remove.end
    &&& h.insert.start <= h.insert.end
    &&& (h.remove.start < h.remove.end || h.insert.start < h.insert.end)
}

/// Start in the old sequence of the kept span before hunk `i` (the spans
/// start at `fa`).
pub open spec fn kept_a_start(hs: Seq<Hunk>, fa: int, i: int) -> int {
    if i == 0 { fa } else { hs[i - 1].remove.end as int }
}

/// End in the old sequence of the kept span before hunk `i` (the last one
/// ends at `na`).
pub open spec fn kept_a_end(hs: Seq<Hunk>, na: int, i: int) -> int {
    if i == hs.len() { na } else { hs[i].remove.start as int }
}

/// Start in the new sequence of the kept span before hunk `i`.
pub open spec fn kept_b_start(hs: Seq<Hunk>, fb: int, i: int) -> int {
    if i == 0 { fb } else { hs[i - 1].insert.end as int }
}

/// End in the new sequence of the kept span before hunk `i`.
pub open spec fn kept_b_end(hs: Seq<Hunk>, nb: int, i: int) -> int {
    if i == hs.len() { nb } else { hs[i].insert.start as int }
}

/// The spans that `hs` leaves untouched from `a[fa..]` and from `b[fb..]`
/// (before the first hunk, between two hunks, after the last one) match one
/// for one.
pub open spec fn kept_spans_match<T>(a: Seq<T>, b: Seq<T>, fa: int, fb: int, hs: Seq<Hunk>) -> bool {
    forall|i: int|
        0 <= i <= hs.len() ==> spans_match(
            a,
            b,
            #[trigger] kept_a_start(hs, fa, i),
            kept_a_end(hs, a.len() as int, i),
            kept_b_start(hs, fb, i),
            kept_b_end(hs, b.len() as int, i),
        )
}

/// `hs` turns `a[fa..]` into `b[fb..]`: each hunk replaces a span of `a` by a
/// span of `b`, and what lies between the hunks is the same on both sides.
pub open spec fn script_from<T>(a: Seq<T>, b: Seq<T>, fa: int, fb: int, hs: Seq<Hunk>) -> bool {
    &&& forall|i: int| 0 <= i < hs.len() ==> hunk_wf(#[trigger] hs[i])
    &&& kept_spans_match(a, b, fa, fb, hs)
}

/// `hs` is an edit script from `a` to `b`.
pub open spec fn is_edit_script<T>(a: Seq<T>, b: Seq<T>, hs: Seq<Hunk>) -> bool {
    script_from(a, b, 0, 0, hs)
}

/// Each hunk ends, on both sides, no later than the next one starts.
pub open spec fn hunks_ordered(hs: Seq<Hunk>) -> bool {
    forall|i: int, j: int|
        0 <= i && j == i + 1 && j < hs.len() ==> (#[trigger] hs[i]).remove.end <= (#[trigger] hs[j]).remove.start
            && hs[i].insert.end <= hs[j].insert.start
}

/// No token occurs exactly once in `a[a0..a1)` and exactly once in
/// `b[b0..b1)`: the span has no anchor.
pub open spec fn no_anchor<T>(a: Seq<T>, b: Seq<T>, a0: int, a1: int, b0: int, b1: int) -> bool {
    forall|i: int, j: int|
        a0 <= i < a1 && b0 <= j < b1 && #[trigger] a[i] == #[trigger] b[j] ==> !(sole_position(a, a0, a1, a[i], i)
            && sole_position(b, b0, b1, b[j], j))
}

/// What the engine reports as a hunk: where both sides are non-empty they
/// differ at the first and at the last position, and there is no anchor
/// inside.
pub open spec fn is_settled_hunk<T>(a: Seq<T>, b: Seq<T>, h: Hunk) -> bool {
    let (a0, a1, b0, b1) = (h.remove.start as int, h.remove.end as int, h.insert.start as int, h.insert.end as int);
    &&& a0 < a1 && b0 < b1 ==> a[a0] != b[b0] && a[a1 - 1] != b[b1 - 1]
    &&& no_anchor(a, b, a0, a1, b0, b1)
}

/// No token of `a` equals a token of `b`.
pub open spec fn disjoint<T>(a: Seq<T>, b: Seq<T>) -> bool {
    forall|i: int, j: int| 0 <= i < a.len() && 0 <= j < b.len() ==> a[i] != b[j]
}

/// Length of the common prefix of `a` and `b`, counting on from position `i`.
#[verifier::opaque]
pub open spec fn prefix_from<T>(a: Seq<T>, b: Seq<T>, i: int) -> int
    decreases a.len() - i,
{
    if 0 <= i < a.len() && i < b.len() && a[i] == b[i] {
        prefix_from(a, b, i + 1)
    } else {
        i
    }
}

/// Length of the longest common prefix of `a` and `b`.
pub open spec fn common_prefix<T>(a: Seq<T>, b: Seq<T>) -> int {
    prefix_from(a, b, 0)
}

/// Length of the common suffix of `a[p..]` and `b[p..]`, counting on from `k`.
#[verifier::opaque]
pub open spec fn suffix_from<T>(a: Seq<T>, b: Seq<T>, p: int, k: int) -> int
    decreases a.len() - k,
{
    if 0 <= k && 0 <= p && a.len() - 1 - k >= p && b.len() - 1 - k >= p && a[a.len() - 1 - k] == b[b.len() - 1 - k] {
        suffix_from(a, b, p, k + 1)
    } else {
        k
    }
}

/// Length of the longest common suffix of what follows the common prefix.
pub open spec fn common_suffix<T>(a: Seq<T>, b: Seq<T>) -> int {
    suffix_from(a, b, common_prefix(a, b), 0)
}

proof fn lemma_prefix_from<T>(a: Seq<T>, b: Seq<T>, i: int)
    requires
        0 <= i <= a.len(),
        i <= b.len(),
    ensures
        i <= prefix_from(a, b, i) <= a.len(),
        prefix_from(a, b, i) <= b.len(),
        prefix_from(a, b, i) < a.len() && prefix_from(a, b, i) < b.len() ==> a[prefix_from(a, b, i)] != b[prefix_from(
            a,
            b,
            i,
        )],
        forall|j: int| i <= j < prefix_from(a, b, i) ==> a[j] == b[j],
    decreases a.len() - i,
{
    reveal(prefix_from);
    if i < a.len() && i < b.len() && a[i] == b[i] {
        lemma_prefix_from(a, b, i + 1);
    }
}

proof fn lemma_suffix_from<T>(a: Seq<T>, b: Seq<T>, p: int, k: int)
    requires
        0 <= k,
        0 <= p,
        a.len() - k >= p,
        b.len() - k >= p,
    ensures
        k <= suffix_from(a, b, p, k),
        a.len() - suffix_from(a, b, p, k) >= p,
        b.len() - suffix_from(a, b, p, k) >= p,
        ({
            let s = suffix_from(a, b, p, k);
            !(a.len() - 1 - s >= p && b.len() - 1 - s >= p && a[a.len() - 1 - s] == b[b.len() - 1 - s])
        }),
    decreases a.len() - k,
{
    reveal(suffix_from);
    if a.len() - 1 - k >= p && b.len() - 1 - k >= p && a[a.len() - 1 - k] == b[b.len() - 1 - k] {
        lemma_suffix_from(a, b, p, k + 1);
    }
}

/// An edit script whose hunks lie between the common prefix and the common
/// suffix starts its first hunk right after the prefix and ends its last one
/// right before the suffix.
proof fn lemma_script_ends<T>(a: Seq<T>, b: Seq<T>, hs: Seq<Hunk>)
    requires
        is_edit_script(a, b, hs),
        hs.len() > 0,
        forall|i: int|
            0 <= i < hs.len() ==> common_prefix(a, b) <= (#[trigger] hs[i]).remove.start && hs[i].remove.end <= a.len()
                - common_suffix(a, b) && common_prefix(a, b) <= hs[i].insert.start && hs[i].insert.end <= b.len()
                - common_suffix(a, b),
    ensures
        hs[0].remove.start == common_prefix(a, b),
        hs[0].insert.start == common_prefix(a, b),
        hs.last().remove.end == a.len() - common_suffix(a, b),
        hs.last().insert.end == b.len() - common_suffix(a, b),
{
    let p = common_prefix(a, b);
    lemma_prefix_from(a, b, 0);
    lemma_suffix_from(a, b, p, 0);
    let s = common_suffix(a, b);
    let n = hs.len() as int;
    assert(spans_match(a, b, kept_a_start(hs, 0, 0), kept_a_end(hs, a.len() as int, 0), kept_b_start(hs, 0, 0), kept_b_end(hs, b.len() as int, 0)));
    assert(spans_match(a, b, kept_a_start(hs, 0, n), kept_a_end(hs, a.len() as int, n), kept_b_start(hs, 0, n), kept_b_end(hs, b.len() as int, n)));
    let x = hs[0].remove.start as int;
    assert(a.subrange(0, x).len() == b.subrange(0, hs[0].insert.start as int).len());
    if x > p {
        assert(a.subrange(0, x)[p] == b.subrange(0, x)[p]);
    }
    let h = hs[n - 1];
    assert(hs.last() == h);
    let y = a.len() - h.remove.end;
    assert(a.subrange(h.remove.end as int, a.len() as int).len() == b.subrange(h.insert.end as int, b.len() as int).len());
    if y > s {
        assert(a.subrange(h.remove.end as int, a.len() as int)[y - 1 - s] == b.subrange(h.insert.end as int, b.len() as int)[y - 1 - s]);
    }
}

proof fn lemma_join_spans<T>(a: Seq<T>, b: Seq<T>, x0: int, x1: int, x2: int, y0: int, y1: int, y2: int)
    requires
        spans_match(a, b, x0, x1, y0, y1),
        spans_match(a, b, x1, x2, y1, y2),
    ensures
        spans_match(a, b, x0, x2, y0, y2),
{
    assert(a.subrange(x0, x2) =~= a.subrange(x0, x1) + a.subrange(x1, x2));
    assert(b.subrange(y0, y2) =~= b.subrange(y0, y1) + b.subrange(y1, y2));
}

proof fn lemma_extend_left<T>(a: Seq<T>, b: Seq<T>, x: int, y: int, fa: int, fb: int, hs: Seq<Hunk>)
    requires
        spans_match(a, b, x, fa, y, fb),
        script_from(a, b, fa, fb, hs),
    ensures
        script_from(a, b, x, y, hs),
{
    assert(kept_a_start(hs, fa, 0) == fa);
    lemma_join_spans(a, b, x, fa, kept_a_end(hs, a.len() as int, 0), y, fb, kept_b_end(hs, b.len() as int, 0));
    assert forall|i: int| 0 <= i <= hs.len() implies spans_match(
        a,
        b,
        #[trigger] kept_a_start(hs, x, i),
        kept_a_end(hs, a.len() as int, i),
        kept_b_start(hs, y, i),
        kept_b_end(hs, b.len() as int, i),
    ) by {
        if i > 0 {
            assert(kept_a_start(hs, fa, i) == kept_a_start(hs, x, i));
        }
    }
}

proof fn lemma_prepend<T>(a: Seq<T>, b: Seq<T>, x: int, y: int, h: Hunk, hs: Seq<Hunk>)
    requires
        spans_match(a, b, x, h.remove.start as int, y, h.insert.start as int),
        hunk_wf(h),
        script_from(a, b, h.remove.end as int, h.insert.end as int, hs),
    ensures
        script_from(a, b, x, y, seq![h] + hs),
{
    let hs2 = seq![h] + hs;
    assert forall|i: int| 0 <= i < hs2.len() implies hunk_wf(#[trigger] hs2[i]) by {
        if i > 0 {
            assert(hs2[i] == hs[i - 1]);
        }
    }
    assert forall|i: int| 0 <= i <= hs2.len() implies spans_match(
        a,
        b,
        #[trigger] kept_a_start(hs2, x, i),
        kept_a_end(hs2, a.len() as int, i),
        kept_b_start(hs2, y, i),
        kept_b_end(hs2, b.len() as int, i),
    ) by {
        if i > 0 {
            assert(kept_a_start(hs, h.remove.end as int, i - 1) == kept_a_start(hs2, x, i));
            assert(kept_a_end(hs, a.len() as int, i - 1) == kept_a_end(hs2, a.len() as int, i));
            assert(kept_b_start(hs, h.insert.end as int, i - 1) == kept_b_start(hs2, y, i));
            assert(kept_b_end(hs, b.len() as int, i - 1) == kept_b_end(hs2, b.len() as int, i));
        }
    }
}

proof fn lemma_script_ordered<T>(a: Seq<T>, b: Seq<T>, fa: int, fb: int, hs: Seq<Hunk>)
    requires
        script_from(a, b, fa, fb, hs),
    ensures
        hunks_ordered(hs),
{
    assert forall|i: int, j: int| 0 <= i && j == i + 1 && j < hs.len() implies (#[trigger] hs[i]).remove.end
        <= (#[trigger] hs[j]).remove.start && hs[i].insert.end <= hs[j].insert.start by {
        assert(kept_a_start(hs, fa, j) == hs[i].remove.end);
    }
}

/// Number of tokens, on both sides together, in a work item
/// `(a_start, b_start, a_end, b_end)`.
spec fn work_size(w: (usize, usize, usize, usize)) -> nat {
    ((w.2 - w.0) + (w.3 - w.1)) as nat
}

/// Sum over the work items of their squared sizes plus one each; every step
/// of the engine lowers it.
spec fn queue_measure(q: Seq<(usize, usize, usize, usize)>) -> nat
    decreases q.len(),
{
    if q.len() == 0 {
        0
    } else {
        queue_measure(q.drop_last()) + work_weight(q.last())
    }
}

#[verifier::opaque]
spec fn work_weight(w: (usize, usize, usize, usize)) -> nat {
    work_size(w) * work_size(w) + 1
}

/// The items `q[from..]` are intervals on both sides that follow one another
/// without gaps from `(a0, b0)` to `(a1, b1)`.
pub open spec fn pieces_tile(q: Seq<(usize, usize, usize, usize)>, from: int, a0: int, b0: int, a1: int, b1: int) -> bool {
    &&& from < q.len()
    &&& q[from].0 == a0 && q[from].1 == b0
    &&& q.last().2 == a1 && q.last().3 == b1
    &&& forall|j: int|
        from <= j < q.len() ==> a0 <= (#[trigger] q[j]).0 <= q[j].2 <= a1 && b0 <= q[j].1 <= q[j].3 <= b1
    &&& forall|i: int, j: int|
        from <= i && j == i + 1 && j < q.len() ==> (#[trigger] q[i]).2 == (#[trigger] q[j]).0 && q[i].3 == q[j].1
}

/// What the engine knows of a chain of anchors `(b position, a position)`
/// inside the work item `a[a0..a1)`, `b[b0..b1)`.
pub open spec fn anchor_chain(c: Seq<(usize, usize)>, a0: int, b0: int, a1: int, b1: int) -> bool {
    &&& forall|k: int| 0 <= k < c.len() ==> a0 <= (#[trigger] c[k]).1 < a1 && b0 <= c[k].0 < b1
    &&& forall|k: int, l: int| 0 <= k < l < c.len() ==> (#[trigger] c[k]).1 < (#[trigger] c[l]).1
    &&& forall|k: int, l: int| 0 <= k < l < c.len() ==> (#[trigger] c[k]).0 < (#[trigger] c[l]).0
}

#[verifier::opaque]
spec fn sq(x: int) -> int {
    x * x
}

proof fn lemma_measure_push(q: Seq<(usize, usize, usize, usize)>, w: (usize, usize, usize, usize))
    ensures
        queue_measure(q.push(w)) == queue_measure(q) + sq(work_size(w) as int) + 1,
{
    assert(q.push(w).drop_last() =~= q);
    reveal(work_weight);
    reveal(sq);
}

proof fn lemma_measure_pop(q: Seq<(usize, usize, usize, usize)>, w: (usize, usize, usize, usize))
    requires
        q.len() > 0,
        q.last() == w,
    ensures
        queue_measure(q) == queue_measure(q.drop_last()) + sq(work_size(w) as int) + 1,
        queue_measure(q.drop_last()) < queue_measure(q),
{
    reveal(work_weight);
    reveal(sq);
}

proof fn lemma_sq_le(x: int, y: int)
    requires
        0 <= x <= y,
    ensures
        sq(x) <= sq(y),
{
    reveal(sq);
    assert(x * x <= y * y) by (nonlinear_arith)
        requires
            0 <= x <= y,
    ;
}

proof fn lemma_sq_split(x: int, y: int)
    requires
        x >= 1,
        y >= 1,
    ensures
        sq(x) + 1 + sq(y) + 1 <= sq(x + y),
{
    reveal(sq);
    assert(x * x + 1 + y * y + 1 <= (x + y) * (x + y)) by (nonlinear_arith)
        requires
            x >= 1,
            y >= 1,
    ;
}

proof fn lemma_tile_push(
    q: Seq<(usize, usize, usize, usize)>,
    base: int,
    a0: int,
    b0: int,
    pa: int,
    pb: int,
    w: (usize, usize, usize, usize),
)
    requires
        0 <= base <= q.len(),
        q.len() == base ==> pa == a0 && pb == b0,
        q.len() > base ==> pieces_tile(q, base, a0, b0, pa, pb),
        a0 <= pa && b0 <= pb,
        w.0 == pa && w.1 == pb,
        w.0 <= w.2 && w.1 <= w.3,
    ensures
        pieces_tile(q.push(w), base, a0, b0, w.2 as int, w.3 as int),
{
    let q2 = q.push(w);
    assert forall|j: int| base <= j < q2.len() implies a0 <= (#[trigger] q2[j]).0 <= q2[j].2 <= w.2 && b0 <= q2[j].1
        <= q2[j].3 <= w.3 by {
        if j < q.len() {
            assert(q2[j] == q[j]);
        }
    }
    assert forall|i: int, j: int| base <= i && j == i + 1 && j < q2.len() implies (#[trigger] q2[i]).2 == (
    #[trigger] q2[j]).0 && q2[i].3 == q2[j].1 by {
        assert(q2[i] == q[i]);
        if j < q.len() {
            assert(q2[j] == q[j]);
        }
    }
}
/// Pushes the sub-problems between consecutive anchors, with `(a0, b0)` and
/// `(a1, b1)` as the outer bounds.
fn push_pieces(
    queue: &mut Vec<(usize, usize, usize, usize)>,
    anchors: &Vec<(usize, usize)>,
    a0: usize,
    b0: usize,
    a1: usize,
    b1: usize,
)
    requires
        anchors@.len() >= 1,
        anchor_chain(anchors@, a0 as int, b0 as int, a1 as int, b1 as int),
        anchors@[0].1 != a0 || anchors@[0].0 != b0,
    ensures
        final(queue)@.len() == old(queue)@.len() + anchors@.len() + 1,
        final(queue)@.subrange(0, old(queue)@.len() as int) == old(queue)@,
        pieces_tile(final(queue)@, old(queue)@.len() as int, a0 as int, b0 as int, a1 as int, b1 as int),
        queue_measure(final(queue)@) <= queue_measure(old(queue)@) + sq((a1 - a0) + (b1 - b0)),
        forall|j: int|
            old(queue)@.len() < j < final(queue)@.len() ==> {
                &&& (#[trigger] final(queue)@[j]).0 == anchors@[j - old(queue)@.len() - 1].1
                &&& final(queue)@[j].1 == anchors@[j - old(queue)@.len() - 1].0
                &&& final(queue)@[j].0 < final(queue)@[j].2
                &&& final(queue)@[j].1 < final(queue)@[j].3
            },
{
    let ghost base = queue@.len() as int;
    let ghost q0 = queue@;
    let mut pa = a0;
    let mut pb = b0;
    let mut k: usize = 0;
    while k < anchors.len()
        invariant
            k <= anchors@.len(),
            anchors@.len() >= 1,
            anchor_chain(anchors@, a0 as int, b0 as int, a1 as int, b1 as int),
            anchors@[0].1 != a0 || anchors@[0].0 != b0,
            0 <= base == q0.len(),
            queue@.len() == base + k,
            queue@.subrange(0, base) == q0,
            k == 0 ==> pa == a0 && pb == b0,
            0 < k ==> pa == anchors@[k - 1].1 && pb == anchors@[k - 1].0,
            a0 <= pa < a1 || k == 0,
            b0 <= pb < b1 || k == 0,
            k > 0 ==> pieces_tile(queue@, base, a0 as int, b0 as int, pa as int, pb as int),
            k > 0 ==> (pa - a0) + (pb - b0) >= 1,
            k > 0 ==> queue_measure(queue@) <= queue_measure(q0) + sq((pa - a0) + (pb - b0)) + 1,
            k > 1 ==> queue_measure(queue@) <= queue_measure(q0) + sq((pa - a0) + (pb - b0)),
            forall|j: int|
                base < j < queue@.len() ==> {
                    &&& (#[trigger] queue@[j]).0 == anchors@[j - base - 1].1
                    &&& queue@[j].1 == anchors@[j - base - 1].0
                    &&& queue@[j].0 < queue@[j].2
                    &&& queue@[j].1 < queue@[j].3
                },
        decreases anchors@.len() - k,
    {
        let na = anchors[k].1;
        let nb = anchors[k].0;
        let w = (pa, pb, na, nb);
        let ghost before = queue@;
        proof {
            if k > 0 {
                assert(anchors@[k - 1].1 < anchors@[k as int].1);
                assert(anchors@[k - 1].0 <= anchors@[k as int].0);
            } else {
                assert(before =~= q0);
            }
        }
        queue.push(w);
        proof {
            assert forall|j: int| base < j < queue@.len() implies {
                &&& (#[trigger] queue@[j]).0 == anchors@[j - base - 1].1
                &&& queue@[j].1 == anchors@[j - base - 1].0
                &&& queue@[j].0 < queue@[j].2
                &&& queue@[j].1 < queue@[j].3
            } by {
                if j < queue@.len() - 1 {
                    assert(queue@[j] == before[j]);
                }
            }
            lemma_measure_push(before, w);
            lemma_tile_push(before, base, a0 as int, b0 as int, pa as int, pb as int, w);
            assert(queue@.subrange(0, base) =~= before.subrange(0, base));
            if k > 0 {
                lemma_sq_split((pa - a0) + (pb - b0), (na - pa) + (nb - pb));
            }
        }
        pa = na;
        pb = nb;
        k += 1;
    }
    let w = (pa, pb, a1, b1);
    let ghost before = queue@;
    queue.push(w);
    proof {
        assert(anchors@[anchors@.len() - 1].1 < a1 && anchors@[anchors@.len() - 1].0 < b1);
        assert forall|j: int| base < j < queue@.len() implies {
            &&& (#[trigger] queue@[j]).0 == anchors@[j - base - 1].1
            &&& queue@[j].1 == anchors@[j - base - 1].0
            &&& queue@[j].0 < queue@[j].2
            &&& queue@[j].1 < queue@[j].3
        } by {
            if j < queue@.len() - 1 {
                assert(queue@[j] == before[j]);
            }
        }
        lemma_measure_push(before, w);
        lemma_tile_push(before, base, a0 as int, b0 as int, pa as int, pb as int, w);
        assert(queue@.subrange(0, base) =~= before.subrange(0, base));
        lemma_sq_split((pa - a0) + (pb - b0), (a1 - pa) + (b1 - pb));
    }
}

/// Narrows the work item `w = (a0, b0, a1, b1)` by the tokens that its two
/// sides share at the start and at the end.
fn trim_common<T: Eq + Copy>(a: &Vec<T>, b: &Vec<T>, w: (usize, usize, usize, usize)) -> (r: (
    usize,
    usize,
    usize,
    usize,
))
    requires
        obeys_concrete_eq::<T>(),
        w.0 <= w.2 <= a@.len(),
        w.1 <= w.3 <= b@.len(),
    ensures
        w.0 <= r.0 <= r.2 <= w.2,
        w.1 <= r.1 <= r.3 <= w.3,
        spans_match(a@, b@, w.0 as int, r.0 as int, w.1 as int, r.1 as int),
        spans_match(a@, b@, r.2 as int, w.2 as int, r.3 as int, w.3 as int),
        r.0 < r.2 && r.1 < r.3 ==> a@[r.0 as int] != b@[r.1 as int] && a@[r.2 - 1] != b@[r.3 - 1],
        a@ == b@ && w.0 == w.1 && w.2 == w.3 ==> r.0 == r.2 && r.1 == r.3,
        disjoint(a@, b@) ==> r == w,
        starts_matched(a@, b@, w) ==> r.0 > w.0,
        w.0 == 0 && w.1 == 0 && w.2 == a@.len() && w.3 == b@.len() ==> {
            &&& r.0 == common_prefix(a@, b@) && r.1 == r.0
            &&& r.2 == a@.len() - common_suffix(a@, b@)
            &&& r.3 == b@.len() - common_suffix(a@, b@)
        },
{
    proof {
        reveal(obeys_concrete_eq);
    }
    let ghost whole = w.0 == 0 && w.1 == 0 && w.2 == a@.len() && w.3 == b@.len();
    let (mut a0, mut b0, mut a1, mut b1) = w;
    assert(a@.subrange(a0 as int, a0 as int) =~= b@.subrange(b0 as int, b0 as int));
    while a0 < a1 && b0 < b1 && a[a0] == b[b0]
        invariant
            obeys_concrete_eq::<T>(),
            T::obeys_eq_spec(),
            forall|x: T, y: T| x.eq_spec(&y) <==> (x == y),
            w.0 <= a0 <= a1 == w.2 <= a@.len(),
            w.1 <= b0 <= b1 == w.3 <= b@.len(),
            a0 - w.0 == b0 - w.1,
            spans_match(a@, b@, w.0 as int, a0 as int, w.1 as int, b0 as int),
            disjoint(a@, b@) ==> a0 == w.0,
            whole == (w.0 == 0 && w.1 == 0 && w.2 == a@.len() && w.3 == b@.len()),
            whole ==> a0 == b0 && prefix_from(a@, b@, a0 as int) == common_prefix(a@, b@),
        decreases a1 - a0,
    {
        proof {
            reveal(prefix_from);
            assert(a@.subrange(w.0 as int, a0 + 1) =~= a@.subrange(w.0 as int, a0 as int).push(a@[a0 as int]));
            assert(b@.subrange(w.1 as int, b0 + 1) =~= b@.subrange(w.1 as int, b0 as int).push(b@[b0 as int]));
        }
        a0 += 1;
        b0 += 1;
    }
    assert(a@.subrange(a1 as int, a1 as int) =~= b@.subrange(b1 as int, b1 as int));
    proof {
        reveal(prefix_from);
        reveal(suffix_from);
    }
    while a1 > a0 && b1 > b0 && a[a1 - 1] == b[b1 - 1]
        invariant
            T::obeys_eq_spec(),
            forall|x: T, y: T| x.eq_spec(&y) <==> (x == y),
            w.0 <= a0 <= a1 <= w.2 <= a@.len(),
            w.1 <= b0 <= b1 <= w.3 <= b@.len(),
            w.2 - a1 == w.3 - b1,
            spans_match(a@, b@, a1 as int, w.2 as int, b1 as int, w.3 as int),
            disjoint(a@, b@) ==> a1 == w.2,
            whole == (w.0 == 0 && w.1 == 0 && w.2 == a@.len() && w.3 == b@.len()),
            whole ==> a0 == b0 && a0 == common_prefix(a@, b@) && suffix_from(a@, b@, a0 as int, w.2 - a1)
                == common_suffix(a@, b@),
        decreases a1 - a0,
    {
        proof {
            reveal(suffix_from);
            assert(a@.subrange(a1 - 1, w.2 as int) =~= seq![a@[a1 - 1]] + a@.subrange(a1 as int, w.2 as int));
            assert(b@.subrange(b1 - 1, w.3 as int) =~= seq![b@[b1 - 1]] + b@.subrange(b1 as int, w.3 as int));
        }
        a1 -= 1;
        b1 -= 1;
    }
    proof {
        reveal(suffix_from);
    }
    (a0, b0, a1, b1)
}

/// The anchors of the work item `a[a0..a1)`, `b[b0..b1)`: the pairs
/// `(j, i)` with `a[i] == b[j]` whose token occurs once on each side, in a
/// longest chain that rises on both sides.
fn find_anchors<T: Eq + Hash + Copy>(a: &Vec<T>, b: &Vec<T>, a0: usize, b0: usize, a1: usize, b1: usize) -> (r: Vec<
    (usize, usize),
>)
    requires
        obeys_key_model::<T>(),
        a0 <= a1 <= a@.len(),
        b0 <= b1 <= b@.len(),
    ensures
        anchor_chain(r@, a0 as int, b0 as int, a1 as int, b1 as int),
        forall|k: int| 0 <= k < r@.len() ==> a@[(#[trigger] r@[k]).1 as int] == b@[r@[k].0 as int],
        forall|k: int|
            0 <= k < r@.len() ==> sole_position(a@, a0 as int, a1 as int, a@[(#[trigger] r@[k]).1 as int], r@[k].1 as int)
                && sole_position(b@, b0 as int, b1 as int, b@[r@[k].0 as int], r@[k].0 as int),
        disjoint(a@, b@) ==> r@.len() == 0,
        r@.len() == 0 ==> no_anchor(a@, b@, a0 as int, a1 as int, b0 as int, b1 as int),
{
    let a_map = unique_check(a, a0, a1);
    let b_map = unique_check(b, b0, b1);
    // candidates in the order of `a`; each pair is (position in b, position in a)
    let mut rhs: Vec<(usize, usize)> = Vec::new();
    let mut ix: usize = a0;
    while ix < a1
        invariant
            a0 <= ix <= a1 <= a@.len(),
            b0 <= b1 <= b@.len(),
            obeys_key_model::<T>(),
            is_uniqueness_map(b_map@, b@, b0 as int, b1 as int),
            forall|k: int|
                0 <= k < rhs@.len() ==> a0 <= (#[trigger] rhs@[k]).1 < ix && b0 <= rhs@[k].0 < b1
                    && a@[rhs@[k].1 as int] == b@[rhs@[k].0 as int] && sole_position(
                    a@,
                    a0 as int,
                    a1 as int,
                    a@[rhs@[k].1 as int],
                    rhs@[k].1 as int,
                ) && sole_position(b@, b0 as int, b1 as int, b@[rhs@[k].0 as int], rhs@[k].0 as int),
            forall|k: int, l: int| 0 <= k < l < rhs@.len() ==> (#[trigger] rhs@[k]).1 < (#[trigger] rhs@[l]).1,
            is_uniqueness_map(a_map@, a@, a0 as int, a1 as int),
            rhs@.len() == 0 ==> forall|i: int, j: int|
                a0 <= i < ix && b0 <= j < b1 && #[trigger] a@[i] == #[trigger] b@[j] ==> !(sole_position(
                    a@,
                    a0 as int,
                    a1 as int,
                    a@[i],
                    i,
                ) && sole_position(b@, b0 as int, b1 as int, b@[j], j)),
        decreases a1 - ix,
    {
        let x = a[ix];
        proof {
            assert(occurs(a@, a0 as int, a1 as int, x));
            if exists|j: int| b0 <= j < b1 && b@[j] == x && sole_position(a@, a0 as int, a1 as int, x, ix as int)
                && sole_position(b@, b0 as int, b1 as int, x, j) {
                let j = choose|j: int| b0 <= j < b1 && b@[j] == x && sole_position(a@, a0 as int, a1 as int, x, ix as int)
                    && sole_position(b@, b0 as int, b1 as int, x, j);
                assert(occurs(b@, b0 as int, b1 as int, x));
                assert(!occurs_twice(a@, a0 as int, a1 as int, x));
                assert(!occurs_twice(b@, b0 as int, b1 as int, x));
            }
        }
        if let Some(UniqueCheck::Line(i)) = a_map.get(&x) {
            if let Some(UniqueCheck::Line(z)) = b_map.get(&x) {
                proof {
                    assert(sole_position(a@, a0 as int, a1 as int, x, *i as int));
                    assert(a@[ix as int] == x);
                }
                rhs.push((*z, ix));
            }
        }
        ix += 1;
    }
    let r = longest_increasing_subsequence(&rhs);
    proof {
        let idx = choose|idx: Seq<int>| selects(r@, rhs@, idx);
        assert forall|k: int, l: int| 0 <= k < l < r@.len() implies (#[trigger] r@[k]).1 < (#[trigger] r@[l]).1 by {
            assert(idx[k] < idx[l]);
        }
        assert forall|k: int| 0 <= k < r@.len() implies sole_position(
            a@,
            a0 as int,
            a1 as int,
            a@[(#[trigger] r@[k]).1 as int],
            r@[k].1 as int,
        ) && sole_position(b@, b0 as int, b1 as int, b@[r@[k].0 as int], r@[k].0 as int) by {
            assert(r@[k] == rhs@[idx[k]]);
        }
        assert forall|k: int, l: int| 0 <= k < l < r@.len() implies (#[trigger] r@[k]).0 < (#[trigger] r@[l]).0 by {
            assert(precedes(r@[k], r@[l]));
            assert(r@[k] == rhs@[idx[k]]);
            assert(r@[l] == rhs@[idx[l]]);
            assert(idx[k] < idx[l]);
            if r@[k].0 == r@[l].0 {
                assert(a@[r@[l].1 as int] == a@[r@[k].1 as int]);
            }
        }
        assert forall|k: int| 0 <= k < r@.len() implies a0 <= (#[trigger] r@[k]).1 < a1 && b0 <= r@[k].0 < b1
            && a@[r@[k].1 as int] == b@[r@[k].0 as int] by {
            assert(r@[k] == rhs@[idx[k]]);
        }
        if disjoint(a@, b@) && r@.len() > 0 {
            assert(r@[0] == rhs@[idx[0]]);
        }
        assert(r@.len() == 0 ==> rhs@.len() == 0);
    }
    r
}

/// End in the old sequence of the work item before item `i` of the queue, or
/// the start of the sequence.
spec fn prev_a_end(q: Seq<(usize, usize, usize, usize)>, i: int) -> int {
    if i == 0 { 0 } else { q[i - 1].2 as int }
}

/// End in the new sequence of the work item before item `i` of the queue, or
/// the start of the sequence.
spec fn prev_b_end(q: Seq<(usize, usize, usize, usize)>, i: int) -> int {
    if i == 0 { 0 } else { q[i - 1].3 as int }
}

/// The work items are intervals, left to right, and what lies between two of
/// them (or before the first) matches on both sides.
spec fn queue_ok<T>(a: Seq<T>, b: Seq<T>, q: Seq<(usize, usize, usize, usize)>) -> bool {
    forall|i: int|
        0 <= i < q.len() ==> {
            &&& (#[trigger] q[i]).0 <= q[i].2 <= a.len()
            &&& q[i].1 <= q[i].3 <= b.len()
            &&& spans_match(a, b, prev_a_end(q, i), q[i].0 as int, prev_b_end(q, i), q[i].1 as int)
        }
}

proof fn lemma_queue_pop<T>(a: Seq<T>, b: Seq<T>, q: Seq<(usize, usize, usize, usize)>)
    requires
        queue_ok(a, b, q),
        q.len() > 0,
    ensures
        queue_ok(a, b, q.drop_last()),
        q.last().0 <= q.last().2 <= a.len(),
        q.last().1 <= q.last().3 <= b.len(),
        spans_match(
            a,
            b,
            prev_a_end(q.drop_last(), q.len() - 1),
            q.last().0 as int,
            prev_b_end(q.drop_last(), q.len() - 1),
            q.last().1 as int,
        ),
        prev_a_end(q, q.len() as int) == q.last().2,
        prev_b_end(q, q.len() as int) == q.last().3,
{
    let r = q.drop_last();
    assert(q[q.len() - 1] == q.last());
    assert(prev_a_end(q, q.len() - 1) == prev_a_end(r, q.len() - 1));
    assert(prev_b_end(q, q.len() - 1) == prev_b_end(r, q.len() - 1));
    assert forall|i: int| 0 <= i < r.len() implies {
        &&& (#[trigger] r[i]).0 <= r[i].2 <= a.len()
        &&& r[i].1 <= r[i].3 <= b.len()
        &&& spans_match(a, b, prev_a_end(r, i), r[i].0 as int, prev_b_end(r, i), r[i].1 as int)
    } by {
        assert(r[i] == q[i]);
        assert(prev_a_end(r, i) == prev_a_end(q, i));
        assert(prev_b_end(r, i) == prev_b_end(q, i));
    }
}

proof fn lemma_queue_pieces<T>(
    a: Seq<T>,
    b: Seq<T>,
    r: Seq<(usize, usize, usize, usize)>,
    q: Seq<(usize, usize, usize, usize)>,
    a0: int,
    b0: int,
    a1: int,
    b1: int,
)
    requires
        queue_ok(a, b, r),
        q.subrange(0, r.len() as int) == r,
        r.len() <= q.len(),
        pieces_tile(q, r.len() as int, a0, b0, a1, b1),
        spans_match(a, b, prev_a_end(r, r.len() as int), a0, prev_b_end(r, r.len() as int), b0),
        a0 <= a1 <= a.len(),
        b0 <= b1 <= b.len(),
    ensures
        queue_ok(a, b, q),
        prev_a_end(q, q.len() as int) == a1,
        prev_b_end(q, q.len() as int) == b1,
{
    let base = r.len() as int;
    assert forall|i: int| 0 <= i < q.len() implies {
        &&& (#[trigger] q[i]).0 <= q[i].2 <= a.len()
        &&& q[i].1 <= q[i].3 <= b.len()
        &&& spans_match(a, b, prev_a_end(q, i), q[i].0 as int, prev_b_end(q, i), q[i].1 as int)
    } by {
        if i < base {
            assert(q[i] == q.subrange(0, base)[i]);
            if i > 0 {
                assert(q[i - 1] == q.subrange(0, base)[i - 1]);
            }
            assert(prev_a_end(q, i) == prev_a_end(r, i));
            assert(prev_b_end(q, i) == prev_b_end(r, i));
        } else if i == base {
            if i > 0 {
                assert(q[i - 1] == q.subrange(0, base)[i - 1]);
            }
        } else {
            assert(q[i - 1].2 == q[i].0 && q[i - 1].3 == q[i].1);
            assert(a.subrange(q[i].0 as int, q[i].0 as int) =~= b.subrange(q[i].1 as int, q[i].1 as int));
        }
    }
    assert(q[q.len() - 1] == q.last());
}

/// The work item `w` is non-empty on both sides and its two sides start
/// with the same token.
spec fn starts_matched<T>(a: Seq<T>, b: Seq<T>, w: (usize, usize, usize, usize)) -> bool {
    w.0 < w.2 && w.1 < w.3 && a[w.0 as int] == b[w.1 as int]
}

/// Between each work item and the one before it lies at least one kept
/// token: a non-empty gap, or a first token that matches.
spec fn queue_separated<T>(a: Seq<T>, b: Seq<T>, q: Seq<(usize, usize, usize, usize)>) -> bool {
    forall|i: int| 0 < i < q.len() ==> prev_a_end(q, i) < (#[trigger] q[i]).0 || starts_matched(a, b, q[i])
}

/// Consecutive hunks are apart by at least one kept token on each side.
pub open spec fn hunks_apart(hs: Seq<Hunk>) -> bool {
    forall|i: int, j: int|
        0 <= i && j == i + 1 && j < hs.len() ==> (#[trigger] hs[i]).remove.end < (#[trigger] hs[j]).remove.start
            && hs[i].insert.end < hs[j].insert.start
}

proof fn lemma_apart_both_sides<T>(a: Seq<T>, b: Seq<T>, hs: Seq<Hunk>)
    requires
        is_edit_script(a, b, hs),
        forall|i: int, j: int|
            0 <= i && j == i + 1 && j < hs.len() ==> (#[trigger] hs[i]).remove.end < (#[trigger] hs[j]).remove.start,
    ensures
        hunks_apart(hs),
{
    assert forall|i: int, j: int| 0 <= i && j == i + 1 && j < hs.len() implies (#[trigger] hs[i]).remove.end < (
    #[trigger] hs[j]).remove.start && hs[i].insert.end < hs[j].insert.start by {
        assert(spans_match(a, b, kept_a_start(hs, 0, j), kept_a_end(hs, a.len() as int, j), kept_b_start(hs, 0, j), kept_b_end(hs, b.len() as int, j)));
        assert(a.subrange(hs[i].remove.end as int, hs[j].remove.start as int).len() == b.subrange(hs[i].insert.end as int, hs[j].insert.start as int).len());
    }
}

/// Hunk turning `a[a0..a1)` into `b[b0..b1)`.
pub open spec fn hunk_of(a0: usize, b0: usize, a1: usize, b1: usize) -> Hunk {
    Hunk { remove: Range { start: a0, end: a1 }, insert: Range { start: b0, end: b1 } }
}

/// Computes the patience diff of `a` and `b`: the hunks, in order, that turn
/// `a` into `b`.
///
/// Tokens must hash and compare by value. The result is an edit script from
/// `a` to `b` whose hunks are ordered, never empty, and apart by at least one
/// kept token on each side; each hunk differs from the other side at its
/// first and last position and holds no token found exactly once on each
/// side of it. The first hunk starts right after the common prefix, the last
/// ends right before the common suffix of what follows it, and when that
/// middle holds no such token it is the one hunk. Equal inputs give no hunk,
/// and inputs without a common token give one hunk over both wholes.
#[verifier::rlimit(80)]
pub fn patience_diff<T: Eq + Hash + Copy>(a: Vec<T>, b: Vec<T>) -> (r: Vec<Hunk>)
    requires
        obeys_key_model::<T>(),
        obeys_concrete_eq::<T>(),
    ensures
        is_edit_script(a@, b@, r@),
        hunks_ordered(r@),
        hunks_apart(r@),
        forall|i: int| 0 <= i < r@.len() ==> is_settled_hunk(a@, b@, #[trigger] r@[i]),
        a@ == b@ ==> r@.len() == 0,
        disjoint(a@, b@) && a@.len() + b@.len() > 0 ==> r@ == seq![hunk_of(0, 0, a@.len() as usize, b@.len() as usize)],
        r@.len() > 0 ==> {
            &&& r@[0].remove.start == common_prefix(a@, b@) && r@[0].insert.start == common_prefix(a@, b@)
            &&& r@.last().remove.end == a@.len() - common_suffix(a@, b@)
            &&& r@.last().insert.end == b@.len() - common_suffix(a@, b@)
        },
        ({
            let (p, s) = (common_prefix(a@, b@), common_suffix(a@, b@));
            no_anchor(a@, b@, p, a@.len() - s, p, b@.len() - s) && (p < a@.len() - s || p < b@.len() - s) ==> r@ == seq![
                hunk_of(p as usize, p as usize, (a@.len() - s) as usize, (b@.len() - s) as usize),
            ]
        }),
{
    let an = a.len();
    let bn = b.len();
    let mut queue: Vec<(usize, usize, usize, usize)> = vec![(0, 0, an, bn)];
    // hunks are found right to left: out holds them in that order
    let mut out: Vec<Hunk> = Vec::new();
    let ghost mut doc: Seq<Hunk> = Seq::empty();
    let ghost mp = common_prefix(a@, b@) as usize;
    let ghost ma = (an - common_suffix(a@, b@)) as usize;
    let ghost mb = (bn - common_suffix(a@, b@)) as usize;
    proof {
        lemma_prefix_from(a@, b@, 0);
        lemma_suffix_from(a@, b@, common_prefix(a@, b@), 0);
        assert(a@.subrange(0, 0) =~= b@.subrange(0, 0));
        assert(a@.subrange(an as int, an as int) =~= b@.subrange(bn as int, bn as int));
        assert(kept_a_start(doc, an as int, 0) == an);
    }
    while queue.len() > 0
        invariant
            an == a@.len(),
            bn == b@.len(),
            obeys_key_model::<T>(),
            obeys_concrete_eq::<T>(),
            queue_ok(a@, b@, queue@),
            script_from(a@, b@, prev_a_end(queue@, queue@.len() as int), prev_b_end(queue@, queue@.len() as int), doc),
            doc.len() == out@.len(),
            forall|i: int| 0 <= i < doc.len() ==> #[trigger] doc[i] == out@[out@.len() - 1 - i],
            forall|i: int| 0 <= i < doc.len() ==> is_settled_hunk(a@, b@, #[trigger] doc[i]),
            a@ == b@ ==> doc.len() == 0 && forall|i: int|
                0 <= i < queue@.len() ==> (#[trigger] queue@[i]).0 == queue@[i].1 && queue@[i].2 == queue@[i].3,
            disjoint(a@, b@) && an + bn > 0 ==> (queue@ == seq![(0usize, 0usize, an, bn)] && doc.len() == 0) || (
            queue@.len() == 0 && doc == seq![hunk_of(0, 0, an, bn)]),
            0 <= mp <= ma <= an,
            mp <= mb <= bn,
            mp == common_prefix(a@, b@),
            ma == an - common_suffix(a@, b@),
            mb == bn - common_suffix(a@, b@),
            forall|i: int|
                0 <= i < queue@.len() ==> #[trigger] queue@[i] == (0usize, 0usize, an, bn) || (mp <= queue@[i].0
                    && queue@[i].2 <= ma && mp <= queue@[i].1 && queue@[i].3 <= mb),
            forall|i: int|
                0 <= i < doc.len() ==> mp <= (#[trigger] doc[i]).remove.start && doc[i].remove.end <= ma && mp
                    <= doc[i].insert.start && doc[i].insert.end <= mb,
            no_anchor(a@, b@, mp as int, ma as int, mp as int, mb as int) && (mp < ma || mp < mb) ==> (queue@ == seq![
                (0usize, 0usize, an, bn),
            ] && doc.len() == 0) || (queue@.len() == 0 && doc == seq![hunk_of(mp, mp, ma, mb)]),
            queue_separated(a@, b@, queue@),
            forall|i: int, j: int|
                0 <= i && j == i + 1 && j < doc.len() ==> (#[trigger] doc[i]).remove.end < (#[trigger] doc[j]).remove.start,
            doc.len() > 0 && queue@.len() > 0 ==> doc[0].remove.start > prev_a_end(queue@, queue@.len() as int),
        decreases queue_measure(queue@),
    {
        let ghost q_old = queue@;
        let w = queue.pop().unwrap();
        let ghost q_rest = queue@;
        let ghost pa = prev_a_end(q_rest, q_rest.len() as int);
        let ghost pb = prev_b_end(q_rest, q_rest.len() as int);
        proof {
            lemma_queue_pop(a@, b@, q_old);
            assert(q_old.drop_last() =~= q_rest);
        }
        let (a0, b0, a1, b1) = trim_common(&a, &b, w);
        proof {
            assert(q_old[q_old.len() - 1] == w);
            assert(mp <= a0 && a1 <= ma && mp <= b0 && b1 <= mb);
            assert forall|i: int| 0 < i < q_rest.len() implies prev_a_end(q_rest, i) < (#[trigger] q_rest[i]).0
                || starts_matched(a@, b@, q_rest[i]) by {
                assert(q_rest[i] == q_old[i]);
                assert(prev_a_end(q_rest, i) == prev_a_end(q_old, i));
            }
            if q_rest.len() > 0 {
                assert(prev_a_end(q_old, q_rest.len() as int) < q_old[q_rest.len() as int].0 || starts_matched(
                    a@,
                    b@,
                    q_old[q_rest.len() as int],
                ));
            }
            lemma_join_spans(a@, b@, pa, w.0 as int, a0 as int, pb, w.1 as int, b0 as int);
            lemma_extend_left(a@, b@, a1 as int, b1 as int, w.2 as int, w.3 as int, doc);
        }
        if a0 < a1 || b0 < b1 {
            let anchors = find_anchors(&a, &b, a0, b0, a1, b1);
            if anchors.len() == 0 {
                let h = Hunk { remove: Range { start: a0, end: a1 }, insert: Range { start: b0, end: b1 } };
                out.push(h);
                proof {
                    lemma_prepend(a@, b@, pa, pb, h, doc);
                    let ghost old_doc = doc;
                    doc = seq![h] + doc;
                    assert forall|i: int| 0 <= i < doc.len() implies is_settled_hunk(a@, b@, #[trigger] doc[i]) by {
                        if i > 0 {
                            assert(doc[i] == old_doc[i - 1]);
                        }
                    }
                    assert forall|i: int, j: int| 0 <= i && j == i + 1 && j < doc.len() implies (
                    #[trigger] doc[i]).remove.end < (#[trigger] doc[j]).remove.start by {
                        assert(doc[j] == old_doc[i]);
                        if i > 0 {
                            assert(doc[i] == old_doc[i - 1]);
                        }
                    }
                    assert forall|i: int| 0 <= i < doc.len() implies #[trigger] doc[i] == out@[out@.len() - 1 - i] by {
                        if i > 0 {
                            assert(doc[i] == doc.drop_first()[i - 1]);
                        }
                    }
                    assert(q_rest =~= queue@);
                    assert forall|i: int| 0 <= i < queue@.len() implies #[trigger] queue@[i] == (0usize, 0usize, an, bn)
                        || (mp <= queue@[i].0 && queue@[i].2 <= ma && mp <= queue@[i].1 && queue@[i].3 <= mb) by {
                        assert(queue@[i] == q_old[i]);
                    }
                    if no_anchor(a@, b@, mp as int, ma as int, mp as int, mb as int) && (mp < ma || mp < mb) {
                        assert(doc =~= seq![hunk_of(mp, mp, ma, mb)]);
                    }
                    if disjoint(a@, b@) && an + bn > 0 {
                        assert(q_old[0] == (0usize, 0usize, an, bn));
                        assert(doc =~= seq![hunk_of(0, 0, an, bn)]);
                    }
                }
            } else {
                proof {
                    if no_anchor(a@, b@, mp as int, ma as int, mp as int, mb as int) && (mp < ma || mp < mb) && w == (
                    0usize, 0usize, an, bn) {
                        assert(sole_position(a@, a0 as int, a1 as int, a@[anchors@[0].1 as int], anchors@[0].1 as int));
                    }
                    if anchors@[0].1 == a0 && anchors@[0].0 == b0 {
                        assert(a@[a0 as int] == b@[b0 as int]);
                    }
                }
                push_pieces(&mut queue, &anchors, a0, b0, a1, b1);
                proof {
                    lemma_queue_pieces(a@, b@, q_rest, queue@, a0 as int, b0 as int, a1 as int, b1 as int);
                    assert forall|i: int| 0 <= i < queue@.len() implies #[trigger] queue@[i] == (0usize, 0usize, an, bn)
                        || (mp <= queue@[i].0 && queue@[i].2 <= ma && mp <= queue@[i].1 && queue@[i].3 <= mb) by {
                        if i < q_rest.len() {
                            assert(queue@[i] == queue@.subrange(0, q_rest.len() as int)[i]);
                            assert(queue@[i] == q_old[i]);
                        }
                    }
                    lemma_sq_le((a1 - a0) + (b1 - b0), work_size(w) as int);
                    let base = q_rest.len() as int;
                    assert forall|i: int| 0 < i < queue@.len() implies prev_a_end(queue@, i) < (#[trigger] queue@[i]).0
                        || starts_matched(a@, b@, queue@[i]) by {
                        if i < base {
                            assert(queue@[i] == queue@.subrange(0, base)[i]);
                            assert(queue@[i - 1] == queue@.subrange(0, base)[i - 1]);
                            assert(prev_a_end(q_rest, i) == prev_a_end(queue@, i));
                        } else if i == base {
                            assert(queue@[i - 1] == queue@.subrange(0, base)[i - 1]);
                            assert(prev_a_end(q_rest, i) == prev_a_end(queue@, i));
                        } else {
                            let k = i - base - 1;
                            assert(queue@[i].0 == anchors@[k].1 && queue@[i].1 == anchors@[k].0);
                            assert(a@[(anchors@[k]).1 as int] == b@[anchors@[k].0 as int]);
                        }
                    }
                    lemma_measure_pop(q_old, w);
                    assert(queue_measure(q_rest) + sq(work_size(w) as int) + 1 == queue_measure(q_old));
                    assert(queue_measure(queue@) <= queue_measure(q_rest) + sq((a1 - a0) + (b1 - b0)));
                    assert(queue_measure(queue@) < queue_measure(q_old));
                }
            }
        } else {
            proof {
                assert(a@.subrange(a0 as int, a0 as int) =~= b@.subrange(b0 as int, b0 as int));
                lemma_join_spans(a@, b@, pa, a0 as int, a1 as int, pb, b0 as int, b1 as int);
                lemma_extend_left(a@, b@, pa, pb, a1 as int, b1 as int, doc);
                assert(q_rest =~= queue@);
                assert forall|i: int| 0 <= i < queue@.len() implies #[trigger] queue@[i] == (0usize, 0usize, an, bn)
                    || (mp <= queue@[i].0 && queue@[i].2 <= ma && mp <= queue@[i].1 && queue@[i].3 <= mb) by {
                    assert(queue@[i] == q_old[i]);
                }
            }
        }
        proof {
            lemma_measure_pop(q_old, w);
            assert(queue_measure(queue@) < queue_measure(q_old));
        }
    }
    let mut r: Vec<Hunk> = Vec::new();
    let mut t: usize = out.len();
    while t > 0
        invariant
            0 <= t <= out@.len(),
            doc.len() == out@.len(),
            forall|i: int| 0 <= i < doc.len() ==> #[trigger] doc[i] == out@[out@.len() - 1 - i],
            forall|i: int| 0 <= i < doc.len() ==> is_settled_hunk(a@, b@, #[trigger] doc[i]),
            r@ == doc.take(out@.len() - t),
        decreases t,
    {
        t -= 1;
        r.push(out[t]);
        proof {
            assert(r@ =~= doc.take(out@.len() - t));
        }
    }
    proof {
        assert(r@ =~= doc);
        lemma_script_ordered(a@, b@, 0, 0, r@);
        if r@.len() > 0 {
            lemma_script_ends(a@, b@, r@);
        }
        lemma_apart_both_sides(a@, b@, r@);
    }
    r
}

} // verus!
