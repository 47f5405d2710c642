//! Unified-diff style report: hunks whose padded context windows overlap
//! share one `@@` block.

use crate::diff::{hunk_wf, is_edit_script, kept_a_end, kept_a_start, kept_b_end, kept_b_start, spans_match, Hunk, Range};
use vstd::prelude::*;

verus! {

/// A block of the report: the spans shown of each sequence, and the hunks
/// `first..last` that it holds.
#[derive(Debug, Clone, Copy, PartialEq, Eq)]
pub struct Window {
    pub remove: Range,
    pub insert: Range,
    pub first: usize,
    pub last: usize,
}

/// Each hunk's ranges are intervals within the sequences, and every hunk ends,
/// on both sides, no later than any later one starts.
pub open spec fn hunks_fit(hs: Seq<Hunk>, na: int, nb: int) -> bool {
    &&& forall|i: int|
        0 <= i < hs.len() ==> (#[trigger] hs[i]).remove.start <= hs[i].remove.end <= na && hs[i].insert.start
            <= hs[i].insert.end <= nb
    &&& forall|i: int, j: int|
        0 <= i < j < hs.len() ==> (#[trigger] hs[i]).remove.end <= (#[trigger] hs[j]).remove.start
            && hs[i].insert.end <= hs[j].insert.start
}

/// `x` moved `c` positions back, stopping at 0.
pub open spec fn pad_start(x: usize, c: usize) -> usize {
    if x > c { (x - c) as usize } else { 0 }
}

/// `x` moved `c` positions on, stopping at `n`.
pub open spec fn pad_end(x: usize, c: usize, n: usize) -> usize {
    if x + c < n { (x + c) as usize } else { n }
}

pub open spec fn max_usize(x: usize, y: usize) -> usize {
    if x >= y { x } else { y }
}

/// The window of hunk `i` alone: its ranges padded by `c` on each side.
pub open spec fn hunk_window(h: Hunk, i: int, c: usize, na: usize, nb: usize) -> Window {
    Window {
        remove: Range { start: pad_start(h.remove.start, c), end: pad_end(h.remove.end, c, na) },
        insert: Range { start: pad_start(h.insert.start, c), end: pad_end(h.insert.end, c, nb) },
        first: i as usize,
        last: (i + 1) as usize,
    }
}

/// Window `w` stretched to take in hunk `i`, the next one.
pub open spec fn stretch(w: Window, h: Hunk, i: int, c: usize, na: usize, nb: usize) -> Window {
    Window {
        remove: Range { start: w.remove.start, end: max_usize(w.remove.end, pad_end(h.remove.end, c, na)) },
        insert: Range { start: w.insert.start, end: max_usize(w.insert.end, pad_end(h.insert.end, c, nb)) },
        first: w.first,
        last: (i + 1) as usize,
    }
}

/// The hunk's own padded window would overlap `w`: it starts less than `c`
/// lines after the end of `w`.
pub open spec fn joins(w: Window, h: Hunk, c: usize) -> bool {
    w.remove.end + c > h.remove.start
}

/// The windows of `hs`, taken left to right: a hunk joins the last window
/// when its padded window would overlap it, and opens a new one otherwise.
pub open spec fn merged_windows(hs: Seq<Hunk>, c: usize, na: usize, nb: usize) -> Seq<Window>
    decreases hs.len(),
{
    if hs.len() == 0 {
        Seq::empty()
    } else {
        let ws = merged_windows(hs.drop_last(), c, na, nb);
        let i = hs.len() - 1;
        if ws.len() > 0 && joins(ws.last(), hs.last(), c) {
            ws.update(ws.len() - 1, stretch(ws.last(), hs.last(), i, c, na, nb))
        } else {
            ws.push(hunk_window(hs.last(), i, c, na, nb))
        }
    }
}

/// The windows cover the hunks `0..n` in order, each one at least one hunk,
/// and each window's spans contain those of its hunks.
pub open spec fn windows_wf(ws: Seq<Window>, hs: Seq<Hunk>, n: int, na: int, nb: int) -> bool {
    &&& (ws.len() == 0 <==> n == 0)
    &&& ws.len() > 0 ==> ws[0].first == 0 && ws.last().last == n
    &&& forall|k: int| 0 <= k < ws.len() ==> (#[trigger] ws[k]).first < ws[k].last <= n
    &&& forall|k: int, l: int| 0 <= k && l == k + 1 && l < ws.len() ==> (#[trigger] ws[k]).last == (#[trigger] ws[l]).first
    &&& forall|k: int|
        0 <= k < ws.len() ==> {
            &&& (#[trigger] ws[k]).remove.start <= hs[ws[k].first as int].remove.start
            &&& hs[ws[k].last - 1].remove.end <= ws[k].remove.end <= na
            &&& ws[k].insert.start <= hs[ws[k].first as int].insert.start
            &&& hs[ws[k].last - 1].insert.end <= ws[k].insert.end <= nb
        }
}

proof fn lemma_pad(x: usize, c: usize, n: usize)
    ensures
        pad_start(x, c) <= x,
        x <= n ==> x <= pad_end(x, c, n) <= n,
{
}

proof fn lemma_windows_step(ws: Seq<Window>, hs: Seq<Hunk>, i: int, c: usize, na: usize, nb: usize, merge: bool)
    requires
        0 <= i < hs.len(),
        i + 1 <= usize::MAX,
        hunks_fit(hs, na as int, nb as int),
        windows_wf(ws, hs, i, na as int, nb as int),
        merge ==> ws.len() > 0,
    ensures
        windows_wf(
            if merge {
                ws.update(ws.len() - 1, stretch(ws.last(), hs[i], i, c, na, nb))
            } else {
                ws.push(hunk_window(hs[i], i, c, na, nb))
            },
            hs,
            i + 1,
            na as int,
            nb as int,
        ),
{
    let h = hs[i];
    lemma_pad(h.remove.start, c, na);
    lemma_pad(h.remove.end, c, na);
    lemma_pad(h.insert.start, c, nb);
    lemma_pad(h.insert.end, c, nb);
    if merge {
        assert(ws[ws.len() - 1].last == i);
        let w = stretch(ws.last(), h, i, c, na, nb);
        let ws2 = ws.update(ws.len() - 1, w);
        assert(ws[ws.len() - 1] == ws.last());
        assert forall|k: int| 0 <= k < ws2.len() implies {
            &&& (#[trigger] ws2[k]).remove.start <= hs[ws2[k].first as int].remove.start
            &&& hs[ws2[k].last - 1].remove.end <= ws2[k].remove.end <= na
            &&& ws2[k].insert.start <= hs[ws2[k].first as int].insert.start
            &&& hs[ws2[k].last - 1].insert.end <= ws2[k].insert.end <= nb
        } by {
            if k < ws.len() - 1 {
                assert(ws2[k] == ws[k]);
            } else {
                assert(ws2[k] == w);
            }
        }
        assert forall|k: int, l: int| 0 <= k && l == k + 1 && l < ws2.len() implies (#[trigger] ws2[k]).last == (
        #[trigger] ws2[l]).first by {
            assert(ws2[k] == ws[k]);
            assert(ws[k].last == ws[l].first);
        }
        assert forall|k: int| 0 <= k < ws2.len() implies (#[trigger] ws2[k]).first < ws2[k].last <= i + 1 by {
            if k < ws.len() - 1 {
                assert(ws2[k] == ws[k]);
            } else {
                assert(ws2[k] == w);
            }
        }
        if ws.len() == 1 {
            assert(ws2[0] == w);
        } else {
            assert(ws2[0] == ws[0]);
        }
    } else {
        let w = hunk_window(h, i, c, na, nb);
        let ws2 = ws.push(w);
        assert forall|k: int| 0 <= k < ws2.len() implies {
            &&& (#[trigger] ws2[k]).remove.start <= hs[ws2[k].first as int].remove.start
            &&& hs[ws2[k].last - 1].remove.end <= ws2[k].remove.end <= na
            &&& ws2[k].insert.start <= hs[ws2[k].first as int].insert.start
            &&& hs[ws2[k].last - 1].insert.end <= ws2[k].insert.end <= nb
        } by {
            if k < ws.len() {
                assert(ws2[k] == ws[k]);
            } else {
                assert(ws2[k] == w);
            }
        }
        assert forall|k: int, l: int| 0 <= k && l == k + 1 && l < ws2.len() implies (#[trigger] ws2[k]).last == (
        #[trigger] ws2[l]).first by {
            assert(ws2[k] == ws[k]);
            if l < ws.len() {
                assert(ws2[l] == ws[l]);
                assert(ws[k].last == ws[l].first);
            } else {
                assert(ws[k] == ws.last());
            }
        }
        assert forall|k: int| 0 <= k < ws2.len() implies (#[trigger] ws2[k]).first < ws2[k].last <= i + 1 by {
            if k < ws.len() {
                assert(ws2[k] == ws[k]);
            } else {
                assert(ws2[k] == w);
            }
        }
        if ws.len() > 0 {
            assert(ws2[0] == ws[0]);
        }
    }
}

/// Groups the hunks into the windows of the report, with `c` lines of
/// context on each side of a hunk.
pub fn context_windows(hunks: &Vec<Hunk>, c: usize, na: usize, nb: usize) -> (ws: Vec<Window>)
    requires
        hunks_fit(hunks@, na as int, nb as int),
    ensures
        ws@ == merged_windows(hunks@, c, na, nb),
        windows_wf(ws@, hunks@, hunks@.len() as int, na as int, nb as int),
{
    let mut ws: Vec<Window> = Vec::new();
    let mut i: usize = 0;
    while i < hunks.len()
        invariant
            i <= hunks@.len(),
            hunks_fit(hunks@, na as int, nb as int),
            ws@ == merged_windows(hunks@.take(i as int), c, na, nb),
            windows_wf(ws@, hunks@, i as int, na as int, nb as int),
        decreases hunks@.len() - i,
    {
        let h = hunks[i];
        let ghost old_ws = ws@;
        proof {
            assert(hunks@.take(i + 1).drop_last() =~= hunks@.take(i as int));
            assert(hunks@.take(i + 1).last() == h);
        }
        let n = ws.len();
        let merge = if n == 0 {
            false
        } else {
            let top = ws[n - 1];
            top.remove.end > h.remove.start || c > h.remove.start - top.remove.end
        };
        proof {
            if n > 0 {
                assert(ws@[n - 1] == old_ws.last());
            }
            assert(merge == (old_ws.len() > 0 && joins(old_ws.last(), h, c)));
        }
        if merge {
            let top = ws[n - 1];
            let e = if c < na - h.remove.end { h.remove.end + c } else { na };
            let f = if c < nb - h.insert.end { h.insert.end + c } else { nb };
            let w = Window {
                remove: Range { start: top.remove.start, end: if top.remove.end >= e { top.remove.end } else { e } },
                insert: Range { start: top.insert.start, end: if top.insert.end >= f { top.insert.end } else { f } },
                first: top.first,
                last: i + 1,
            };
            ws.set(n - 1, w);
            proof {
                assert(w == stretch(old_ws.last(), h, i as int, c, na, nb));
                assert(ws@ =~= old_ws.update(n - 1, w));
            }
        } else {
            let w = Window {
                remove: Range {
                    start: if h.remove.start > c { h.remove.start - c } else { 0 },
                    end: if c < na - h.remove.end { h.remove.end + c } else { na },
                },
                insert: Range {
                    start: if h.insert.start > c { h.insert.start - c } else { 0 },
                    end: if c < nb - h.insert.end { h.insert.end + c } else { nb },
                },
                first: i,
                last: i + 1,
            };
            ws.push(w);
            proof {
                assert(w == hunk_window(h, i as int, c, na, nb));
            }
        }
        proof {
            lemma_windows_step(old_ws, hunks@, i as int, c, na, nb, merge);
        }
        i += 1;
    }
    proof {
        assert(hunks@.take(i as int) =~= hunks@);
    }
    ws
}

/// One line of the report: a tag byte, the text, a line feed.
pub open spec fn text_line(tag: u8, s: Seq<u8>) -> Seq<u8> {
    seq![tag] + s + seq![10u8]
}

/// The lines `s[lo..hi)`, each under `tag`.
pub open spec fn span_text(tag: u8, s: Seq<Vec<u8>>, lo: int, hi: int) -> Seq<u8>
    decreases hi - lo,
{
    if lo >= hi {
        Seq::empty()
    } else {
        text_line(tag, s[lo]@) + span_text(tag, s, lo + 1, hi)
    }
}

/// The body of a block from line `cur` of `a` to line `end`, holding the hunks
/// `i..j`: unchanged lines under a space, then for each hunk its old lines
/// under `-` and its new lines under `+`.
pub open spec fn window_body(hs: Seq<Hunk>, i: int, j: int, cur: int, end: int, a: Seq<Vec<u8>>, b: Seq<Vec<u8>>) -> Seq<u8>
    decreases j - i,
{
    if i >= j {
        span_text(32u8, a, cur, end)
    } else {
        span_text(32u8, a, cur, hs[i].remove.start as int) + span_text(45u8, a, hs[i].remove.start as int, hs[i].remove.end as int)
            + span_text(43u8, b, hs[i].insert.start as int, hs[i].insert.end as int) + window_body(
            hs,
            i + 1,
            j,
            hs[i].remove.end as int,
            end,
            a,
            b,
        )
    }
}

/// Decimal digits of `n`, in ASCII.
pub open spec fn decimal(n: nat) -> Seq<u8>
    decreases n,
{
    if n < 10 {
        seq![(48 + n) as u8]
    } else {
        decimal(n / 10) + seq![(48 + n % 10) as u8]
    }
}

/// `@@ -<start>,<length> +<start>,<length> @@` with one-based starts.
pub open spec fn window_header(w: Window) -> Seq<u8> {
    seq![64u8, 64u8, 32u8, 45u8] + decimal((w.remove.start + 1) as nat) + seq![44u8] + decimal(
        (w.remove.end - w.remove.start) as nat,
    ) + seq![32u8, 43u8] + decimal((w.insert.start + 1) as nat) + seq![44u8] + decimal(
        (w.insert.end - w.insert.start) as nat,
    ) + seq![32u8, 64u8, 64u8, 10u8]
}

/// The blocks `ws[k..]`, each a header and a body.
pub open spec fn windows_text(ws: Seq<Window>, k: int, hs: Seq<Hunk>, a: Seq<Vec<u8>>, b: Seq<Vec<u8>>) -> Seq<u8>
    decreases ws.len() - k,
{
    if k >= ws.len() || k < 0 {
        Seq::empty()
    } else {
        window_header(ws[k]) + window_body(
            hs,
            ws[k].first as int,
            ws[k].last as int,
            ws[k].remove.start as int,
            ws[k].remove.end as int,
            a,
            b,
        ) + windows_text(ws, k + 1, hs, a, b)
    }
}

/// The whole report: nothing when there is no hunk; otherwise the two label
/// lines (`--- ` and `+++ `) and one block per window.
pub open spec fn report(hs: Seq<Hunk>, a: Seq<Vec<u8>>, b: Seq<Vec<u8>>, c: usize, label_a: Seq<u8>, label_b: Seq<u8>) -> Seq<u8> {
    if hs.len() == 0 {
        Seq::empty()
    } else {
        seq![45u8, 45u8, 45u8, 32u8] + label_a + seq![10u8] + seq![43u8, 43u8, 43u8, 32u8] + label_b + seq![10u8]
            + windows_text(merged_windows(hs, c, a.len() as usize, b.len() as usize), 0, hs, a, b)
    }
}

/// Appends the bytes of `s`.
fn push_bytes(out: &mut Vec<u8>, s: &Vec<u8>)
    ensures
        final(out)@ == old(out)@ + s@,
{
    let ghost start = out@;
    let mut k: usize = 0;
    while k < s.len()
        invariant
            k <= s@.len(),
            out@ == start + s@.take(k as int),
        decreases s@.len() - k,
    {
        out.push(s[k]);
        k += 1;
        proof {
            assert(out@ =~= start + s@.take(k as int));
        }
    }
    proof {
        assert(s@.take(k as int) =~= s@);
    }
}

/// Appends `text_line(tag, line)`.
fn push_line(out: &mut Vec<u8>, tag: u8, line: &Vec<u8>)
    ensures
        final(out)@ == old(out)@ + text_line(tag, line@),
{
    let ghost start = out@;
    out.push(tag);
    push_bytes(out, line);
    out.push(10u8);
    proof {
        assert(out@ =~= start + text_line(tag, line@));
    }
}

/// Appends the lines `s[lo..hi)` under `tag`.
fn push_span(out: &mut Vec<u8>, tag: u8, s: &Vec<Vec<u8>>, lo: usize, hi: usize)
    requires
        lo <= hi <= s@.len(),
    ensures
        final(out)@ == old(out)@ + span_text(tag, s@, lo as int, hi as int),
{
    let ghost start = out@;
    let mut k: usize = lo;
    proof {
        assert(start =~= start + Seq::<u8>::empty());
    }
    while k < hi
        invariant
            lo <= k <= hi <= s@.len(),
            out@ + span_text(tag, s@, k as int, hi as int) == start + span_text(tag, s@, lo as int, hi as int),
        decreases hi - k,
    {
        let ghost before = out@;
        push_line(out, tag, &s[k]);
        proof {
            let rest = span_text(tag, s@, k + 1, hi as int);
            assert(before + (text_line(tag, s@[k as int]@) + rest) =~= out@ + rest);
        }
        k += 1;
    }
    proof {
        assert(out@ + span_text(tag, s@, k as int, hi as int) =~= out@);
    }
}

/// Appends the decimal digits of `n`.
fn push_decimal(out: &mut Vec<u8>, n: usize)
    ensures
        final(out)@ == old(out)@ + decimal(n as nat),
    decreases n,
{
    let ghost start = out@;
    if n >= 10 {
        push_decimal(out, n / 10);
    }
    out.push(48u8 + (n % 10) as u8);
    proof {
        assert(out@ =~= start + decimal(n as nat));
    }
}

/// Appends `window_header(w)`.
fn push_header(out: &mut Vec<u8>, w: Window)
    requires
        w.remove.start <= w.remove.end < usize::MAX,
        w.insert.start <= w.insert.end < usize::MAX,
    ensures
        final(out)@ == old(out)@ + window_header(w),
{
    let ghost start = out@;
    out.push(64u8);
    out.push(64u8);
    out.push(32u8);
    out.push(45u8);
    push_decimal(out, w.remove.start + 1);
    out.push(44u8);
    push_decimal(out, w.remove.end - w.remove.start);
    out.push(32u8);
    out.push(43u8);
    push_decimal(out, w.insert.start + 1);
    out.push(44u8);
    push_decimal(out, w.insert.end - w.insert.start);
    out.push(32u8);
    out.push(64u8);
    out.push(64u8);
    out.push(10u8);
    proof {
        assert(out@ =~= start + window_header(w));
    }
}

/// Appends `window_body` for the hunks `first..last`, from line `start` of
/// `a` to line `end`.
fn push_body(
    out: &mut Vec<u8>,
    hunks: &Vec<Hunk>,
    first: usize,
    last: usize,
    start: usize,
    end: usize,
    a: &Vec<Vec<u8>>,
    b: &Vec<Vec<u8>>,
)
    requires
        hunks_fit(hunks@, a@.len() as int, b@.len() as int),
        first < last <= hunks@.len(),
        start <= hunks@[first as int].remove.start,
        hunks@[last - 1].remove.end <= end <= a@.len(),
    ensures
        final(out)@ == old(out)@ + window_body(hunks@, first as int, last as int, start as int, end as int, a@, b@),
{
    let ghost out0 = out@;
    let ghost total = window_body(hunks@, first as int, last as int, start as int, end as int, a@, b@);
    let mut i: usize = first;
    let mut cur: usize = start;
    proof {
        assert(out0 =~= out0 + Seq::<u8>::empty());
    }
    while i < last
        invariant
            hunks_fit(hunks@, a@.len() as int, b@.len() as int),
            first <= i <= last <= hunks@.len(),
            hunks@[last - 1].remove.end <= end <= a@.len(),
            i < last ==> cur <= hunks@[i as int].remove.start,
            i == last ==> cur <= end,
            out@ + window_body(hunks@, i as int, last as int, cur as int, end as int, a@, b@) == out0 + total,
        decreases last - i,
    {
        let h = hunks[i];
        let ghost before = out@;
        push_span(out, 32u8, a, cur, h.remove.start);
        push_span(out, 45u8, a, h.remove.start, h.remove.end);
        push_span(out, 43u8, b, h.insert.start, h.insert.end);
        proof {
            let rest = window_body(hunks@, i + 1, last as int, h.remove.end as int, end as int, a@, b@);
            let t1 = span_text(32u8, a@, cur as int, h.remove.start as int);
            let t2 = span_text(45u8, a@, h.remove.start as int, h.remove.end as int);
            let t3 = span_text(43u8, b@, h.insert.start as int, h.insert.end as int);
            assert(before + (t1 + t2 + t3 + rest) =~= out@ + rest);
            if i + 1 < last {
                assert(hunks@[i as int].remove.end <= hunks@[i + 1].remove.start);
            } else {
                assert(hunks@[i as int] == hunks@[last - 1]);
            }
        }
        cur = h.remove.end;
        i += 1;
    }
    push_span(out, 32u8, a, cur, end);
}

/// Renders the report of `hunks`, the differences between `a` and `b`, with
/// `c` lines of context around each hunk, under the labels of the two
/// sides. Without hunks the report is empty.
pub fn render_report(
    hunks: &Vec<Hunk>,
    a: &Vec<Vec<u8>>,
    b: &Vec<Vec<u8>>,
    c: usize,
    label_a: &Vec<u8>,
    label_b: &Vec<u8>,
) -> (r: Vec<u8>)
    requires
        hunks_fit(hunks@, a@.len() as int, b@.len() as int),
        a@.len() < usize::MAX,
        b@.len() < usize::MAX,
    ensures
        r@ == report(hunks@, a@, b@, c, label_a@, label_b@),
        hunks@.len() == 0 ==> r@.len() == 0,
{
    let mut out: Vec<u8> = Vec::new();
    if hunks.len() == 0 {
        return out;
    }
    out.push(45u8);
    out.push(45u8);
    out.push(45u8);
    out.push(32u8);
    push_bytes(&mut out, label_a);
    out.push(10u8);
    out.push(43u8);
    out.push(43u8);
    out.push(43u8);
    out.push(32u8);
    push_bytes(&mut out, label_b);
    out.push(10u8);
    let ghost head = out@;
    let ws = context_windows(hunks, c, a.len(), b.len());
    let ghost total = windows_text(ws@, 0, hunks@, a@, b@);
    proof {
        assert(head =~= head + Seq::<u8>::empty());
    }
    let mut k: usize = 0;
    while k < ws.len()
        invariant
            hunks_fit(hunks@, a@.len() as int, b@.len() as int),
            a@.len() < usize::MAX,
            b@.len() < usize::MAX,
            windows_wf(ws@, hunks@, hunks@.len() as int, a@.len() as int, b@.len() as int),
            k <= ws@.len(),
            out@ + windows_text(ws@, k as int, hunks@, a@, b@) == head + total,
        decreases ws@.len() - k,
    {
        let w = ws[k];
        let ghost before = out@;
        proof {
            let f = w.first as int;
            let l = w.last as int;
            assert(ws@[k as int] == w);
            assert(hunks@[f].remove.start <= hunks@[f].remove.end);
            assert(hunks@[l - 1].remove.start <= hunks@[l - 1].remove.end);
            assert(hunks@[f].insert.start <= hunks@[f].insert.end);
            assert(hunks@[l - 1].insert.start <= hunks@[l - 1].insert.end);
            if f < l - 1 {
                assert(hunks@[f].remove.end <= hunks@[l - 1].remove.start);
                assert(hunks@[f].insert.end <= hunks@[l - 1].insert.start);
            }
        }
        push_header(&mut out, w);
        push_body(&mut out, hunks, w.first, w.last, w.remove.start, w.remove.end, a, b);
        proof {
            let hd = window_header(w);
            let bd = window_body(hunks@, w.first as int, w.last as int, w.remove.start as int, w.remove.end as int, a@, b@);
            let rest = windows_text(ws@, k + 1, hunks@, a@, b@);
            assert(before + (hd + bd + rest) =~= out@ + rest);
        }
        k += 1;
    }
    proof {
        assert(out@ + windows_text(ws@, k as int, hunks@, a@, b@) =~= out@);
        assert(ws@ == merged_windows(hunks@, c, a@.len() as usize, b@.len() as usize));
    }
    out
}

/// Two hunks render as one block when their padded windows overlap (the
/// window of the first, widened by `c` more lines, passes the start of the
/// second), and as two blocks when the windows are disjoint.
pub proof fn lemma_context_merge(h1: Hunk, h2: Hunk, c: usize, na: usize, nb: usize)
    requires
        hunks_fit(seq![h1, h2], na as int, nb as int),
    ensures
        pad_end(h1.remove.end, c, na) + c > h2.remove.start ==> merged_windows(seq![h1, h2], c, na, nb).len() == 1,
        pad_end(h1.remove.end, c, na) + c <= h2.remove.start ==> merged_windows(seq![h1, h2], c, na, nb).len() == 2,
{
    let hs = seq![h1, h2];
    assert(hs.drop_last() =~= seq![h1]);
    assert(seq![h1].drop_last() =~= Seq::<Hunk>::empty());
    assert(merged_windows(Seq::<Hunk>::empty(), c, na, nb).len() == 0);
    assert(merged_windows(seq![h1], c, na, nb) == seq![hunk_window(h1, 0, c, na, nb)]);
}

proof fn lemma_script_apart<T>(a: Seq<T>, b: Seq<T>, hs: Seq<Hunk>, i: int, j: int)
    requires
        is_edit_script(a, b, hs),
        0 <= i < j < hs.len(),
    ensures
        hs[i].remove.end <= hs[j].remove.start,
        hs[i].insert.end <= hs[j].insert.start,
    decreases j - i,
{
    assert(spans_match(
        a,
        b,
        kept_a_start(hs, 0, j),
        kept_a_end(hs, a.len() as int, j),
        kept_b_start(hs, 0, j),
        kept_b_end(hs, b.len() as int, j),
    ));
    if i < j - 1 {
        lemma_script_apart(a, b, hs, i, j - 1);
        assert(hunk_wf(hs[j - 1]));
    }
}

/// The hunks of an edit script from `a` to `b` lie within the two sequences
/// and come in order, as `render_report` asks.
pub proof fn lemma_edit_script_fits<T>(a: Seq<T>, b: Seq<T>, hs: Seq<Hunk>)
    requires
        is_edit_script(a, b, hs),
    ensures
        hunks_fit(hs, a.len() as int, b.len() as int),
{
    assert forall|i: int| 0 <= i < hs.len() implies (#[trigger] hs[i]).remove.start <= hs[i].remove.end <= a.len()
        && hs[i].insert.start <= hs[i].insert.end <= b.len() by {
        assert(hunk_wf(hs[i]));
        assert(spans_match(
            a,
            b,
            kept_a_start(hs, 0, i + 1),
            kept_a_end(hs, a.len() as int, i + 1),
            kept_b_start(hs, 0, i + 1),
            kept_b_end(hs, b.len() as int, i + 1),
        ));
    }
    assert forall|i: int, j: int| 0 <= i < j < hs.len() implies (#[trigger] hs[i]).remove.end <= (
    #[trigger] hs[j]).remove.start && hs[i].insert.end <= hs[j].insert.start by {
        lemma_script_apart(a, b, hs, i, j);
    }
}

proof fn lemma_merged_shape(hs: Seq<Hunk>, c: usize, na: usize, nb: usize)
    requires
        hunks_fit(hs, na as int, nb as int),
        hs.len() < usize::MAX,
    ensures
        ({
            let ws = merged_windows(hs, c, na, nb);
            &&& hs.len() > 0 ==> ws.len() > 0 && ws.last().remove.end == pad_end(hs.last().remove.end, c, na)
            &&& forall|k: int| 0 <= k < ws.len() ==> (#[trigger] ws[k]).first < hs.len()
            &&& forall|i: int|
                0 <= i && i + 1 < hs.len() ==> ((exists|k: int| 0 <= k < ws.len() && (#[trigger] ws[k]).first == i + 1)
                    <==> !(pad_end(hs[i].remove.end, c, na) + c > hs[i + 1].remove.start))
        }),
    decreases hs.len(),
{
    if hs.len() > 0 {
        let prev = hs.drop_last();
        let n = hs.len() - 1;
        assert(hunks_fit(prev, na as int, nb as int)) by {
            assert forall|i: int, j: int| 0 <= i < j < prev.len() implies (#[trigger] prev[i]).remove.end <= (
            #[trigger] prev[j]).remove.start && prev[i].insert.end <= prev[j].insert.start by {
                assert(prev[i] == hs[i] && prev[j] == hs[j]);
            }
            assert forall|i: int| 0 <= i < prev.len() implies (#[trigger] prev[i]).remove.start <= prev[i].remove.end
                <= na && prev[i].insert.start <= prev[i].insert.end <= nb by {
                assert(prev[i] == hs[i]);
            }
        }
        lemma_merged_shape(prev, c, na, nb);
        let ws0 = merged_windows(prev, c, na, nb);
        let ws = merged_windows(hs, c, na, nb);
        let h = hs.last();
        assert(hs[n] == h);
        if n > 0 {
            assert(prev.last() == hs[n - 1]);
            assert(hs[n - 1].remove.end <= h.remove.start);
        }
        if ws0.len() > 0 && joins(ws0.last(), h, c) {
            assert(ws == ws0.update(ws0.len() - 1, stretch(ws0.last(), h, n, c, na, nb)));
            assert forall|k: int| 0 <= k < ws.len() implies (#[trigger] ws[k]).first < hs.len() by {
                if k < ws0.len() - 1 {
                    assert(ws[k] == ws0[k]);
                } else {
                    assert(ws0[ws0.len() - 1] == ws0.last());
                }
            }
            assert forall|i: int| 0 <= i && i + 1 < hs.len() implies ((exists|k: int|
                0 <= k < ws.len() && (#[trigger] ws[k]).first == i + 1) <==> !(pad_end(hs[i].remove.end, c, na) + c
                > hs[i + 1].remove.start)) by {
                if i + 1 < n {
                    assert(prev[i] == hs[i] && prev[i + 1] == hs[i + 1]);
                    if exists|k: int| 0 <= k < ws0.len() && (#[trigger] ws0[k]).first == i + 1 {
                        let k = choose|k: int| 0 <= k < ws0.len() && (#[trigger] ws0[k]).first == i + 1;
                        assert(ws[k].first == i + 1);
                    }
                    if exists|k: int| 0 <= k < ws.len() && (#[trigger] ws[k]).first == i + 1 {
                        let k = choose|k: int| 0 <= k < ws.len() && (#[trigger] ws[k]).first == i + 1;
                        assert(ws0[k].first == i + 1);
                    }
                } else {
                    assert(i + 1 == n);
                    if exists|k: int| 0 <= k < ws.len() && (#[trigger] ws[k]).first == i + 1 {
                        let k = choose|k: int| 0 <= k < ws.len() && (#[trigger] ws[k]).first == i + 1;
                        assert(ws0[k].first < prev.len());
                    }
                }
            }
        } else {
            assert(ws == ws0.push(hunk_window(h, n, c, na, nb)));
            assert forall|k: int| 0 <= k < ws.len() implies (#[trigger] ws[k]).first < hs.len() by {
                if k < ws0.len() {
                    assert(ws[k] == ws0[k]);
                }
            }
            assert forall|i: int| 0 <= i && i + 1 < hs.len() implies ((exists|k: int|
                0 <= k < ws.len() && (#[trigger] ws[k]).first == i + 1) <==> !(pad_end(hs[i].remove.end, c, na) + c
                > hs[i + 1].remove.start)) by {
                if i + 1 < n {
                    assert(prev[i] == hs[i] && prev[i + 1] == hs[i + 1]);
                    if exists|k: int| 0 <= k < ws0.len() && (#[trigger] ws0[k]).first == i + 1 {
                        let k = choose|k: int| 0 <= k < ws0.len() && (#[trigger] ws0[k]).first == i + 1;
                        assert(ws[k].first == i + 1);
                    }
                    if exists|k: int| 0 <= k < ws.len() && (#[trigger] ws[k]).first == i + 1 {
                        let k = choose|k: int| 0 <= k < ws.len() && (#[trigger] ws[k]).first == i + 1;
                        if k < ws0.len() {
                            assert(ws0[k].first == i + 1);
                        }
                    }
                } else {
                    assert(ws[ws0.len() as int].first == i + 1);
                }
            }
        }
    }
}

/// Inside a whole list of hunks, hunk `i + 1` opens a block of its own
/// exactly when its padded window and that of hunk `i` are disjoint (the
/// window of hunk `i`, widened by `c` more lines, does not pass its start);
/// otherwise it joins the block of hunk `i`.
pub proof fn lemma_context_merge_in_list(hs: Seq<Hunk>, c: usize, na: usize, nb: usize, i: int)
    requires
        hunks_fit(hs, na as int, nb as int),
        hs.len() < usize::MAX,
        0 <= i,
        i + 1 < hs.len(),
    ensures
        (exists|k: int|
            0 <= k < merged_windows(hs, c, na, nb).len() && (#[trigger] merged_windows(hs, c, na, nb)[k]).first == i
                + 1) <==> !(pad_end(hs[i].remove.end, c, na) + c > hs[i + 1].remove.start),
{
    lemma_merged_shape(hs, c, na, nb);
}

} // verus!
