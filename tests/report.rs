use patience_diff::{context_windows, patience_diff, render_report, Hunk, Range};

fn lines(s: &[&str]) -> Vec<Vec<u8>> {
    s.iter().map(|l| l.as_bytes().to_vec()).collect()
}

fn hunk(rs: usize, re: usize, is: usize, ie: usize) -> Hunk {
    Hunk {
        remove: Range { start: rs, end: re },
        insert: Range { start: is, end: ie },
    }
}

fn report(a: &[&str], b: &[&str], c: usize) -> String {
    let hs = patience_diff(a.to_vec(), b.to_vec());
    let out = render_report(&hs, &lines(a), &lines(b), c, &b"A".to_vec(), &b"B".to_vec());
    String::from_utf8(out).unwrap()
}

const TEN: [&str; 10] = ["0", "1", "2", "3", "4", "5", "6", "7", "8", "9"];
const TEN_CHANGED: [&str; 10] = ["0", "1", "x", "3", "4", "5", "y", "7", "8", "9"];

#[test]
fn no_hunks_render_nothing() {
    let a = ["p", "q"];
    assert_eq!(report(&a, &a, 3), "");
    let out = render_report(&vec![], &lines(&a), &lines(&a), 3, &b"A".to_vec(), &b"B".to_vec());
    assert!(out.is_empty());
}

#[test]
fn single_change_with_context() {
    assert_eq!(
        report(&["a", "b", "c", "d", "e"], &["a", "b", "X", "d", "e"], 1),
        "--- A\n+++ B\n@@ -2,3 +2,3 @@\n b\n-c\n+X\n d\n"
    );
}

#[test]
fn distant_hunks_render_two_blocks() {
    assert_eq!(
        report(&TEN, &TEN_CHANGED, 1),
        "--- A\n+++ B\n@@ -2,3 +2,3 @@\n 1\n-2\n+x\n 3\n@@ -6,3 +6,3 @@\n 5\n-6\n+y\n 7\n"
    );
}

#[test]
fn close_hunks_render_one_block() {
    assert_eq!(
        report(&TEN, &TEN_CHANGED, 2),
        "--- A\n+++ B\n@@ -1,9 +1,9 @@\n 0\n 1\n-2\n+x\n 3\n 4\n 5\n-6\n+y\n 7\n 8\n"
    );
}

#[test]
fn overlapping_windows_merge() {
    // first window ends at 4; 4 + 1 > 4, so the second hunk joins it
    let hs = vec![hunk(2, 3, 2, 3), hunk(4, 5, 4, 5)];
    let ws = context_windows(&hs, 1, 10, 10);
    assert_eq!(ws.len(), 1);
    assert_eq!(ws[0].remove, Range { start: 1, end: 6 });
    assert_eq!((ws[0].first, ws[0].last), (0, 2));
    // windows [1, 4) and [4, 7) only touch: 4 + 1 > 5 fails, two windows
    let hs = vec![hunk(2, 3, 2, 3), hunk(5, 6, 5, 6)];
    assert_eq!(context_windows(&hs, 1, 10, 10).len(), 2);
    // 4 + 1 > 6 fails: two windows
    let hs = vec![hunk(2, 3, 2, 3), hunk(6, 7, 6, 7)];
    let ws = context_windows(&hs, 1, 10, 10);
    assert_eq!(ws.len(), 2);
    assert_eq!(ws[1].insert, Range { start: 5, end: 8 });
}

#[test]
fn windows_clamp_at_both_ends() {
    let hs = vec![hunk(0, 1, 0, 2)];
    let ws = context_windows(&hs, 3, 2, 3);
    assert_eq!(ws[0].remove, Range { start: 0, end: 2 });
    assert_eq!(ws[0].insert, Range { start: 0, end: 3 });
}

#[test]
fn pure_insertion_at_the_end() {
    assert_eq!(
        report(&["a", "b"], &["a", "b", "c"], 3),
        "--- A\n+++ B\n@@ -1,2 +1,3 @@\n a\n b\n+c\n"
    );
}

#[test]
fn large_line_numbers_in_header() {
    let a: Vec<String> = (0..120).map(|i| i.to_string()).collect();
    let mut b = a.clone();
    b[104] = "changed".to_string();
    let ar: Vec<&str> = a.iter().map(|s| s.as_str()).collect();
    let br: Vec<&str> = b.iter().map(|s| s.as_str()).collect();
    let out = report(&ar, &br, 0);
    assert_eq!(out, "--- A\n+++ B\n@@ -105,1 +105,1 @@\n-104\n+changed\n");
}
