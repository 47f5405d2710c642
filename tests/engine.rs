use patience_diff::{longest_increasing_subsequence, patience_diff, unique_check, Hunk, Range, UniqueCheck};

fn hunk(rs: usize, re: usize, is: usize, ie: usize) -> Hunk {
    Hunk {
        remove: Range { start: rs, end: re },
        insert: Range { start: is, end: ie },
    }
}

/// The spans that the hunks leave alone match one for one, and the hunks are
/// ordered and not empty.
fn assert_edit_script(a: &[&str], b: &[&str], hs: &[Hunk]) {
    let mut pa = 0;
    let mut pb = 0;
    for h in hs {
        assert!(h.remove.start <= h.remove.end && h.insert.start <= h.insert.end);
        assert!(h.remove.start < h.remove.end || h.insert.start < h.insert.end);
        assert!(pa <= h.remove.start && pb <= h.insert.start);
        assert_eq!(a[pa..h.remove.start], b[pb..h.insert.start]);
        pa = h.remove.end;
        pb = h.insert.end;
    }
    assert_eq!(a[pa..], b[pb..]);
}

#[test]
fn check_diff() {
    let before = vec!["x", "y", "c", "z", "0"];
    let after = vec!["x", "b", "y", "z", "1"];
    assert_eq!(
        patience_diff(before, after),
        [
            Hunk {
                remove: Range { start: 1, end: 1 },
                insert: Range { start: 1, end: 2 }
            },
            Hunk {
                remove: Range { start: 2, end: 3 },
                insert: Range { start: 3, end: 3 }
            },
            Hunk {
                remove: Range { start: 4, end: 5 },
                insert: Range { start: 4, end: 5 }
            }
        ]
    )
}

#[test]
fn check_argsort() {
    let v = vec![9, 13, 7, 12, 2, 1, 4, 6, 5, 8, 3, 11, 10];
    assert_eq!(longest_increasing_subsequence(&v), vec![1, 4, 5, 8, 11]);
}

#[test]
fn check_lis() {
    let v = vec!["a", "b", "f", "e", "c"];
    assert_eq!(longest_increasing_subsequence(&v), vec!["a", "b", "f"]);
}

#[test]
fn lis_of_sorted_input_is_the_input() {
    let v: Vec<u32> = vec![1, 3, 4, 9, 20, 21];
    assert_eq!(longest_increasing_subsequence(&v), v);
}

#[test]
fn lis_of_short_inputs() {
    let empty: Vec<u8> = vec![];
    assert_eq!(longest_increasing_subsequence(&empty), empty);
    assert_eq!(longest_increasing_subsequence(&vec![7u8]), vec![7u8]);
}

#[test]
fn lis_of_equal_elements_is_one_element() {
    assert_eq!(longest_increasing_subsequence(&vec![5u8, 5, 5]), vec![5u8]);
}

#[test]
fn lis_of_pairs_orders_by_first_then_second() {
    let v: Vec<(usize, usize)> = vec![(3, 0), (1, 1), (2, 2), (0, 3)];
    assert_eq!(longest_increasing_subsequence(&v), vec![(1, 1), (2, 2)]);
}

#[test]
fn identical_inputs_give_no_hunk() {
    let a = vec!["p", "q", "p", "r"];
    assert_eq!(patience_diff(a.clone(), a), vec![]);
    let e: Vec<&str> = vec![];
    assert_eq!(patience_diff(e.clone(), e), vec![]);
}

#[test]
fn disjoint_inputs_give_one_hunk() {
    assert_eq!(patience_diff(vec!["a", "b"], vec!["c"]), vec![hunk(0, 2, 0, 1)]);
    assert_eq!(patience_diff(vec![], vec!["c", "c"]), vec![hunk(0, 0, 0, 2)]);
    assert_eq!(patience_diff(vec!["a"], vec![]), vec![hunk(0, 1, 0, 0)]);
}

#[test]
fn common_prefix_and_suffix_are_kept() {
    assert_eq!(
        patience_diff(vec!["a", "x", "a"], vec!["a", "y", "a"]),
        vec![hunk(1, 2, 1, 2)]
    );
}

#[test]
fn tokens_repeated_on_one_side_are_no_anchor() {
    // "m" is unique in b but twice in a, so only "k" anchors; the "m" after
    // it is then kept as common prefix of the piece that "k" starts
    let a = vec!["s", "m", "k", "m", "t"];
    let b = vec!["u", "k", "m", "v"];
    let hs = patience_diff(a.clone(), b.clone());
    assert_eq!(hs, vec![hunk(0, 2, 0, 1), hunk(4, 5, 3, 4)]);
    assert_edit_script(&a, &b, &hs);
}

#[test]
fn hunks_are_ordered_and_cover_the_rest() {
    let a = vec!["a", "b", "c", "d", "e", "f", "g", "b", "h", "i"];
    let b = vec!["a", "c", "d", "x", "e", "g", "f", "b", "i", "j"];
    let hs = patience_diff(a.clone(), b.clone());
    for w in hs.windows(2) {
        assert!(w[0].remove.end <= w[1].remove.start);
        assert!(w[0].insert.end <= w[1].insert.start);
    }
    assert_edit_script(&a, &b, &hs);
    assert!(!hs.is_empty());
}

#[test]
fn unique_check_marks_repeats() {
    let s = vec!["a", "b", "a", "c", "d"];
    let m = unique_check(&s, 1, 4);
    assert_eq!(m.len(), 3);
    assert!(matches!(m.get(&"a"), Some(UniqueCheck::Line(2))));
    assert!(matches!(m.get(&"b"), Some(UniqueCheck::Line(1))));
    assert!(matches!(m.get(&"c"), Some(UniqueCheck::Line(3))));
    let m = unique_check(&s, 0, 5);
    assert!(matches!(m.get(&"a"), Some(UniqueCheck::Duplicated)));
    assert!(m.get(&"z").is_none());
}

#[test]
fn hunks_are_trimmed_and_anchor_free() {
    let a = vec!["a", "b", "c", "b", "d", "e", "q", "f"];
    let b = vec!["a", "c", "x", "d", "b", "f", "q", "g"];
    let hs = patience_diff(a.clone(), b.clone());
    assert_edit_script(&a, &b, &hs);
    for h in &hs {
        let ra = &a[h.remove.start..h.remove.end];
        let rb = &b[h.insert.start..h.insert.end];
        if !ra.is_empty() && !rb.is_empty() {
            assert_ne!(ra[0], rb[0]);
            assert_ne!(ra[ra.len() - 1], rb[rb.len() - 1]);
        }
        for x in ra {
            let once_a = ra.iter().filter(|y| *y == x).count() == 1;
            let once_b = rb.iter().filter(|y| *y == x).count() == 1;
            assert!(!(once_a && once_b));
        }
    }
}

#[test]
fn lis_is_as_long_as_any_increasing_subsequence() {
    let v: Vec<u8> = vec![4, 1, 7, 3, 8, 2, 9, 5, 6, 0];
    let best = (0u32..(1 << v.len()))
        .filter_map(|mask| {
            let s: Vec<u8> = (0..v.len()).filter(|i| mask & (1 << i) != 0).map(|i| v[i]).collect();
            if s.windows(2).all(|w| w[0] < w[1]) {
                Some(s.len())
            } else {
                None
            }
        })
        .max()
        .unwrap();
    let r = longest_increasing_subsequence(&v);
    assert_eq!(r.len(), best);
    assert!(r.windows(2).all(|w| w[0] < w[1]));
}

#[test]
fn hunk_starts_after_the_common_prefix() {
    assert_eq!(patience_diff(vec!["x"], vec!["x", "x"]), vec![hunk(1, 1, 1, 2)]);
}

#[test]
fn replacements_stay_whole_and_apart() {
    let a = vec!["a", "b", "c", "d", "e", "f"];
    let b = vec!["a", "X", "c", "d", "Y", "f"];
    assert_eq!(patience_diff(a, b), vec![hunk(1, 2, 1, 2), hunk(4, 5, 4, 5)]);
}

#[test]
fn no_anchor_gives_one_hunk_over_the_middle() {
    assert_eq!(patience_diff(vec!["q", "x", "x"], vec!["x", "x", "r"]), vec![hunk(0, 3, 0, 3)]);
    assert_eq!(
        patience_diff(vec!["k", "q", "x", "x", "k"], vec!["k", "x", "x", "r", "k"]),
        vec![hunk(1, 4, 1, 4)]
    );
}

#[test]
fn lis_depends_only_on_the_order() {
    let v = vec![9, 13, 7, 12, 2, 1, 4, 6, 5, 8, 3, 11, 10];
    let w: Vec<i64> = v.iter().map(|x| 3 * (*x as i64) - 100).collect();
    let rv = longest_increasing_subsequence(&v);
    let rw = longest_increasing_subsequence(&w);
    let mapped: Vec<i64> = rv.iter().map(|x| 3 * (*x as i64) - 100).collect();
    assert_eq!(rw, mapped);
}
