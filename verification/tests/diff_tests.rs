use edit_overlay::diff::{ByteSpan, Diff};
use std::cmp::Ordering;

#[test]
fn diff_mix_n_slices() {
    let a = Diff::new(2..6, b"23456");
    let b = Diff::new(8..13, b"89ABCD");
    let c = Diff::new(15..20, b"-----");
    let d = Diff::new(5..9, b"56789");

    assert_eq!(b.binary_search(&a), Ordering::Less);
    assert_eq!(b.binary_search(&c), Ordering::Greater);
    assert_eq!(b.binary_search(&d), Ordering::Equal);

    let mut diffs = vec![a, b, c];
    let matches = diffs.extract_if(.., |v| d.intersects(v)).collect::<Vec<_>>();
    let union = matches.into_iter().fold(d, |a, b| a.union(b));

    let res = Diff::new(2..13, b"23456789ABCD");
    assert_eq!(union, res);

    let del = Diff::new(1..70, b"");
    assert_eq!(del.clone(), del.union(union));
}

#[test]
fn new_keeps_span_and_bytes() {
    let d = Diff::new(3..7, b"abc");
    assert_eq!(d.get_slice(), ByteSpan { start: 3, end: 7 });
    assert_eq!(d.get_repl().as_slice(), b"abc");
}

#[test]
fn size_delta_is_bytes_minus_span() {
    assert_eq!(Diff::new(3..7, b"abc").get_size(), -1);
    assert_eq!(Diff::new(3..7, b"abcd").get_size(), 0);
    assert_eq!(Diff::new(3..3, b"abcd").get_size(), 4);
    assert_eq!(Diff::new(0..10, b"").get_size(), -10);
}

#[test]
fn span_contains_is_half_open() {
    let span = ByteSpan { start: 2, end: 5 };
    assert!(!span.contains(1));
    assert!(span.contains(2));
    assert!(span.contains(4));
    assert!(!span.contains(5));
    assert!(!ByteSpan { start: 4, end: 4 }.contains(4));
}

#[test]
fn intersects_looks_at_the_other_ends_only() {
    let inner = Diff::new(5..10, b"x");
    let outer = Diff::new(3..12, b"y");
    // Neither end of the enclosing span lies inside the inner one.
    assert!(!inner.intersects(&outer));
    // Both ends of the inner span lie inside the enclosing one.
    assert!(outer.intersects(&inner));
}

#[test]
fn intersects_on_touching_spans_depends_on_direction() {
    let left = Diff::new(2..5, b"l");
    let right = Diff::new(5..8, b"r");
    // The start of `right` is the excluded end of `left`.
    assert!(!left.intersects(&right));
    // The end of `left` is the included start of `right`.
    assert!(right.intersects(&left));
}

#[test]
fn binary_search_orders_by_span() {
    let low = Diff::new(0..2, b"");
    let high = Diff::new(5..9, b"");
    assert_eq!(low.binary_search(&high), Ordering::Greater);
    assert_eq!(high.binary_search(&low), Ordering::Less);
    assert_eq!(low.binary_search(&Diff::new(2..3, b"")), Ordering::Equal);
    assert_eq!(low.binary_search(&low.clone()), Ordering::Equal);
}

#[test]
fn union_splices_at_the_aligned_offset() {
    // lo = 5 - 2 = 3, hi = min(9 - 2 + 1, 5) = 5
    let merged = Diff::new(5..9, b"56789").union(Diff::new(2..6, b"23456"));
    assert_eq!(merged, Diff::new(2..9, b"23456789"));
    // lo = saturating(2 - 8) = 0, hi = min(9 - 8 + 1, 6) = 2
    let merged = merged.union(Diff::new(8..13, b"89ABCD"));
    assert_eq!(merged, Diff::new(2..13, b"23456789ABCD"));
}

#[test]
fn union_with_a_deletion_clamps_the_window() {
    // The existing edit holds no bytes, so both window ends fall on 0.
    let merged = Diff::new(5..7, b"xy").union(Diff::new(0..10, b""));
    assert_eq!(merged, Diff::new(0..10, b"xy"));
}

#[test]
fn union_keeps_the_tail_of_the_existing_bytes() {
    // lo = 1, hi = min(3 - 0 + 1, 8) = 4
    let merged = Diff::new(1..3, b"--").union(Diff::new(0..8, b"abcdefgh"));
    assert_eq!(merged, Diff::new(0..8, b"a--efgh"));
}

#[test]
fn union_of_an_edit_that_ends_before_the_existing_one() {
    // hi falls on 0: all bytes of the existing edit are kept after the new ones.
    let merged = Diff::new(1..2, b"N").union(Diff::new(5..8, b"old"));
    assert_eq!(merged, Diff::new(1..8, b"Nold"));
}

#[test]
fn crowds_names_what_breaks_the_order() {
    let existing = Diff::new(5..10, b"x");
    assert!(Diff::new(3..12, b"y").crowds(&existing));
    assert!(Diff::new(4..10, b"y").crowds(&existing));
    assert!(!Diff::new(5..12, b"y").crowds(&existing));
    assert!(!Diff::new(3..9, b"y").crowds(&existing));
    assert!(!Diff::new(10..12, b"y").crowds(&existing));
    let insertion = Diff::new(7..7, b"i");
    assert!(Diff::new(7..7, b"j").crowds(&insertion));
    assert!(Diff::new(7..9, b"j").crowds(&insertion));
    assert!(!Diff::new(5..7, b"j").crowds(&insertion));
}
