use edit_overlay::diff::Diff;
use edit_overlay::log::EditLog;

fn contents(log: &EditLog) -> Vec<Diff> {
    let mut out = Vec::new();
    for i in 0..log.len() {
        out.push(log.get(i).clone());
    }
    out
}

fn ordered(log: &EditLog) -> bool {
    let all = contents(log);
    all.iter().all(|d| d.get_slice().start <= d.get_slice().end)
        && all.windows(2).all(|w| {
            w[0].get_slice().start < w[1].get_slice().start
                && w[0].get_slice().end <= w[1].get_slice().start
        })
}

#[test]
fn a_new_log_is_empty() {
    let log = EditLog::new();
    assert_eq!(log.len(), 0);
}

#[test]
fn inserting_merges_what_the_edit_meets() {
    let mut log = EditLog::new();
    log.insert_edit(Diff::new(2..6, b"23456"));
    log.insert_edit(Diff::new(8..13, b"89ABCD"));
    log.insert_edit(Diff::new(15..20, b"-----"));
    assert_eq!(log.len(), 3);
    log.insert_edit(Diff::new(5..9, b"56789"));
    assert_eq!(
        contents(&log),
        vec![Diff::new(2..13, b"23456789ABCD"), Diff::new(15..20, b"-----")]
    );
}

#[test]
fn a_total_deletion_absorbs_what_it_meets() {
    let merged = Diff::new(2..13, b"23456789ABCD");
    let del = Diff::new(1..70, b"");
    assert_eq!(del.clone().union(merged), del);
}

#[test]
fn inserting_keeps_the_spans_in_order() {
    let mut log = EditLog::new();
    for edit in [
        Diff::new(30..34, b"c"),
        Diff::new(10..12, b"a"),
        Diff::new(20..22, b"b"),
        Diff::new(40..45, b""),
        Diff::new(11..21, b"merge"),
        Diff::new(0..3, b"head"),
        Diff::new(44..50, b"tail"),
    ] {
        assert!(!log.clashes(&edit));
        log.insert_edit(edit);
        assert!(ordered(&log));
    }
    assert_eq!(
        contents(&log)
            .iter()
            .map(|d| (d.get_slice().start, d.get_slice().end))
            .collect::<Vec<_>>(),
        vec![(0, 3), (10, 22), (30, 34), (40, 50)]
    );
}

#[test]
fn an_edit_is_put_before_the_first_later_start() {
    let mut log = EditLog::new();
    log.insert_edit(Diff::new(10..12, b"b"));
    log.insert_edit(Diff::new(2..4, b"a"));
    log.insert_edit(Diff::new(20..22, b"c"));
    log.insert_edit(Diff::new(14..16, b"m"));
    assert_eq!(
        contents(&log),
        vec![
            Diff::new(2..4, b"a"),
            Diff::new(10..12, b"b"),
            Diff::new(14..16, b"m"),
            Diff::new(20..22, b"c"),
        ]
    );
}

#[test]
fn an_enclosing_edit_clashes_and_breaks_the_order() {
    let mut log = EditLog::new();
    log.insert_edit(Diff::new(5..10, b"x"));
    let outer = Diff::new(3..12, b"y");
    assert!(log.clashes(&outer));
    log.insert_edit(outer);
    // Nothing was merged: the two spans now overlap.
    assert_eq!(contents(&log), vec![Diff::new(3..12, b"y"), Diff::new(5..10, b"x")]);
    assert!(!ordered(&log));
}

#[test]
fn a_second_insertion_at_one_offset_clashes() {
    let mut log = EditLog::new();
    log.insert_edit(Diff::new(5..5, b"a"));
    let again = Diff::new(5..5, b"b");
    assert!(log.clashes(&again));
    log.insert_edit(again);
    assert_eq!(contents(&log), vec![Diff::new(5..5, b"a"), Diff::new(5..5, b"b")]);
    assert!(!ordered(&log));
}

#[test]
fn merging_folds_from_left_to_right() {
    let mut log = EditLog::new();
    log.insert_edit(Diff::new(0..4, b"abcd"));
    log.insert_edit(Diff::new(6..10, b"ghij"));
    // Meets both: its start lies in the first span, its end in the second.
    log.insert_edit(Diff::new(2..7, b"-----"));
    // First fold: lo = 2, hi = min(7 - 0 + 1, 4) = 4 -> "ab-----"
    // Second fold: lo = 0, hi = min(7 - 6 + 1, 4) = 2 -> "ab-----ij"
    assert_eq!(contents(&log), vec![Diff::new(0..10, b"ab-----ij")]);
}
