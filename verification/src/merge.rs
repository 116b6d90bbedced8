//! What inserting an edit does to a well-formed log: when the order of the log
//! survives, that its spans stay within the file, and by how much the edited
//! content can grow.

use crate::diff::Edit;
use crate::log::{
    clashes, inserted, insertion_point, kept, kept_of_none, kept_step, merged, met, prefix_delta,
    total_delta, well_formed, within,
};
use vstd::prelude::*;

verus! {

/// Some edit among the first `k` of `log` is met by `incoming` and starts at `start`.
pub open spec fn met_starts_at(log: Seq<Edit>, incoming: Edit, k: int, start: int) -> bool {
    exists|i: int|
        0 <= i < k && (#[trigger] log[i]).intersects(incoming) && log[i].span.start == start
}

/// Some edit among the first `k` of `log` is met by `incoming` and ends at `end`.
pub open spec fn met_ends_at(log: Seq<Edit>, incoming: Edit, k: int, end: int) -> bool {
    exists|i: int|
        0 <= i < k && (#[trigger] log[i]).intersects(incoming) && log[i].span.end == end
}

/// `x` is one of the first `k` edits of `log`, and `incoming` does not meet it.
pub open spec fn stays(log: Seq<Edit>, incoming: Edit, k: int, x: Edit) -> bool {
    exists|i: int| 0 <= i < k && #[trigger] log[i] == x && !log[i].intersects(incoming)
}

/// The edits that are kept are edits of the log, in the order of the log.
pub proof fn kept_in_order(log: Seq<Edit>, incoming: Edit, k: int)
    requires
        well_formed(log),
        0 <= k <= log.len(),
    ensures
        well_formed(kept(log.subrange(0, k), incoming)),
        forall|a: int|
            0 <= a < kept(log.subrange(0, k), incoming).len() ==> stays(
                log,
                incoming,
                k,
                #[trigger] kept(log.subrange(0, k), incoming)[a],
            ),
    decreases k,
{
    if k == 0 {
        kept_of_none(incoming);
        assert(log.subrange(0, 0) =~= Seq::<Edit>::empty());
    } else {
        kept_in_order(log, incoming, k - 1);
        kept_step(log, k - 1, incoming);
        let before = kept(log.subrange(0, k - 1), incoming);
        let now = kept(log.subrange(0, k), incoming);
        assert forall|a: int| 0 <= a < now.len() implies stays(
            log,
            incoming,
            k,
            #[trigger] now[a],
        ) by {
            if a < before.len() {
                assert(stays(log, incoming, k - 1, before[a]));
                let i = choose|i: int|
                    0 <= i < k - 1 && #[trigger] log[i] == before[a] && !log[i].intersects(
                        incoming,
                    );
                assert(log[i] == now[a]);
            } else {
                assert(log[k - 1] == now[a]);
            }
        }
        if !log[k - 1].intersects(incoming) {
            assert forall|a: int, b: int| 0 <= a < b < now.len() implies {
                &&& (#[trigger] now[a]).span.start < (#[trigger] now[b]).span.start
                &&& now[a].span.end <= now[b].span.start
            } by {
                if b < before.len() {
                    assert(before[a].span.start < before[b].span.start);
                } else {
                    assert(stays(log, incoming, k - 1, before[a]));
                    let i = choose|i: int|
                        0 <= i < k - 1 && #[trigger] log[i] == before[a] && !log[i].intersects(
                            incoming,
                        );
                    assert(log[i].span.start < log[k - 1].span.start);
                }
            }
            assert forall|a: int| 0 <= a < now.len() implies (#[trigger] now[a]).valid() by {
                if a < before.len() {
                    assert(before[a].valid());
                } else {
                    assert(log[k - 1].valid());
                }
            }
        }
    }
}

/// The merged edit spans `incoming` and every edit that it met, and no more:
/// it starts where `incoming` or one of them starts, and ends where one ends.
pub proof fn merged_spans_all(log: Seq<Edit>, incoming: Edit, k: int)
    requires
        well_formed(log),
        incoming.valid(),
        0 <= k <= log.len(),
    ensures
        ({
            let whole = merged(log.subrange(0, k), incoming);
            &&& whole.valid()
            &&& whole.span.start <= incoming.span.start
            &&& incoming.span.end <= whole.span.end
            &&& whole.span.start == incoming.span.start || met_starts_at(
                log,
                incoming,
                k,
                whole.span.start as int,
            )
            &&& whole.span.end == incoming.span.end || met_ends_at(
                log,
                incoming,
                k,
                whole.span.end as int,
            )
            &&& forall|i: int|
                0 <= i < k && (#[trigger] log[i]).intersects(incoming) ==> whole.span.start
                    <= log[i].span.start && log[i].span.end <= whole.span.end
        }),
    decreases k,
{
    if k == 0 {
        kept_of_none(incoming);
        assert(log.subrange(0, 0) =~= Seq::<Edit>::empty());
    } else {
        merged_spans_all(log, incoming, k - 1);
        kept_step(log, k - 1, incoming);
        let before = merged(log.subrange(0, k - 1), incoming);
        let whole = merged(log.subrange(0, k), incoming);
        assert(log[k - 1].valid());
        if log[k - 1].intersects(incoming) {
            assert(whole == before.union(log[k - 1]));
            if whole.span.start != incoming.span.start {
                if whole.span.start == before.span.start {
                    let i = choose|i: int|
                        0 <= i < k - 1 && (#[trigger] log[i]).intersects(incoming)
                            && log[i].span.start == before.span.start;
                    assert(log[i].intersects(incoming) && log[i].span.start == whole.span.start);
                } else {
                    assert(log[k - 1].intersects(incoming) && log[k - 1].span.start
                        == whole.span.start);
                }
            }
            if whole.span.end != incoming.span.end {
                if whole.span.end == before.span.end {
                    let i = choose|i: int|
                        0 <= i < k - 1 && (#[trigger] log[i]).intersects(incoming)
                            && log[i].span.end == before.span.end;
                    assert(log[i].intersects(incoming) && log[i].span.end == whole.span.end);
                } else {
                    assert(log[k - 1].intersects(incoming) && log[k - 1].span.end
                        == whole.span.end);
                }
            }
        } else {
            if whole.span.start != incoming.span.start {
                let i = choose|i: int|
                    0 <= i < k - 1 && (#[trigger] log[i]).intersects(incoming)
                        && log[i].span.start == before.span.start;
                assert(log[i].intersects(incoming) && log[i].span.start == whole.span.start);
            }
            if whole.span.end != incoming.span.end {
                let i = choose|i: int|
                    0 <= i < k - 1 && (#[trigger] log[i]).intersects(incoming) && log[i].span.end
                        == before.span.end;
                assert(log[i].intersects(incoming) && log[i].span.end == whole.span.end);
            }
        }
    }
}

/// An edit of the log that `incoming` neither meets nor crowds lies wholly
/// before the merged edit or wholly after it.
proof fn stays_clear(log: Seq<Edit>, incoming: Edit, i: int)
    requires
        well_formed(log),
        incoming.valid(),
        0 <= i < log.len(),
        !log[i].intersects(incoming),
        !incoming.crowds(log[i]),
    ensures
        ({
            let whole = merged(log, incoming);
            ||| log[i].span.end <= whole.span.start && log[i].span.start < whole.span.start
            ||| whole.span.end <= log[i].span.start && whole.span.start < log[i].span.start
        }),
{
    let n = log.len() as int;
    merged_spans_all(log, incoming, n);
    assert(log.subrange(0, n) =~= log);
    let whole = merged(log, incoming);
    let x = log[i];
    assert(x.valid());
    if x.span.end <= incoming.span.start {
        if whole.span.start != incoming.span.start {
            let j = choose|j: int|
                0 <= j < n && (#[trigger] log[j]).intersects(incoming) && log[j].span.start
                    == whole.span.start;
            assert(log[j].valid());
            if j < i {
                assert(log[j].span.end <= log[i].span.start);
            } else {
                assert(i < j);
                assert(log[i].span.end <= log[j].span.start);
            }
        }
    } else {
        if whole.span.end != incoming.span.end {
            let j = choose|j: int|
                0 <= j < n && (#[trigger] log[j]).intersects(incoming) && log[j].span.end
                    == whole.span.end;
            assert(log[j].valid());
            if j < i {
                assert(log[j].span.end <= log[i].span.start);
            } else {
                assert(i < j);
                assert(log[i].span.end <= log[j].span.start);
            }
        }
    }
}

/// Where an edit that starts at `start` is put: after every edit that starts
/// at or before `start`, before the first that starts later.
pub proof fn insertion_point_divides(log: Seq<Edit>, start: int)
    ensures
        0 <= insertion_point(log, start) <= log.len(),
        forall|a: int|
            0 <= a < insertion_point(log, start) ==> (#[trigger] log[a]).span.start <= start,
        insertion_point(log, start) < log.len() ==> log[insertion_point(log, start)].span.start
            > start,
    decreases log.len(),
{
    if log.len() > 0 && log[0].span.start <= start {
        let tail = log.drop_first();
        insertion_point_divides(tail, start);
        assert forall|a: int| 0 <= a < insertion_point(log, start) implies (#[trigger] log[a])
            .span.start <= start by {
            if a > 0 {
                assert(log[a] == tail[a - 1]);
            }
        }
        if insertion_point(log, start) < log.len() {
            assert(log[insertion_point(log, start)] == tail[insertion_point(tail, start)]);
        }
    }
}

/// An edit that lies after every edit before `at` and before every edit from
/// `at` on can be put at `at` without breaking the order.
proof fn insert_between(rest: Seq<Edit>, whole: Edit, at: int)
    requires
        well_formed(rest),
        whole.valid(),
        0 <= at <= rest.len(),
        forall|a: int|
            0 <= a < at ==> (#[trigger] rest[a]).span.end <= whole.span.start && rest[a].span.start
                < whole.span.start,
        forall|a: int|
            at <= a < rest.len() ==> whole.span.end <= (#[trigger] rest[a]).span.start
                && whole.span.start < rest[a].span.start,
    ensures
        well_formed(rest.insert(at, whole)),
{
    let out = rest.insert(at, whole);
    assert forall|a: int| 0 <= a < out.len() implies (#[trigger] out[a]).valid() by {
        if a < at {
            assert(out[a] == rest[a]);
        } else if a > at {
            assert(out[a] == rest[a - 1]);
        }
    }
    assert forall|a: int, b: int| 0 <= a < b < out.len() implies {
        &&& (#[trigger] out[a]).span.start < (#[trigger] out[b]).span.start
        &&& out[a].span.end <= out[b].span.start
    } by {
        if b < at {
            assert(out[a] == rest[a] && out[b] == rest[b]);
        } else if b == at {
            assert(out[a] == rest[a]);
        } else if a < at {
            assert(out[a] == rest[a] && out[b] == rest[b - 1]);
            assert(rest[a].valid());
        } else if a == at {
            assert(out[b] == rest[b - 1]);
        } else {
            assert(out[a] == rest[a - 1] && out[b] == rest[b - 1]);
        }
    }
}

/// Where nothing is crowded, every edit that is kept lies wholly before the
/// merged edit if it starts at or before it, and wholly after it otherwise.
proof fn kept_lie_clear(log: Seq<Edit>, incoming: Edit)
    requires
        well_formed(log),
        incoming.valid(),
        !clashes(log, incoming),
    ensures
        ({
            let rest = kept(log, incoming);
            let whole = merged(log, incoming);
            forall|a: int|
                0 <= a < rest.len() ==> {
                    ||| (#[trigger] rest[a]).span.end <= whole.span.start && rest[a].span.start
                        < whole.span.start
                    ||| whole.span.end <= rest[a].span.start && whole.span.start
                        < rest[a].span.start
                }
        }),
{
    let n = log.len() as int;
    let rest = kept(log, incoming);
    let whole = merged(log, incoming);
    assert(log.subrange(0, n) =~= log);
    kept_in_order(log, incoming, n);
    assert forall|a: int| 0 <= a < rest.len() implies {
        ||| (#[trigger] rest[a]).span.end <= whole.span.start && rest[a].span.start
            < whole.span.start
        ||| whole.span.end <= rest[a].span.start && whole.span.start < rest[a].span.start
    } by {
        assert(stays(log, incoming, n, rest[a]));
        let i = choose|i: int|
            0 <= i < n && #[trigger] log[i] == rest[a] && !log[i].intersects(incoming);
        assert(!incoming.crowds(log[i]));
        stays_clear(log, incoming, i);
    }
}

/// An edit that crowds an edit of the log leaves the log out of order.
proof fn clash_breaks_order(log: Seq<Edit>, incoming: Edit)
    requires
        well_formed(log),
        incoming.valid(),
        clashes(log, incoming),
    ensures
        !well_formed(inserted(log, incoming)),
{
    let n = log.len() as int;
    let rest = kept(log, incoming);
    let whole = merged(log, incoming);
    let at = insertion_point(rest, whole.span.start as int);
    let out = inserted(log, incoming);
    assert(log.subrange(0, n) =~= log);
    merged_spans_all(log, incoming, n);
    insertion_point_divides(rest, whole.span.start as int);
    let i = choose|i: int| 0 <= i < n && incoming.crowds(#[trigger] log[i]);
    let x = log[i];
    assert(x.valid());
    assert(!x.intersects(incoming));
    assert(rest.contains(x)) by {
        broadcast use vstd::seq_lib::group_filter_ensures;
        let keep = |e: Edit| !e.intersects(incoming);
        assert(keep(log[i]));
        assert(log.filter(keep).contains(log[i]));
    }
    let a = choose|a: int| 0 <= a < rest.len() && rest[a] == x;
    let took = if a < at {
        a
    } else {
        a + 1
    };
    assert(out[took] == x);
    assert(out[at] == whole);
    if well_formed(out) {
        if took < at {
            assert(out[took].span.start < out[at].span.start);
        } else {
            assert(out[at].span.end <= out[took].span.start);
            assert(out[at].span.start < out[took].span.start);
            if x.span.start == incoming.span.start {
                let j = choose|j: int|
                    0 <= j < n && (#[trigger] log[j]).intersects(incoming) && log[j].span.start
                        == whole.span.start;
                assert(log[j].valid());
                assert(j < i ==> log[j].span.end <= log[i].span.start);
                assert(i < j ==> log[i].span.start < log[j].span.start);
            }
        }
    }
}

/// Inserting an edit into a well-formed log leaves the log well formed (its
/// spans ascending strictly by start, none reaching into the next) if and
/// only if the edit crowds none of the log's edits.
pub proof fn insert_keeps_order(log: Seq<Edit>, incoming: Edit)
    requires
        well_formed(log),
        incoming.valid(),
    ensures
        well_formed(inserted(log, incoming)) <==> !clashes(log, incoming),
{
    if clashes(log, incoming) {
        clash_breaks_order(log, incoming);
    } else {
        let n = log.len() as int;
        let rest = kept(log, incoming);
        let whole = merged(log, incoming);
        let at = insertion_point(rest, whole.span.start as int);
        assert(log.subrange(0, n) =~= log);
        kept_in_order(log, incoming, n);
        merged_spans_all(log, incoming, n);
        insertion_point_divides(rest, whole.span.start as int);
        kept_lie_clear(log, incoming);
        assert forall|a: int| at <= a < rest.len() implies whole.span.start < (#[trigger] rest[a])
            .span.start by {
            if a > at {
                assert(rest[at].span.start < rest[a].span.start);
            }
        }
        insert_between(rest, whole, at);
    }
}

/// Inserting an edit whose span lies within the file leaves every span of the
/// log within the file.
pub proof fn insert_stays_within(log: Seq<Edit>, incoming: Edit, file_length: int)
    requires
        well_formed(log),
        within(log, file_length),
        incoming.valid(),
        incoming.span.end <= file_length,
    ensures
        within(inserted(log, incoming), file_length),
{
    let n = log.len() as int;
    let rest = kept(log, incoming);
    let whole = merged(log, incoming);
    let at = insertion_point(rest, whole.span.start as int);
    let out = inserted(log, incoming);
    assert(log.subrange(0, n) =~= log);
    kept_in_order(log, incoming, n);
    merged_spans_all(log, incoming, n);
    insertion_point_divides(rest, whole.span.start as int);
    if whole.span.end != incoming.span.end {
        let j = choose|j: int|
            0 <= j < n && (#[trigger] log[j]).intersects(incoming) && log[j].span.end
                == whole.span.end;
        assert(log[j].span.end <= file_length);
    }
    assert forall|a: int| 0 <= a < out.len() implies (#[trigger] out[a]).span.end
        <= file_length by {
        if a != at {
            let b = if a < at {
                a
            } else {
                a - 1
            };
            assert(out[a] == rest[b]);
            assert(stays(log, incoming, n, rest[b]));
            let i = choose|i: int|
                0 <= i < n && #[trigger] log[i] == rest[b] && !log[i].intersects(incoming);
            assert(log[i].span.end <= file_length);
        }
    }
}

/// The sum of the first `k` deltas depends on the first `k` edits only.
proof fn prefix_delta_agrees(a: Seq<Edit>, b: Seq<Edit>, k: int)
    requires
        0 <= k <= a.len(),
        k <= b.len(),
        forall|i: int| 0 <= i < k ==> a[i] == b[i],
    ensures
        prefix_delta(a, k) == prefix_delta(b, k),
    decreases k,
{
    if k > 0 {
        prefix_delta_agrees(a, b, k - 1);
    }
}

/// An edit put at the end of a log adds its delta to the log's.
proof fn total_delta_push(log: Seq<Edit>, x: Edit)
    ensures
        total_delta(log.push(x)) == total_delta(log) + x.size_delta(),
{
    prefix_delta_agrees(log.push(x), log, log.len() as int);
}

/// An edit put anywhere into a log adds its delta to the log's.
proof fn total_delta_insert(log: Seq<Edit>, at: int, x: Edit, k: int)
    requires
        0 <= at <= log.len(),
        at < k <= log.len() + 1,
    ensures
        prefix_delta(log.insert(at, x), k) == prefix_delta(log, k - 1) + x.size_delta(),
    decreases k,
{
    let out = log.insert(at, x);
    if k == at + 1 {
        prefix_delta_agrees(out, log, at);
    } else {
        total_delta_insert(log, at, x, k - 1);
        assert(out[k - 1] == log[k - 2]);
    }
}

/// The deltas of a log are those of the edits that an incoming edit meets
/// and those of the edits that it leaves.
proof fn total_delta_splits(log: Seq<Edit>, incoming: Edit, k: int)
    requires
        0 <= k <= log.len(),
    ensures
        prefix_delta(log, k) == total_delta(kept(log.subrange(0, k), incoming)) + total_delta(
            met(log.subrange(0, k), incoming),
        ),
    decreases k,
{
    if k == 0 {
        kept_of_none(incoming);
        assert(log.subrange(0, 0) =~= Seq::<Edit>::empty());
    } else {
        total_delta_splits(log, incoming, k - 1);
        kept_step(log, k - 1, incoming);
        if log[k - 1].intersects(incoming) {
            total_delta_push(met(log.subrange(0, k - 1), incoming), log[k - 1]);
        } else {
            total_delta_push(kept(log.subrange(0, k - 1), incoming), log[k - 1]);
        }
    }
}

/// The merged edit, measured up to any offset `bound` that no merged span
/// passes, holds at most the bytes of the incoming edit beyond what the edits
/// it met contribute.
proof fn merged_delta_bound(log: Seq<Edit>, incoming: Edit, k: int, bound: int)
    requires
        well_formed(log),
        incoming.valid(),
        0 <= k <= log.len(),
        merged(log.subrange(0, k), incoming).span.start <= bound,
        forall|i: int|
            0 <= i < k && (#[trigger] log[i]).intersects(incoming) ==> log[i].span.end <= bound,
    ensures
        merged(log.subrange(0, k), incoming).repl.len() - (bound - merged(
            log.subrange(0, k),
            incoming,
        ).span.start) <= total_delta(met(log.subrange(0, k), incoming)) + incoming.repl.len(),
    decreases k,
{
    if k == 0 {
        kept_of_none(incoming);
        assert(log.subrange(0, 0) =~= Seq::<Edit>::empty());
    } else {
        kept_step(log, k - 1, incoming);
        let before = merged(log.subrange(0, k - 1), incoming);
        let last = log[k - 1];
        assert(last.valid());
        if last.intersects(incoming) {
            let inner = if last.span.start >= before.span.start {
                last.span.start as int
            } else {
                before.span.start as int
            };
            assert forall|i: int|
                0 <= i < k - 1 && (#[trigger] log[i]).intersects(incoming) implies log[i].span.end
                <= inner by {
                assert(log[i].span.end <= log[k - 1].span.start);
            }
            merged_delta_bound(log, incoming, k - 1, inner);
            total_delta_push(met(log.subrange(0, k - 1), incoming), last);
            let whole = before.union(last);
            assert(whole.repl.len() <= before.repl.len() + last.repl.len());
        } else {
            merged_delta_bound(log, incoming, k - 1, bound);
        }
    }
}

/// Inserting an edit lengthens the edited content by no more than the bytes
/// that the edit brings.
pub proof fn insert_grows_by_at_most(log: Seq<Edit>, incoming: Edit)
    requires
        well_formed(log),
        incoming.valid(),
    ensures
        total_delta(inserted(log, incoming)) <= total_delta(log) + incoming.repl.len(),
{
    let n = log.len() as int;
    let rest = kept(log, incoming);
    let whole = merged(log, incoming);
    let at = insertion_point(rest, whole.span.start as int);
    assert(log.subrange(0, n) =~= log);
    merged_spans_all(log, incoming, n);
    insertion_point_divides(rest, whole.span.start as int);
    total_delta_insert(rest, at, whole, rest.len() as int + 1);
    total_delta_splits(log, incoming, n);
    merged_delta_bound(log, incoming, n, whole.span.end as int);
}

} // verus!
