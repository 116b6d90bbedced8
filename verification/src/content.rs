//! The edited content as a whole: the bytes that a reader sees once every
//! pending edit is applied, and how they relate to the places that offsets
//! resolve to.

use crate::cursor::{
    end_before, landing, layout_ascends, reach, reach_ascends, resolve, resolve_in_bounds,
    start_at, virtual_start, Place,
};
use crate::diff::Edit;
use crate::log::{prefix_delta, total_delta, well_formed, within};
use vstd::prelude::*;

verus! {

/// The untouched bytes of the file between the edit before `k` and edit `k`;
/// for `k` the length of the log, the bytes after the last edit.
pub open spec fn gap(backing: Seq<u8>, log: Seq<Edit>, k: int) -> Seq<u8> {
    backing.subrange(end_before(log, k), start_at(log, backing.len() as int, k))
}

/// The edited content up to and with the replacement of edit `k - 1`.
pub open spec fn applied(backing: Seq<u8>, log: Seq<Edit>, k: int) -> Seq<u8>
    decreases k,
{
    if k <= 0 {
        Seq::empty()
    } else {
        applied(backing, log, k - 1) + gap(backing, log, k - 1) + log[k - 1].repl
    }
}

/// The edited content: the untouched stretches of the file and the
/// replacements of the edits, in the order of the log.
pub open spec fn materialize(backing: Seq<u8>, log: Seq<Edit>) -> Seq<u8> {
    applied(backing, log, log.len() as int) + gap(backing, log, log.len() as int)
}

/// Without pending edits the edited content is the file itself, so bytes
/// that were flushed read the same when they are flushed again.
pub proof fn materialize_settles(backing: Seq<u8>, log: Seq<Edit>)
    ensures
        materialize(backing, Seq::<Edit>::empty()) == backing,
        materialize(materialize(backing, log), Seq::<Edit>::empty()) == materialize(backing, log),
{
    assert(materialize(backing, Seq::<Edit>::empty()) =~= backing);
    let flushed = materialize(backing, log);
    assert(materialize(flushed, Seq::<Edit>::empty()) =~= flushed);
}

/// The content up to edit `k` is as long as the virtual offset at which the
/// stretch before edit `k` begins.
pub proof fn applied_len(backing: Seq<u8>, log: Seq<Edit>, k: int)
    requires
        well_formed(log),
        within(log, backing.len() as int),
        0 <= k <= log.len(),
    ensures
        applied(backing, log, k).len() == reach(log, k),
    decreases k,
{
    if k > 0 {
        applied_len(backing, log, k - 1);
        layout_ascends(log, backing.len() as int, k - 1);
    }
}

/// The edited content is as long as the file plus the deltas of all edits.
pub proof fn materialize_len(backing: Seq<u8>, log: Seq<Edit>)
    requires
        well_formed(log),
        within(log, backing.len() as int),
    ensures
        materialize(backing, log).len() == backing.len() + total_delta(log),
{
    applied_len(backing, log, log.len() as int);
    layout_ascends(log, backing.len() as int, log.len() as int);
}

/// The content up to edit `k` is where the content up to a later edit begins.
proof fn applied_grows(backing: Seq<u8>, log: Seq<Edit>, k: int, m: int)
    requires
        well_formed(log),
        within(log, backing.len() as int),
        0 <= k <= m <= log.len(),
    ensures
        applied(backing, log, k).len() <= applied(backing, log, m).len(),
        applied(backing, log, m).subrange(0, applied(backing, log, k).len() as int) == applied(
            backing,
            log,
            k,
        ),
    decreases m - k,
{
    if k < m {
        applied_grows(backing, log, k, m - 1);
        let head = applied(backing, log, k);
        let shorter = applied(backing, log, m - 1);
        let longer = applied(backing, log, m);
        assert(longer.subrange(0, head.len() as int) =~= shorter.subrange(0, head.len() as int));
    } else {
        assert(applied(backing, log, m).subrange(0, applied(backing, log, k).len() as int)
            =~= applied(backing, log, k));
    }
}

/// A run of untouched bytes before edit `k` reads the same in the edited
/// content, shifted by the deltas of the edits before it.
pub proof fn file_run_matches(backing: Seq<u8>, log: Seq<Edit>, k: int, from: int, count: int)
    requires
        well_formed(log),
        within(log, backing.len() as int),
        0 <= k <= log.len(),
        0 <= count,
        end_before(log, k) <= from,
        from + count <= start_at(log, backing.len() as int, k),
    ensures
        0 <= from + prefix_delta(log, k),
        from + prefix_delta(log, k) + count <= materialize(backing, log).len(),
        materialize(backing, log).subrange(
            from + prefix_delta(log, k),
            from + prefix_delta(log, k) + count,
        ) == backing.subrange(from, from + count),
{
    let whole = materialize(backing, log);
    let n = log.len() as int;
    let length = backing.len() as int;
    layout_ascends(log, length, k);
    applied_len(backing, log, k);
    materialize_len(backing, log);
    let head = applied(backing, log, k);
    let lo = from + prefix_delta(log, k);
    assert(lo == head.len() + (from - end_before(log, k)));
    if k < n {
        applied_grows(backing, log, k + 1, n);
        applied_len(backing, log, k + 1);
        let next = applied(backing, log, k + 1);
        assert(next == head + gap(backing, log, k) + log[k].repl);
        assert(whole.subrange(0, next.len() as int) =~= next);
        assert forall|i: int| 0 <= i < count implies #[trigger] whole.subrange(lo, lo + count)[i]
            == backing.subrange(from, from + count)[i] by {
            assert(whole[lo + i] == whole.subrange(0, next.len() as int)[lo + i]);
            assert(next[lo + i] == gap(backing, log, k)[from - end_before(log, k) + i]);
        }
    } else {
        assert forall|i: int| 0 <= i < count implies #[trigger] whole.subrange(lo, lo + count)[i]
            == backing.subrange(from, from + count)[i] by {
            assert(whole[lo + i] == gap(backing, log, k)[from - end_before(log, k) + i]);
        }
    }
    assert(whole.subrange(lo, lo + count) =~= backing.subrange(from, from + count));
}

/// A run of bytes of the replacement of edit `k` reads the same in the edited
/// content, from the virtual offset at which that replacement begins.
pub proof fn edit_run_matches(backing: Seq<u8>, log: Seq<Edit>, k: int, from: int, count: int)
    requires
        well_formed(log),
        within(log, backing.len() as int),
        0 <= k < log.len(),
        0 <= from,
        0 <= count,
        from + count <= log[k].repl.len(),
    ensures
        0 <= virtual_start(log, k) + from,
        virtual_start(log, k) + from + count <= materialize(backing, log).len(),
        materialize(backing, log).subrange(
            virtual_start(log, k) + from,
            virtual_start(log, k) + from + count,
        ) == log[k].repl.subrange(from, from + count),
{
    let whole = materialize(backing, log);
    let n = log.len() as int;
    let length = backing.len() as int;
    layout_ascends(log, length, k);
    layout_ascends(log, length, k + 1);
    layout_ascends(log, length, n);
    reach_ascends(log, length, k + 1, n);
    applied_len(backing, log, k);
    applied_len(backing, log, k + 1);
    materialize_len(backing, log);
    applied_grows(backing, log, k + 1, n);
    let head = applied(backing, log, k);
    let next = applied(backing, log, k + 1);
    let lo = virtual_start(log, k) + from;
    assert(next == head + gap(backing, log, k) + log[k].repl);
    assert(whole.subrange(0, next.len() as int) =~= next);
    assert forall|i: int| 0 <= i < count implies #[trigger] whole.subrange(lo, lo + count)[i]
        == log[k].repl.subrange(from, from + count)[i] by {
        assert(whole[lo + i] == whole.subrange(0, next.len() as int)[lo + i]);
        assert(next[lo + i] == log[k].repl[from + i]);
    }
    assert(whole.subrange(lo, lo + count) =~= log[k].repl.subrange(from, from + count));
}

/// Every offset inside the edited content resolves to the place that holds the
/// byte found there: a byte of the file when it resolves into the file, a byte
/// of an edit's replacement when it resolves into an edit.
pub proof fn resolved_byte_matches(backing: Seq<u8>, log: Seq<Edit>, v: int)
    requires
        well_formed(log),
        within(log, backing.len() as int),
        0 <= v < materialize(backing, log).len(),
    ensures
        match resolve(log, v) {
            Place::InFile { file_offset, cumulative_delta } => {
                &&& 0 <= file_offset < backing.len()
                &&& materialize(backing, log)[v] == backing[file_offset]
            },
            Place::InEdit { edit_index, local_offset } => {
                &&& 0 <= edit_index < log.len()
                &&& 0 <= local_offset < log[edit_index].repl.len()
                &&& materialize(backing, log)[v] == log[edit_index].repl[local_offset]
            },
        },
{
    let whole = materialize(backing, log);
    let length = backing.len() as int;
    materialize_len(backing, log);
    resolve_in_bounds(log, length, v);
    let k = landing(log, 0, v);
    layout_ascends(log, length, k);
    match resolve(log, v) {
        Place::InFile { file_offset, cumulative_delta } => {
            if k == log.len() {
                assert(file_offset < length);
            }
            file_run_matches(backing, log, k, file_offset, 1);
            assert(whole.subrange(v, v + 1)[0] == backing.subrange(
                file_offset,
                file_offset + 1,
            )[0]);
        },
        Place::InEdit { edit_index, local_offset } => {
            edit_run_matches(backing, log, k, local_offset, 1);
            assert(whole.subrange(v, v + 1)[0] == log[k].repl.subrange(
                local_offset,
                local_offset + 1,
            )[0]);
        },
    }
}

} // verus!
