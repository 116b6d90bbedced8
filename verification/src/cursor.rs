//! Positions in the edited content, and how an offset is resolved to one.
//!
//! Three coordinate spaces meet here: offsets into the original file, offsets
//! into the edited ("virtual") content, and offsets into the replacement bytes
//! of one edit. A position is held as a [`Cursor`]: either a place in the
//! untouched file together with the shift that the edits before it cause, or a
//! place inside one edit's replacement.

use crate::diff::Edit;
use crate::log::{prefix_delta, total_delta, well_formed, within};
use vstd::prelude::*;

verus! {

/// What a [`Cursor`] stands for.
pub ghost enum Place {
    /// At `file_offset` of the untouched file; the edits before it shift it by
    /// `cumulative_delta`.
    InFile { file_offset: int, cumulative_delta: int },
    /// At `local_offset` of the replacement of the edit at `edit_index`.
    InEdit { edit_index: int, local_offset: int },
}

/// A position in the edited content.
#[derive(Clone, Copy, Debug, PartialEq, Eq)]
pub enum Cursor {
    /// At `file_offset` of the untouched file; the edits before it shift it by
    /// `cumulative_delta`.
    InFile { file_offset: usize, cumulative_delta: i128 },
    /// At `local_offset` of the replacement of the edit at `edit_index`.
    InEdit { edit_index: usize, local_offset: usize },
}

impl View for Cursor {
    type V = Place;

    open spec fn view(&self) -> Place {
        match *self {
            Cursor::InFile { file_offset, cumulative_delta } => Place::InFile {
                file_offset: file_offset as int,
                cumulative_delta: cumulative_delta as int,
            },
            Cursor::InEdit { edit_index, local_offset } => Place::InEdit {
                edit_index: edit_index as int,
                local_offset: local_offset as int,
            },
        }
    }
}

/// The virtual offset at which the replacement of edit `i` begins.
pub open spec fn virtual_start(log: Seq<Edit>, i: int) -> int {
    log[i].span.start + prefix_delta(log, i)
}

/// The virtual offset just past the replacement of edit `i`.
pub open spec fn virtual_end(log: Seq<Edit>, i: int) -> int {
    virtual_start(log, i) + log[i].repl.len()
}

/// The index of the first edit, from `i` on, whose replacement ends after
/// virtual offset `v`; the length of the log if there is none.
pub open spec fn landing(log: Seq<Edit>, i: int, v: int) -> int
    decreases log.len() - i,
{
    if i < 0 || i >= log.len() || v < virtual_end(log, i) {
        i
    } else {
        landing(log, i + 1, v)
    }
}

/// The place of virtual offset `v`, given that edit `k` is the first that ends after it.
pub open spec fn place_at(log: Seq<Edit>, k: int, v: int) -> Place {
    if k < log.len() && v >= virtual_start(log, k) {
        Place::InEdit { edit_index: k, local_offset: v - virtual_start(log, k) }
    } else {
        Place::InFile {
            file_offset: v - prefix_delta(log, k),
            cumulative_delta: prefix_delta(log, k),
        }
    }
}

/// The place that virtual offset `v` resolves to.
pub open spec fn resolve(log: Seq<Edit>, v: int) -> Place {
    place_at(log, landing(log, 0, v), v)
}

/// The virtual offset of a place: the inverse of [`resolve`].
pub open spec fn offset_of(log: Seq<Edit>, place: Place) -> int {
    match place {
        Place::InFile { file_offset, cumulative_delta } => file_offset + cumulative_delta,
        Place::InEdit { edit_index, local_offset } => virtual_start(log, edit_index)
            + local_offset,
    }
}

/// Where the span of the edit before `k` ends; 0 for the first.
pub open spec fn end_before(log: Seq<Edit>, k: int) -> int {
    if k <= 0 {
        0
    } else {
        log[k - 1].span.end as int
    }
}

/// Where the untouched stretch before edit `k` stops: at the start of edit
/// `k`, or at the end of the file after the last edit.
pub open spec fn start_at(log: Seq<Edit>, file_length: int, k: int) -> int {
    if k < log.len() {
        log[k].span.start as int
    } else {
        file_length
    }
}

/// The virtual offset at which the untouched stretch before edit `k` begins.
pub open spec fn reach(log: Seq<Edit>, k: int) -> int {
    end_before(log, k) + prefix_delta(log, k)
}

/// The virtual offsets of a well-formed log ascend: each untouched stretch and
/// each replacement begins where the one before it ends.
pub proof fn layout_ascends(log: Seq<Edit>, file_length: int, k: int)
    requires
        well_formed(log),
        within(log, file_length),
        0 <= file_length,
        0 <= k <= log.len(),
    ensures
        0 <= end_before(log, k) <= start_at(log, file_length, k) <= file_length,
        0 <= reach(log, k),
        reach(log, k) + (start_at(log, file_length, k) - end_before(log, k)) <= file_length
            + total_delta(log),
        k < log.len() ==> virtual_start(log, k) == reach(log, k) + (log[k].span.start
            - end_before(log, k)),
        k < log.len() ==> virtual_end(log, k) == reach(log, k + 1),
        k < log.len() ==> reach(log, k) <= virtual_start(log, k) <= virtual_end(log, k),
        k == log.len() ==> reach(log, k) + (file_length - end_before(log, k)) == file_length
            + total_delta(log),
    decreases log.len() - k,
{
    if k > 0 {
        assert(log[k - 1].valid());
        assert(log[k - 1].span.end <= file_length);
        if k < log.len() {
            assert(log[k - 1].span.end <= log[k].span.start);
        }
    }
    if k < log.len() {
        assert(log[k].valid());
        assert(log[k].span.end <= file_length);
        layout_ascends(log, file_length, k + 1);
        assert(prefix_delta(log, k + 1) == prefix_delta(log, k) + log[k].size_delta());
    }
    reach_nonnegative(log, k);
}

proof fn reach_nonnegative(log: Seq<Edit>, k: int)
    requires
        well_formed(log),
        0 <= k <= log.len(),
    ensures
        0 <= reach(log, k),
    decreases k,
{
    if k > 0 {
        reach_nonnegative(log, k - 1);
        assert(log[k - 1].valid());
        if k > 1 {
            assert(log[k - 2].span.end <= log[k - 1].span.start);
        }
    }
}

/// Later stretches begin at or after earlier ones.
pub proof fn reach_ascends(log: Seq<Edit>, file_length: int, i: int, j: int)
    requires
        well_formed(log),
        within(log, file_length),
        0 <= file_length,
        0 <= i <= j <= log.len(),
    ensures
        reach(log, i) <= reach(log, j),
    decreases j - i,
{
    if i < j {
        reach_ascends(log, file_length, i, j - 1);
        layout_ascends(log, file_length, j - 1);
    }
}

/// The sum of the deltas before any edit lies between minus the file's length
/// and the length of the edited content.
pub proof fn prefix_delta_bounds(log: Seq<Edit>, file_length: int, k: int)
    requires
        well_formed(log),
        within(log, file_length),
        0 <= file_length,
        0 <= k <= log.len(),
    ensures
        -file_length <= prefix_delta(log, k) <= file_length + total_delta(log),
        0 <= file_length + total_delta(log),
{
    layout_ascends(log, file_length, k);
    layout_ascends(log, file_length, log.len() as int);
    reach_ascends(log, file_length, k, log.len() as int);
}

/// If every edit before `k` ends at or before `v`, and edit `k` (if there is
/// one) ends after it, the walk from the start of the log lands on `k`.
pub proof fn landing_is(log: Seq<Edit>, file_length: int, v: int, from: int, k: int)
    requires
        well_formed(log),
        within(log, file_length),
        0 <= file_length,
        0 <= from <= k <= log.len(),
        k > 0 ==> virtual_end(log, k - 1) <= v,
        k < log.len() ==> v < virtual_end(log, k),
    ensures
        landing(log, from, v) == k,
    decreases k - from,
{
    if from < k {
        layout_ascends(log, file_length, from);
        layout_ascends(log, file_length, k - 1);
        reach_ascends(log, file_length, from + 1, k);
        landing_is(log, file_length, v, from + 1, k);
    }
}

/// Resolving an offset and taking the offset of the result gives the offset back.
pub proof fn resolve_round_trip(log: Seq<Edit>, v: int)
    ensures
        offset_of(log, resolve(log, v)) == v,
{
}

/// An offset within the edited content resolves to a place that exists: inside
/// the replacement of an edit of the log, or in the file at an offset that no
/// edit before or after it covers.
pub proof fn resolve_in_bounds(log: Seq<Edit>, file_length: int, v: int)
    requires
        well_formed(log),
        within(log, file_length),
        0 <= file_length,
        0 <= v <= file_length + total_delta(log),
    ensures
        ({
            let k = landing(log, 0, v);
            &&& 0 <= k <= log.len()
            &&& k > 0 ==> virtual_end(log, k - 1) <= v
            &&& k < log.len() ==> v < virtual_end(log, k)
            &&& match resolve(log, v) {
                Place::InFile { file_offset, cumulative_delta } => {
                    &&& cumulative_delta == prefix_delta(log, k)
                    &&& end_before(log, k) <= file_offset <= start_at(log, file_length, k)
                    &&& k < log.len() ==> file_offset < log[k].span.start
                },
                Place::InEdit { edit_index, local_offset } => {
                    &&& edit_index == k
                    &&& k < log.len()
                    &&& 0 <= local_offset < log[k].repl.len()
                },
            }
        }),
{
    landing_facts(log, 0, v);
    let k = landing(log, 0, v);
    layout_ascends(log, file_length, k);
    if k > 0 {
        layout_ascends(log, file_length, k - 1);
    }
}

proof fn landing_facts(log: Seq<Edit>, from: int, v: int)
    requires
        0 <= from <= log.len(),
    ensures
        from <= landing(log, from, v) <= log.len(),
        landing(log, from, v) < log.len() ==> v < virtual_end(log, landing(log, from, v)),
        landing(log, from, v) > from ==> virtual_end(log, landing(log, from, v) - 1) <= v,
        forall|j: int| from <= j < landing(log, from, v) ==> virtual_end(log, j) <= v,
    decreases log.len() - from,
{
    if from < log.len() && v >= virtual_end(log, from) {
        landing_facts(log, from + 1, v);
    }
}

} // verus!
