//! One pending change: a span of the original file and the bytes that replace it.
//!
//! Spans are always offsets into the original file, never into the edited
//! content. Two changes whose spans meet are folded into one by [`Diff::union`].

use std::cmp::Ordering;
use std::ops::Range;
use vstd::prelude::*;
use vstd::slice::slice_subrange;

verus! {

/// A half-open range `start..end` of offsets into the original file.
#[derive(Clone, Copy, Debug, PartialEq, Eq, Structural)]
pub struct ByteSpan {
    pub start: usize,
    pub end: usize,
}

impl ByteSpan {
    /// Whether `offset` lies in `start..end`.
    pub open spec fn holds(self, offset: int) -> bool {
        self.start <= offset < self.end
    }

    /// Tells whether `offset` lies in `start..end`.
    pub fn contains(&self, offset: usize) -> (r: bool)
        ensures
            r == self.holds(offset as int),
    {
        self.start <= offset && offset < self.end
    }
}

/// What a [`Diff`] stands for: the span it replaces and the bytes it puts there.
pub ghost struct Edit {
    pub span: ByteSpan,
    pub repl: Seq<u8>,
}

impl Edit {
    /// The span does not run backwards.
    pub open spec fn valid(self) -> bool {
        self.span.start <= self.span.end
    }

    /// By how many bytes the content grows (or, if negative, shrinks) under this edit.
    pub open spec fn size_delta(self) -> int {
        self.repl.len() - (self.span.end - self.span.start)
    }

    /// Whether either end of `other`'s span lies inside this edit's span.
    ///
    /// The test looks at `other`'s two endpoints only, so it is not symmetric:
    /// a span that strictly encloses this one does not meet it.
    pub open spec fn intersects(self, other: Edit) -> bool {
        self.span.holds(other.span.start as int) || self.span.holds(other.span.end as int)
    }

    /// Whether inserting `self` beside `existing` would break the order of a
    /// log. That is so in two cases, in neither of which the two are merged:
    /// `existing` is an insertion at the very offset where `self` starts; or
    /// `self` starts before `existing` and reaches to its end or beyond,
    /// unless `existing` is an insertion at the very offset where `self` ends.
    pub open spec fn crowds(self, existing: Edit) -> bool {
        ||| existing.span.start == self.span.start && existing.span.end == self.span.start
        ||| self.span.start < existing.span.start && existing.span.end <= self.span.end
            && existing.span.start < self.span.end
    }

    /// Where in `existing`'s replacement the bytes of `self` begin.
    pub open spec fn splice_low(self, existing: Edit) -> int {
        let lead = if self.span.start >= existing.span.start {
            self.span.start - existing.span.start
        } else {
            0
        };
        if lead <= existing.repl.len() {
            lead
        } else {
            existing.repl.len() as int
        }
    }

    /// Where in `existing`'s replacement the bytes after `self` resume.
    pub open spec fn splice_high(self, existing: Edit) -> int {
        let past = self.span.end - existing.span.start + 1;
        if past <= 0 {
            0
        } else if past <= existing.repl.len() {
            past
        } else {
            existing.repl.len() as int
        }
    }

    /// The edit that takes the place of `self` (the incoming one) and `existing`:
    /// it spans both, and its bytes are `existing`'s with those of `self`
    /// spliced in at the place where the two spans line up.
    pub open spec fn union(self, existing: Edit) -> Edit {
        Edit {
            span: ByteSpan {
                start: if self.span.start <= existing.span.start {
                    self.span.start
                } else {
                    existing.span.start
                },
                end: if self.span.end >= existing.span.end {
                    self.span.end
                } else {
                    existing.span.end
                },
            },
            repl: existing.repl.subrange(0, self.splice_low(existing)) + self.repl
                + existing.repl.subrange(
                self.splice_high(existing),
                existing.repl.len() as int,
            ),
        }
    }

    /// How this edit's span lies to `other`'s: `Greater` when it ends before
    /// `other` begins, `Less` when it begins after `other` ends, `Equal` when
    /// neither holds.
    pub open spec fn side_of(self, other: Edit) -> Ordering {
        if self.span.end < other.span.start {
            Ordering::Greater
        } else if other.span.end < self.span.start {
            Ordering::Less
        } else {
            Ordering::Equal
        }
    }
}

/// A pending replacement of a span of the original file by new bytes.
///
/// An empty span makes it an insertion, an empty replacement a deletion.
#[derive(Debug, PartialEq)]
pub struct Diff {
    slice: ByteSpan,
    repl: Vec<u8>,
}

impl View for Diff {
    type V = Edit;

    closed spec fn view(&self) -> Edit {
        Edit { span: self.slice, repl: self.repl@ }
    }
}

impl Clone for Diff {
    fn clone(&self) -> (r: Self)
        ensures
            r@ == self@,
    {
        Diff { slice: self.slice, repl: self.repl.clone() }
    }
}

impl Diff {
    /// A change that replaces `slice` of the original file by a copy of `data`.
    pub fn new(slice: Range<usize>, data: &[u8]) -> (r: Self)
        ensures
            r@.span.start == slice.start,
            r@.span.end == slice.end,
            r@.repl == data@,
    {
        let mut repl: Vec<u8> = Vec::new();
        repl.extend_from_slice(data);
        Diff { slice: ByteSpan { start: slice.start, end: slice.end }, repl }
    }

    /// The span of the original file that this change replaces.
    pub fn get_slice(&self) -> (r: ByteSpan)
        ensures
            r == self@.span,
    {
        self.slice
    }

    /// The bytes that this change puts in place of its span.
    pub fn get_repl(&self) -> (r: &Vec<u8>)
        ensures
            r@ == self@.repl,
    {
        &self.repl
    }

    /// By how many bytes the content grows under this change; negative when it shrinks.
    pub fn get_size(&self) -> (r: i128)
        ensures
            r == self@.size_delta(),
    {
        let grown: i128 = self.repl.len() as i128;
        let start: i128 = self.slice.start as i128;
        let end: i128 = self.slice.end as i128;
        grown - (end - start)
    }

    /// Tells whether either end of `other`'s span lies inside this change's span.
    pub fn intersects(&self, other: &Self) -> (r: bool)
        ensures
            r == self@.intersects(other@),
    {
        self.slice.contains(other.slice.start) || self.slice.contains(other.slice.end)
    }

    /// Tells whether inserting this change beside `existing` would break the
    /// order of a log.
    pub fn crowds(&self, existing: &Self) -> (r: bool)
        ensures
            r == self@.crowds(existing@),
    {
        (existing.slice.start == self.slice.start && existing.slice.end == self.slice.start) || (
        self.slice.start < existing.slice.start && existing.slice.end <= self.slice.end
            && existing.slice.start < self.slice.end)
    }

    /// Orders this change against `other` by their spans, for a search over a
    /// list of changes. Spans that touch or overlap compare `Equal`.
    pub fn binary_search(&self, other: &Self) -> (r: Ordering)
        ensures
            r == self@.side_of(other@),
    {
        if self.slice.end < other.slice.start {
            Ordering::Greater
        } else if other.slice.end < self.slice.start {
            Ordering::Less
        } else {
            Ordering::Equal
        }
    }

    /// Folds this change, the incoming one, into `other`, an existing one.
    ///
    /// The result spans both. Its bytes are those of `other` with the bytes of
    /// `self` spliced in, from the offset at which `self` begins inside `other`
    /// to one past the offset at which it ends.
    pub fn union(self, other: Self) -> (r: Self)
        ensures
            r@ == self@.union(other@),
    {
        let start: usize = if self.slice.start <= other.slice.start {
            self.slice.start
        } else {
            other.slice.start
        };
        let end: usize = if self.slice.end >= other.slice.end {
            self.slice.end
        } else {
            other.slice.end
        };
        let len: usize = other.repl.len();
        let lead: usize = if self.slice.start >= other.slice.start {
            self.slice.start - other.slice.start
        } else {
            0
        };
        let low: usize = if lead <= len {
            lead
        } else {
            len
        };
        let high: usize = if self.slice.end < other.slice.start {
            0
        } else if self.slice.end - other.slice.start < len {
            self.slice.end - other.slice.start + 1
        } else {
            len
        };
        let mut repl: Vec<u8> = Vec::new();
        repl.extend_from_slice(slice_subrange(other.repl.as_slice(), 0, low));
        repl.extend_from_slice(self.repl.as_slice());
        repl.extend_from_slice(slice_subrange(other.repl.as_slice(), high, len));
        assert(low == self@.splice_low(other@) && high == self@.splice_high(other@));
        assert(repl@ =~= self@.union(other@).repl);
        Diff { slice: ByteSpan { start, end }, repl }
    }
}

} // verus!
