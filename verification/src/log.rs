//! The ordered log of pending changes over one file.
//!
//! A log is well formed when its spans ascend strictly by start and none runs
//! into the next. Inserting a change first folds into it every change of the
//! log that it meets, then puts the result where its start belongs.

use crate::diff::{Diff, Edit};
use crate::merge::insert_keeps_order;
use vstd::prelude::*;

verus! {

/// The spans ascend strictly by start, none runs backwards, and none reaches
/// past the start of a later one.
pub open spec fn well_formed(log: Seq<Edit>) -> bool {
    &&& forall|i: int| 0 <= i < log.len() ==> (#[trigger] log[i]).valid()
    &&& forall|i: int, j: int|
        0 <= i < j < log.len() ==> {
            &&& (#[trigger] log[i]).span.start < (#[trigger] log[j]).span.start
            &&& log[i].span.end <= log[j].span.start
        }
}

/// Every span ends within a file of `file_length` bytes.
pub open spec fn within(log: Seq<Edit>, file_length: int) -> bool {
    forall|i: int| 0 <= i < log.len() ==> (#[trigger] log[i]).span.end <= file_length
}

/// The sum of the size deltas of the first `k` edits.
pub open spec fn prefix_delta(log: Seq<Edit>, k: int) -> int
    decreases k,
{
    if k <= 0 {
        0
    } else {
        prefix_delta(log, k - 1) + log[k - 1].size_delta()
    }
}

/// The sum of the size deltas of all edits.
pub open spec fn total_delta(log: Seq<Edit>) -> int {
    prefix_delta(log, log.len() as int)
}

/// The edits of `log` that `incoming` does not meet, in their order.
pub open spec fn kept(log: Seq<Edit>, incoming: Edit) -> Seq<Edit> {
    log.filter(|x: Edit| !x.intersects(incoming))
}

/// The edits of `log` that `incoming` meets, in their order.
pub open spec fn met(log: Seq<Edit>, incoming: Edit) -> Seq<Edit> {
    log.filter(|x: Edit| x.intersects(incoming))
}

/// `incoming` with every edit of `log` that it meets folded into it, from left to right.
pub open spec fn merged(log: Seq<Edit>, incoming: Edit) -> Edit {
    met(log, incoming).fold_left(incoming, |acc: Edit, x: Edit| acc.union(x))
}

/// The number of leading edits of `log` that start at or before `start`.
pub open spec fn insertion_point(log: Seq<Edit>, start: int) -> int
    decreases log.len(),
{
    if log.len() == 0 || log[0].span.start > start {
        0
    } else {
        1 + insertion_point(log.drop_first(), start)
    }
}

/// The log after `incoming` was inserted: the edits it meets are taken out and
/// folded into it, and the result stands before the first edit that starts later.
pub open spec fn inserted(log: Seq<Edit>, incoming: Edit) -> Seq<Edit> {
    let rest = kept(log, incoming);
    let whole = merged(log, incoming);
    rest.insert(insertion_point(rest, whole.span.start as int), whole)
}

/// Whether `incoming` crowds some edit of `log`, so that inserting it would
/// leave the log out of order.
pub open spec fn clashes(log: Seq<Edit>, incoming: Edit) -> bool {
    exists|i: int| 0 <= i < log.len() && incoming.crowds(#[trigger] log[i])
}

/// What a vector of changes stands for, change by change.
pub open spec fn edits_of(diffs: Seq<Diff>) -> Seq<Edit> {
    Seq::new(diffs.len(), |i: int| diffs[i]@)
}

/// What one more edit of the log adds: it joins the edits that are kept if
/// `incoming` does not meet it, and is folded into the merged edit if it does.
pub proof fn kept_step(log: Seq<Edit>, k: int, incoming: Edit)
    requires
        0 <= k < log.len(),
    ensures
        kept(log.subrange(0, k + 1), incoming) == if log[k].intersects(incoming) {
            kept(log.subrange(0, k), incoming)
        } else {
            kept(log.subrange(0, k), incoming).push(log[k])
        },
        met(log.subrange(0, k + 1), incoming) == if log[k].intersects(incoming) {
            met(log.subrange(0, k), incoming).push(log[k])
        } else {
            met(log.subrange(0, k), incoming)
        },
        merged(log.subrange(0, k + 1), incoming) == if log[k].intersects(incoming) {
            merged(log.subrange(0, k), incoming).union(log[k])
        } else {
            merged(log.subrange(0, k), incoming)
        },
{
    reveal(Seq::filter);
    let next = log.subrange(0, k + 1);
    assert(next.drop_last() =~= log.subrange(0, k));
    assert(next.last() == log[k]);
    if log[k].intersects(incoming) {
        let found = met(log.subrange(0, k), incoming);
        assert(found.push(log[k]).drop_last() =~= found);
    }
}

/// In an empty log an edit meets nothing and stays as it is.
pub proof fn kept_of_none(incoming: Edit)
    ensures
        kept(Seq::<Edit>::empty(), incoming) == Seq::<Edit>::empty(),
        met(Seq::<Edit>::empty(), incoming) == Seq::<Edit>::empty(),
        merged(Seq::<Edit>::empty(), incoming) == incoming,
{
    reveal(Seq::filter);
}

/// The pending changes over one file, in the order of their spans.
pub struct EditLog {
    edits: Vec<Diff>,
}

impl View for EditLog {
    type V = Seq<Edit>;

    closed spec fn view(&self) -> Seq<Edit> {
        edits_of(self.edits@)
    }
}

impl EditLog {
    /// A log without changes.
    pub fn new() -> (r: Self)
        ensures
            r@ == Seq::<Edit>::empty(),
    {
        let r = EditLog { edits: Vec::new() };
        assert(r@ =~= Seq::<Edit>::empty());
        r
    }

    /// The number of changes in the log.
    pub fn len(&self) -> (r: usize)
        ensures
            r == self@.len(),
    {
        self.edits.len()
    }

    /// The change at `index`, counted from the lowest span.
    pub fn get(&self, index: usize) -> (r: &Diff)
        requires
            index < self@.len(),
        ensures
            r@ == self@[index as int],
    {
        &self.edits[index]
    }

    /// Tells whether `edit` crowds a change of the log, so that inserting it
    /// would leave the log out of order.
    pub fn clashes(&self, edit: &Diff) -> (r: bool)
        ensures
            r == clashes(self@, edit@),
    {
        let mut i: usize = 0;
        while i < self.edits.len()
            invariant
                i <= self.edits.len(),
                self@.len() == self.edits.len(),
                forall|j: int| 0 <= j < i ==> !edit@.crowds(#[trigger] self@[j]),
            decreases self.edits.len() - i,
        {
            assert(self.edits@[i as int]@ == self@[i as int]);
            if edit.crowds(&self.edits[i]) {
                return true;
            }
            i = i + 1;
        }
        false
    }

    /// Inserts `edit`: every change whose span holds one of `edit`'s endpoints
    /// is taken out and folded into it, in log order, and the result is put
    /// before the first remaining change that starts later.
    ///
    /// A well-formed log stays well formed exactly when `edit` crowds none of
    /// its changes.
    pub fn insert_edit(&mut self, edit: Diff)
        ensures
            final(self)@ == inserted(old(self)@, edit@),
            well_formed(old(self)@) && edit@.valid() ==> (well_formed(final(self)@) <==> !clashes(
                old(self)@,
                edit@,
            )),
    {
        let ghost before = self@;
        proof {
            if well_formed(before) && edit@.valid() {
                insert_keeps_order(before, edit@);
            }
        }
        let mut whole = edit.clone();
        let mut i: usize = 0;
        let ghost mut seen: int = 0;
        proof {
            kept_of_none(edit@);
            assert(before.subrange(0, 0) =~= Seq::<Edit>::empty());
            assert(self@ =~= kept(before.subrange(0, 0), edit@) + before.subrange(
                0,
                before.len() as int,
            ));
        }
        while i < self.edits.len()
            invariant
                0 <= seen <= before.len(),
                i == kept(before.subrange(0, seen), edit@).len(),
                self@ == kept(before.subrange(0, seen), edit@) + before.subrange(
                    seen,
                    before.len() as int,
                ),
                whole@ == merged(before.subrange(0, seen), edit@),
            decreases self.edits.len() - i,
        {
            proof {
                assert(self@.len() == self.edits@.len());
                assert(seen < before.len());
                assert(self@[i as int] == before[seen]);
                assert(self.edits@[i as int]@ == self@[i as int]);
                kept_step(before, seen, edit@);
            }
            let ghost current = self@;
            if self.edits[i].intersects(&edit) {
                let taken = self.edits.remove(i);
                whole = whole.union(taken);
                proof {
                    assert(self@ =~= current.remove(i as int));
                    assert(self@ =~= kept(before.subrange(0, seen + 1), edit@) + before.subrange(
                        seen + 1,
                        before.len() as int,
                    ));
                }
            } else {
                i = i + 1;
                proof {
                    assert(self@ =~= kept(before.subrange(0, seen + 1), edit@) + before.subrange(
                        seen + 1,
                        before.len() as int,
                    ));
                }
            }
            proof {
                seen = seen + 1;
            }
        }
        proof {
            assert(self@.len() == self.edits@.len());
            assert(seen == before.len());
            assert(before.subrange(0, seen) =~= before);
            assert(self@ =~= kept(before, edit@));
        }
        let ghost rest = self@;
        let start = whole.get_slice().start;
        let mut at: usize = 0;
        proof {
            assert(rest.subrange(0, rest.len() as int) =~= rest);
        }
        while at < self.edits.len() && self.edits[at].get_slice().start <= start
            invariant
                self@ == rest,
                at <= rest.len(),
                insertion_point(rest, start as int) == at + insertion_point(
                    rest.subrange(at as int, rest.len() as int),
                    start as int,
                ),
            decreases self.edits.len() - at,
        {
            proof {
                assert(self@.len() == self.edits@.len());
                assert(self.edits@[at as int]@ == self@[at as int]);
                let tail = rest.subrange(at as int, rest.len() as int);
                assert(tail[0] == rest[at as int]);
                assert(tail.drop_first() =~= rest.subrange(at + 1, rest.len() as int));
            }
            at = at + 1;
        }
        proof {
            assert(self@.len() == self.edits@.len());
            let tail = rest.subrange(at as int, rest.len() as int);
            if at < rest.len() {
                assert(self.edits@[at as int]@ == self@[at as int]);
                assert(tail[0] == rest[at as int]);
            }
            assert(insertion_point(tail, start as int) == 0);
        }
        self.edits.insert(at, whole);
        proof {
            assert(self@ =~= rest.insert(at as int, whole@));
        }
    }
}

} // verus!
