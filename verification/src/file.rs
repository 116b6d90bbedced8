//! The file as a reader sees it under its pending edits.
//!
//! A [`FileBuffer`] holds the bytes of the original file, the log of pending
//! edits and a cursor. Seeking and reading go by offsets into the edited
//! content; neither changes the original bytes or the log.

use crate::content::{applied, edit_run_matches, file_run_matches, materialize, materialize_len};
use crate::cursor::{
    end_before, landing, landing_is, layout_ascends, offset_of, prefix_delta_bounds, resolve,
    resolve_in_bounds, resolve_round_trip, virtual_end, virtual_start, Cursor, Place,
};
use crate::diff::{Diff, Edit};
use crate::lines::{
    line_at, line_end, line_end_bounds, line_end_skips, line_start, line_start_bounds,
    line_start_skips, lines_from, nth_line_start, NEWLINE,
};
use crate::log::{clashes, inserted, prefix_delta, total_delta, well_formed, within, EditLog};
use crate::merge::{insert_grows_by_at_most, insert_keeps_order, insert_stays_within};
use crate::text::decode_text;
use vstd::prelude::*;
use vstd::slice::slice_subrange;
use vstd::utf8::{decode_utf8, valid_utf8};

verus! {

/// Why an operation on a file failed.
#[derive(Clone, Copy, Debug, PartialEq, Eq, Structural)]
pub enum FileError {
    /// The file does not exist.
    NotFound,
    /// The file may not be read or written.
    PermissionDenied,
    /// Reading, writing or seeking failed at the operating system.
    IoError,
    /// An offset lies before the start or after the end of the content; or an
    /// edit's span runs backwards or past the end of the file, or its bytes
    /// would make the content longer than an offset can tell.
    OutOfRange,
    /// Bytes that should be text are not valid UTF-8, or a line does not begin
    /// within the window that was scanned for it.
    DecodeError,
    /// A change was attempted while another was under way.
    ReentrantAccess,
    /// An edit would leave the log with spans that overlap or start together,
    /// so that the log could no longer be read as one content.
    Overlap,
}

/// From where an offset is counted when seeking.
#[derive(Clone, Copy, Debug, PartialEq, Eq, Structural)]
pub enum SeekFrom {
    /// From the start of the content.
    Start(u64),
    /// From the end of the content.
    End(i64),
    /// From the current position.
    Current(i64),
}

/// The offset that seeking to `pos` asks for, given the current position and
/// the length of the content.
pub open spec fn seek_target(pos: SeekFrom, position: int, length: int) -> int {
    match pos {
        SeekFrom::Start(offset) => offset as int,
        SeekFrom::End(offset) => length + offset,
        SeekFrom::Current(offset) => position + offset,
    }
}

/// Seeking from the end by minus the length of the content asks for the same
/// offset as seeking to the start, so both come to rest at the same place.
pub proof fn seek_end_meets_start(log: Seq<Edit>, position: int, length: int)
    requires
        0 <= length <= i64::MAX,
    ensures
        seek_target(SeekFrom::End((-length) as i64), position, length) == seek_target(
            SeekFrom::Start(0),
            position,
            length,
        ),
        resolve(log, seek_target(SeekFrom::End((-length) as i64), position, length)) == resolve(
            log,
            seek_target(SeekFrom::Start(0), position, length),
        ),
{
}

/// Where a walk along the log came to rest.
struct Walk {
    cursor: Cursor,
    index: usize,
    delta: i128,
}

/// Copies the first `count` bytes of `src` into `dst`, from offset `at` on.
fn copy_run(dst: &mut [u8], at: usize, src: &[u8], count: usize)
    requires
        at + count <= old(dst)@.len(),
        count <= src@.len(),
    ensures
        final(dst)@ == old(dst)@.subrange(0, at as int) + src@.subrange(0, count as int) + old(
            dst,
        )@.subrange(at + count, old(dst)@.len() as int),
{
    let ghost before = dst@;
    let length = dst.len();
    let mut i: usize = 0;
    while i < count
        invariant
            i <= count <= src@.len(),
            at + count <= before.len(),
            length == before.len(),
            dst@ == before.subrange(0, at as int) + src@.subrange(0, i as int) + before.subrange(
                at + i,
                before.len() as int,
            ),
        decreases count - i,
    {
        dst[at + i] = src[i];
        i = i + 1;
        assert(dst@ =~= before.subrange(0, at as int) + src@.subrange(0, i as int)
            + before.subrange(at + i, before.len() as int));
    }
}

/// The offset of the first line terminator in `piece`, or its length if it
/// holds none.
fn find_newline(piece: &[u8]) -> (r: usize)
    ensures
        r <= piece@.len(),
        forall|k: int| 0 <= k < r ==> piece@[k] != NEWLINE,
        r < piece@.len() ==> piece@[r as int] == NEWLINE,
{
    let mut i: usize = 0;
    while i < piece.len() && piece[i] != NEWLINE
        invariant
            i <= piece@.len(),
            forall|k: int| 0 <= k < i ==> piece@[k] != NEWLINE,
        decreases piece@.len() - i,
    {
        i = i + 1;
    }
    i
}

/// A file together with its pending edits and a position in the edited content.
pub struct FileBuffer {
    filename: String,
    backing: Vec<u8>,
    content_diff: EditLog,
    cursor_pos: Cursor,
    length: usize,
}

impl FileBuffer {
    /// The name under which the file was opened.
    pub closed spec fn filename(&self) -> Seq<char> {
        self.filename@
    }

    /// The bytes of the original file.
    pub closed spec fn backing(&self) -> Seq<u8> {
        self.backing@
    }

    /// The pending edits, in log order.
    pub closed spec fn edits(&self) -> Seq<Edit> {
        self.content_diff@
    }

    /// The place at which the cursor rests.
    pub closed spec fn cursor(&self) -> Place {
        self.cursor_pos@
    }

    /// The length of the edited content as the buffer keeps it.
    pub closed spec fn kept_length(&self) -> int {
        self.length as int
    }

    /// The edited content.
    pub open spec fn content(&self) -> Seq<u8> {
        materialize(self.backing(), self.edits())
    }

    /// The offset of the cursor in the edited content.
    pub open spec fn position(&self) -> int {
        offset_of(self.edits(), self.cursor())
    }

    /// The log is well formed and lies within the file, and the length that is
    /// kept is the file's length plus the deltas of all edits.
    pub open spec fn settled(&self) -> bool {
        &&& well_formed(self.edits())
        &&& within(self.edits(), self.backing().len() as int)
        &&& self.kept_length() == self.backing().len() + total_delta(self.edits())
    }

    /// What holds of every buffer: its log is settled, and the cursor is the
    /// place that its own offset resolves to, somewhere from the start to the
    /// end of the content.
    pub open spec fn inv(&self) -> bool {
        &&& self.settled()
        &&& 0 <= self.position() <= self.kept_length()
        &&& self.cursor() == resolve(self.edits(), self.position())
    }

    proof fn backing_fits(&self)
        ensures
            self.backing().len() <= usize::MAX,
    {
        assert(self.backing@.len() == self.backing.len());
    }

    /// A buffer over `content`, the bytes of the file named `filename`, with no
    /// pending edits and the cursor at the start.
    pub fn new(filename: String, content: Vec<u8>) -> (r: Self)
        ensures
            r.inv(),
            r.filename() == filename@,
            r.backing() == content@,
            r.edits() == Seq::<Edit>::empty(),
            r.position() == 0,
            r.content() == content@,
    {
        let length = content.len();
        let r = FileBuffer {
            filename,
            backing: content,
            content_diff: EditLog::new(),
            cursor_pos: Cursor::InFile { file_offset: 0, cumulative_delta: 0 },
            length,
        };
        proof {
            assert(r.content() =~= r.backing());
        }
        r
    }

    /// The name under which the file was opened.
    pub fn get_filename(&self) -> (r: &str)
        ensures
            r@ == self.filename(),
    {
        self.filename.as_str()
    }

    /// The pending edits.
    pub fn get_edits(&self) -> (r: &EditLog)
        ensures
            r@ == self.edits(),
    {
        &self.content_diff
    }

    /// The place at which the cursor rests.
    pub fn get_cursor(&self) -> (r: Cursor)
        ensures
            r@ == self.cursor(),
    {
        self.cursor_pos
    }

    /// The length of the edited content.
    pub fn len(&self) -> (r: usize)
        requires
            self.inv(),
        ensures
            r == self.content().len(),
            r == self.backing().len() + total_delta(self.edits()),
    {
        proof {
            materialize_len(self.backing(), self.edits());
        }
        self.length
    }

    /// The offset of the cursor in the edited content.
    pub fn stream_position(&self) -> (r: u64)
        requires
            self.inv(),
        ensures
            r == self.position(),
    {
        self.offset() as u64
    }

    fn offset(&self) -> (r: usize)
        requires
            self.inv(),
        ensures
            r == self.position(),
    {
        match self.cursor_pos {
            Cursor::InFile { file_offset, cumulative_delta } => {
                let wide: i128 = file_offset as i128 + cumulative_delta;
                wide as usize
            },
            Cursor::InEdit { edit_index, local_offset } => {
                proof {
                    self.backing_fits();
                    resolve_in_bounds(
                        self.edits(),
                        self.backing().len() as int,
                        self.position(),
                    );
                }
                let mut delta: i128 = 0;
                let mut i: usize = 0;
                while i < edit_index
                    invariant
                        self.inv(),
                        i <= edit_index < self.edits().len(),
                        delta == prefix_delta(self.edits(), i as int),
                    decreases edit_index - i,
                {
                    proof {
                        self.backing_fits();
                        prefix_delta_bounds(self.edits(), self.backing().len() as int, i as int);
                        prefix_delta_bounds(
                            self.edits(),
                            self.backing().len() as int,
                            i as int + 1,
                        );
                        assert(prefix_delta(self.edits(), i as int + 1) == prefix_delta(
                            self.edits(),
                            i as int,
                        ) + self.edits()[i as int].size_delta());
                    }
                    delta = delta + self.content_diff.get(i).get_size();
                    i = i + 1;
                }
                let start: i128 = self.content_diff.get(edit_index).get_slice().start as i128;
                let wide: i128 = start + delta + local_offset as i128;
                wide as usize
            },
        }
    }

    /// Walks the log forward from edit `from`, before which the deltas sum to
    /// `delta`, to the place of offset `target`.
    fn walk_from(&self, from: usize, delta: i128, target: usize) -> (w: Walk)
        requires
            self.settled(),
            from <= self.edits().len(),
            delta == prefix_delta(self.edits(), from as int),
            from > 0 ==> virtual_end(self.edits(), from - 1) <= target,
            target <= self.kept_length(),
        ensures
            w.index == landing(self.edits(), 0, target as int),
            w.delta == prefix_delta(self.edits(), w.index as int),
            w.cursor@ == resolve(self.edits(), target as int),
    {
        let ghost log = self.edits();
        let ghost file_length = self.backing().len() as int;
        let count = self.content_diff.len();
        let wanted: i128 = target as i128;
        let mut i: usize = from;
        let mut offset: i128 = delta;
        let mut inside: bool = false;
        let mut found: bool = false;
        while !found && i < count
            invariant
                self.settled(),
                log == self.edits(),
                file_length == self.backing().len(),
                count == log.len(),
                wanted == target,
                target <= self.kept_length(),
                from <= i <= count,
                offset == prefix_delta(log, i as int),
                i > 0 ==> virtual_end(log, i - 1) <= target,
                found ==> i < count && target < virtual_end(log, i as int),
                found ==> inside == (target >= virtual_start(log, i as int)),
            decreases (if found { 0int } else { 1int }), count - i,
        {
            proof {
                self.backing_fits();
                prefix_delta_bounds(log, file_length, i as int);
                prefix_delta_bounds(log, file_length, i as int + 1);
                layout_ascends(log, file_length, i as int);
            }
            let edit = self.content_diff.get(i);
            let begins: i128 = offset + edit.get_slice().start as i128;
            let ends: i128 = begins + edit.get_repl().len() as i128;
            if wanted < ends {
                found = true;
                inside = wanted >= begins;
            } else {
                offset = offset + edit.get_size();
                i = i + 1;
            }
        }
        proof {
            self.backing_fits();
            landing_is(log, file_length, target as int, 0, i as int);
            prefix_delta_bounds(log, file_length, i as int);
            layout_ascends(log, file_length, i as int);
            resolve_in_bounds(log, file_length, target as int);
        }
        let cursor = if found && inside {
            let begins: i128 = offset + self.content_diff.get(i).get_slice().start as i128;
            Cursor::InEdit { edit_index: i, local_offset: (wanted - begins) as usize }
        } else {
            Cursor::InFile { file_offset: (wanted - offset) as usize, cumulative_delta: offset }
        };
        Walk { cursor, index: i, delta: offset }
    }

    /// Walks the log backward from its end to the place of offset `target`.
    fn walk_back(&self, target: usize) -> (r: Cursor)
        requires
            self.settled(),
            target <= self.kept_length(),
        ensures
            r@ == resolve(self.edits(), target as int),
    {
        let ghost log = self.edits();
        let ghost file_length = self.backing().len() as int;
        let wanted: i128 = target as i128;
        let mut i: usize = self.content_diff.len();
        let mut offset: i128 = self.length as i128 - self.backing.len() as i128;
        let mut found: Option<Cursor> = None;
        while found.is_none() && i > 0
            invariant
                self.settled(),
                log == self.edits(),
                file_length == self.backing().len(),
                wanted == target,
                target <= self.kept_length(),
                i <= log.len(),
                offset == prefix_delta(log, i as int),
                forall|j: int| i <= j < log.len() ==> target < #[trigger] virtual_start(log, j),
                found matches Some(c) ==> c@ == resolve(log, target as int),
            decreases (if found.is_none() { 1int } else { 0int }), i,
        {
            proof {
                self.backing_fits();
                prefix_delta_bounds(log, file_length, i as int);
                prefix_delta_bounds(log, file_length, i as int - 1);
                layout_ascends(log, file_length, i as int);
                layout_ascends(log, file_length, i as int - 1);
                if i > 1 {
                    layout_ascends(log, file_length, i as int - 2);
                }
                resolve_in_bounds(log, file_length, target as int);
            }
            let edit = self.content_diff.get(i - 1);
            let before: i128 = offset - edit.get_size();
            let begins: i128 = before + edit.get_slice().start as i128;
            let ends: i128 = begins + edit.get_repl().len() as i128;
            if wanted >= ends {
                proof {
                    if i < log.len() {
                        assert(target < virtual_start(log, i as int));
                    }
                    landing_is(log, file_length, target as int, 0, i as int);
                }
                found = Some(
                    Cursor::InFile {
                        file_offset: (wanted - offset) as usize,
                        cumulative_delta: offset,
                    },
                );
            } else if wanted >= begins {
                proof {
                    landing_is(log, file_length, target as int, 0, i as int - 1);
                }
                found = Some(
                    Cursor::InEdit { edit_index: i - 1, local_offset: (wanted - begins) as usize },
                );
            } else {
                offset = before;
                i = i - 1;
            }
        }
        match found {
            Some(c) => c,
            None => {
                proof {
                    if log.len() > 0 {
                        assert(target < virtual_start(log, 0));
                        layout_ascends(log, file_length, 0);
                    }
                    landing_is(log, file_length, target as int, 0, 0);
                }
                Cursor::InFile { file_offset: target, cumulative_delta: 0 }
            },
        }
    }

    /// Moves the cursor to offset `target` of the edited content.
    fn place_cursor(&mut self, target: usize)
        requires
            old(self).inv(),
            target <= old(self).kept_length(),
        ensures
            final(self).inv(),
            final(self).filename() == old(self).filename(),
            final(self).backing() == old(self).backing(),
            final(self).edits() == old(self).edits(),
            final(self).position() == target,
    {
        let walk = self.walk_from(0, 0, target);
        proof {
            resolve_round_trip(self.edits(), target as int);
        }
        self.cursor_pos = walk.cursor;
    }

    /// Moves the cursor `amount` bytes towards the end of the content, and no
    /// further than the end.
    pub fn move_right(&mut self, amount: usize)
        requires
            old(self).inv(),
        ensures
            final(self).inv(),
            final(self).filename() == old(self).filename(),
            final(self).backing() == old(self).backing(),
            final(self).edits() == old(self).edits(),
            ({
                let length = old(self).content().len() as int;
                final(self).position() == if old(self).position() + amount <= length {
                    old(self).position() + amount
                } else {
                    length
                }
            }),
    {
        proof {
            materialize_len(self.backing(), self.edits());
        }
        let here = self.offset();
        let target = if amount >= self.length - here {
            self.length
        } else {
            here + amount
        };
        self.place_cursor(target);
    }

    /// Moves the cursor `amount` bytes towards the start of the content, and no
    /// further than the start.
    pub fn move_left(&mut self, amount: usize)
        requires
            old(self).inv(),
        ensures
            final(self).inv(),
            final(self).filename() == old(self).filename(),
            final(self).backing() == old(self).backing(),
            final(self).edits() == old(self).edits(),
            final(self).position() == if old(self).position() >= amount {
                old(self).position() - amount
            } else {
                0
            },
    {
        let here = self.offset();
        let target = if amount >= here {
            0
        } else {
            here - amount
        };
        self.place_cursor(target);
    }

    /// Moves the cursor to the offset that `pos` asks for and returns that
    /// offset. An offset before the start or after the end of the content is
    /// refused, and the cursor stays where it was.
    pub fn seek(&mut self, pos: SeekFrom) -> (r: Result<u64, FileError>)
        requires
            old(self).inv(),
        ensures
            final(self).inv(),
            final(self).filename() == old(self).filename(),
            final(self).backing() == old(self).backing(),
            final(self).edits() == old(self).edits(),
            ({
                let target = seek_target(
                    pos,
                    old(self).position(),
                    old(self).content().len() as int,
                );
                match r {
                    Ok(offset) => {
                        &&& 0 <= target <= old(self).content().len()
                        &&& offset == target
                        &&& final(self).position() == target
                        &&& final(self).cursor() == resolve(old(self).edits(), target)
                    },
                    Err(e) => {
                        &&& e == FileError::OutOfRange
                        &&& !(0 <= target <= old(self).content().len())
                        &&& final(self).cursor() == old(self).cursor()
                    },
                }
            }),
    {
        proof {
            materialize_len(self.backing(), self.edits());
        }
        let length: i128 = self.length as i128;
        match pos {
            SeekFrom::Start(offset) => {
                if offset as i128 > length {
                    return Err(FileError::OutOfRange);
                }
                let walk = self.walk_from(0, 0, offset as usize);
                self.cursor_pos = walk.cursor;
                Ok(offset)
            },
            SeekFrom::End(offset) => {
                let wide: i128 = length + offset as i128;
                if wide < 0 || wide > length {
                    return Err(FileError::OutOfRange);
                }
                let cursor = self.walk_back(wide as usize);
                self.cursor_pos = cursor;
                Ok(wide as u64)
            },
            SeekFrom::Current(offset) => {
                let wide: i128 = self.offset() as i128 + offset as i128;
                if wide < 0 || wide > length {
                    return Err(FileError::OutOfRange);
                }
                let walk = self.walk_from(0, 0, wide as usize);
                self.cursor_pos = walk.cursor;
                Ok(wide as u64)
            },
        }
    }
    /// The sum of the size deltas of all edits.
    fn measure(&self) -> (r: i128)
        requires
            well_formed(self.edits()),
            within(self.edits(), self.backing().len() as int),
            self.backing().len() + total_delta(self.edits()) <= usize::MAX,
        ensures
            r == total_delta(self.edits()),
    {
        let ghost log = self.edits();
        let ghost file_length = self.backing().len() as int;
        let count = self.content_diff.len();
        let mut total: i128 = 0;
        let mut i: usize = 0;
        while i < count
            invariant
                log == self.edits(),
                file_length == self.backing().len(),
                well_formed(log),
                within(log, file_length),
                file_length + total_delta(log) <= usize::MAX,
                count == log.len(),
                i <= count,
                total == prefix_delta(log, i as int),
            decreases count - i,
        {
            proof {
                self.backing_fits();
                prefix_delta_bounds(log, file_length, i as int);
                prefix_delta_bounds(log, file_length, i as int + 1);
                assert(prefix_delta(log, i as int + 1) == prefix_delta(log, i as int)
                    + log[i as int].size_delta());
            }
            total = total + self.content_diff.get(i).get_size();
            i = i + 1;
        }
        total
    }

    /// Registers `edit` in the log, folding into it the edits that it meets.
    ///
    /// The edit is refused as out of range when its span runs backwards or
    /// past the end of the file, or when its bytes on top of the present
    /// content would exceed what an offset can hold; it is refused as
    /// overlapping when it crowds an edit of the log. A refused edit changes
    /// nothing. Otherwise the cursor keeps its offset, or moves to the end of
    /// the content where that has become shorter.
    pub fn insert_edit(&mut self, edit: Diff) -> (r: Result<(), FileError>)
        requires
            old(self).inv(),
        ensures
            final(self).inv(),
            final(self).filename() == old(self).filename(),
            final(self).backing() == old(self).backing(),
            final(self).content().len() == final(self).backing().len() + total_delta(
                final(self).edits(),
            ),
            ({
                let out_of_range = !edit@.valid() || edit@.span.end > old(self).backing().len()
                    || old(self).content().len() + edit@.repl.len() > usize::MAX;
                let new_length = final(self).content().len() as int;
                match r {
                    Ok(()) => {
                        &&& !out_of_range
                        &&& !clashes(old(self).edits(), edit@)
                        &&& final(self).edits() == inserted(old(self).edits(), edit@)
                        &&& final(self).position() == if old(self).position() <= new_length {
                            old(self).position()
                        } else {
                            new_length
                        }
                    },
                    Err(e) => {
                        &&& final(self).edits() == old(self).edits()
                        &&& final(self).cursor() == old(self).cursor()
                        &&& out_of_range || clashes(old(self).edits(), edit@)
                        &&& e == if out_of_range {
                            FileError::OutOfRange
                        } else {
                            FileError::Overlap
                        }
                    },
                }
            }),
    {
        proof {
            materialize_len(self.backing(), self.edits());
            self.backing_fits();
        }
        let span = edit.get_slice();
        let room = usize::MAX - self.length;
        if span.start > span.end || span.end > self.backing.len() || edit.get_repl().len() > room {
            return Err(FileError::OutOfRange);
        }
        if self.content_diff.clashes(&edit) {
            return Err(FileError::Overlap);
        }
        let position = self.offset();
        proof {
            insert_keeps_order(self.edits(), edit@);
            insert_stays_within(self.edits(), edit@, self.backing().len() as int);
            insert_grows_by_at_most(self.edits(), edit@);
        }
        self.content_diff.insert_edit(edit);
        let total = self.measure();
        proof {
            prefix_delta_bounds(self.edits(), self.backing().len() as int, 0);
        }
        self.length = (self.backing.len() as i128 + total) as usize;
        proof {
            materialize_len(self.backing(), self.edits());
        }
        let target = if position <= self.length {
            position
        } else {
            self.length
        };
        let walk = self.walk_from(0, 0, target);
        self.cursor_pos = walk.cursor;
        Ok(())
    }

    /// `walk` is where a walk to offset `at` comes to rest.
    spec fn rests(&self, walk: Walk, at: int) -> bool {
        &&& walk.index == landing(self.edits(), 0, at)
        &&& walk.delta == prefix_delta(self.edits(), walk.index as int)
        &&& walk.cursor@ == resolve(self.edits(), at)
    }

    /// The bytes that lie in one piece at offset `at`, where `walk` rests: the
    /// remainder of the untouched stretch or of the replacement that holds it.
    fn segment(&self, walk: &Walk, at: usize) -> (r: &[u8])
        requires
            self.settled(),
            at <= self.kept_length(),
            self.rests(*walk, at as int),
        ensures
            at + r@.len() <= self.content().len(),
            r@ == self.content().subrange(at as int, at + r@.len()),
            r@.len() == 0 <==> at == self.content().len(),
    {
        let ghost log = self.edits();
        let ghost file_length = self.backing().len() as int;
        proof {
            materialize_len(self.backing(), log);
            resolve_in_bounds(log, file_length, at as int);
            layout_ascends(log, file_length, walk.index as int);
        }
        match walk.cursor {
            Cursor::InFile { file_offset, cumulative_delta } => {
                let stop = if walk.index < self.content_diff.len() {
                    self.content_diff.get(walk.index).get_slice().start
                } else {
                    self.backing.len()
                };
                proof {
                    file_run_matches(
                        self.backing(),
                        log,
                        walk.index as int,
                        file_offset as int,
                        stop - file_offset,
                    );
                }
                slice_subrange(self.backing.as_slice(), file_offset, stop)
            },
            Cursor::InEdit { edit_index, local_offset } => {
                let repl = self.content_diff.get(edit_index).get_repl();
                proof {
                    edit_run_matches(
                        self.backing(),
                        log,
                        edit_index as int,
                        local_offset as int,
                        repl@.len() - local_offset,
                    );
                }
                slice_subrange(repl.as_slice(), local_offset, repl.len())
            },
        }
    }

    /// Copies bytes of the edited content into `buf`, from the cursor on, and
    /// moves the cursor past them. As many bytes are copied as `buf` holds,
    /// or as are left before the end of the content if those are fewer; the
    /// rest of `buf` stays as it was. Returns the number of bytes copied: 0
    /// at the end of the content.
    pub fn read(&mut self, buf: &mut [u8]) -> (count: usize)
        requires
            old(self).inv(),
        ensures
            final(self).inv(),
            final(self).filename() == old(self).filename(),
            final(self).backing() == old(self).backing(),
            final(self).edits() == old(self).edits(),
            count == if old(buf)@.len() <= old(self).content().len() - old(self).position() {
                old(buf)@.len() as int
            } else {
                old(self).content().len() - old(self).position()
            },
            final(self).position() == old(self).position() + count,
            final(buf)@.len() == old(buf)@.len(),
            final(buf)@.subrange(0, count as int) == old(self).content().subrange(
                old(self).position(),
                old(self).position() + count,
            ),
            final(buf)@.subrange(count as int, old(buf)@.len() as int) == old(buf)@.subrange(
                count as int,
                old(buf)@.len() as int,
            ),
    {
        let ghost content = self.content();
        let ghost before = buf@;
        proof {
            materialize_len(self.backing(), self.edits());
            resolve_in_bounds(self.edits(), self.backing().len() as int, self.position());
        }
        let start = self.offset();
        let mut at: usize = start;
        let mut walk = self.walk_from(0, 0, at);
        let mut count: usize = 0;
        while count < buf.len() && at < self.length
            invariant
                self.settled(),
                content == self.content(),
                content.len() == self.kept_length(),
                self.rests(walk, at as int),
                at == start + count,
                at <= self.kept_length(),
                buf@.len() == before.len(),
                count <= buf@.len(),
                buf@.subrange(0, count as int) == content.subrange(start as int, at as int),
                buf@.subrange(count as int, before.len() as int) == before.subrange(
                    count as int,
                    before.len() as int,
                ),
            decreases self.length - at,
        {
            let piece = self.segment(&walk, at);
            let room = buf.len() - count;
            let take = if piece.len() <= room {
                piece.len()
            } else {
                room
            };
            let ghost filled = buf@;
            copy_run(buf, count, piece, take);
            proof {
                resolve_in_bounds(self.edits(), self.backing().len() as int, at as int);
                assert(buf@.subrange(0, count + take) =~= filled.subrange(0, count as int)
                    + piece@.subrange(0, take as int));
                assert(content.subrange(start as int, at + take) =~= content.subrange(
                    start as int,
                    at as int,
                ) + content.subrange(at as int, at + take));
                assert(piece@.subrange(0, take as int) =~= content.subrange(
                    at as int,
                    at + take,
                ));
                assert(buf@.subrange(count + take, before.len() as int) =~= filled.subrange(
                    count as int,
                    before.len() as int,
                ).subrange(take as int, before.len() - count));
                assert(before.subrange(count + take, before.len() as int) =~= before.subrange(
                    count as int,
                    before.len() as int,
                ).subrange(take as int, before.len() - count));
            }
            count = count + take;
            at = at + take;
            walk = self.walk_from(walk.index, walk.delta, at);
        }
        self.cursor_pos = walk.cursor;
        count
    }

    /// The bytes of the edited content from offset `from` up to offset `upto`.
    fn gather(&self, from: usize, upto: usize) -> (r: Vec<u8>)
        requires
            self.settled(),
            from <= upto <= self.kept_length(),
        ensures
            r@ == self.content().subrange(from as int, upto as int),
    {
        let ghost content = self.content();
        proof {
            materialize_len(self.backing(), self.edits());
        }
        let mut out: Vec<u8> = Vec::new();
        let mut at: usize = from;
        let mut walk = self.walk_from(0, 0, at);
        while at < upto
            invariant
                self.settled(),
                content == self.content(),
                content.len() == self.kept_length(),
                self.rests(walk, at as int),
                from <= at <= upto <= self.kept_length(),
                out@ == content.subrange(from as int, at as int),
            decreases upto - at,
        {
            let piece = self.segment(&walk, at);
            let room = upto - at;
            let take = if piece.len() <= room {
                piece.len()
            } else {
                room
            };
            out.extend_from_slice(slice_subrange(piece, 0, take));
            proof {
                resolve_in_bounds(self.edits(), self.backing().len() as int, at as int);
                assert(out@ =~= content.subrange(from as int, at + take));
            }
            at = at + take;
            walk = self.walk_from(walk.index, walk.delta, at);
        }
        out
    }

    /// The bytes of the line at offset `start`, and where a walk rests at its end.
    fn take_line(&self, start: usize) -> (r: (Vec<u8>, Walk))
        requires
            self.settled(),
            start <= self.kept_length(),
        ensures
            r.0@ == line_at(self.content(), start as int),
            self.rests(r.1, line_end(self.content(), start as int)),
            start <= line_end(self.content(), start as int) <= self.kept_length(),
    {
        let ghost content = self.content();
        proof {
            materialize_len(self.backing(), self.edits());
            line_end_bounds(content, start as int);
        }
        let mut out: Vec<u8> = Vec::new();
        let mut at: usize = start;
        let mut walk = self.walk_from(0, 0, at);
        let mut ended: bool = false;
        while !ended && at < self.length
            invariant
                self.settled(),
                content == self.content(),
                content.len() == self.kept_length(),
                self.rests(walk, at as int),
                start <= at <= self.kept_length(),
                out@ == content.subrange(start as int, at as int),
                !ended ==> line_end(content, start as int) == line_end(content, at as int),
                ended ==> line_end(content, start as int) == at,
            decreases (if ended { 0int } else { 1int }), self.length - at,
        {
            let piece = self.segment(&walk, at);
            let found = find_newline(piece);
            let take = if found < piece.len() {
                ended = true;
                found + 1
            } else {
                found
            };
            out.extend_from_slice(slice_subrange(piece, 0, take));
            proof {
                resolve_in_bounds(self.edits(), self.backing().len() as int, at as int);
                assert(out@ =~= content.subrange(start as int, at + take));
                assert forall|k: int| at <= k < at + found implies content[k] != NEWLINE by {
                    assert(content[k] == piece@[k - at]);
                }
                line_end_skips(content, at as int, at + found);
                if found < piece@.len() {
                    assert(content[at + found] == piece@[found as int]);
                }
            }
            at = at + take;
            walk = self.walk_from(walk.index, walk.delta, at);
        }
        (out, walk)
    }

    /// Reads the line at the cursor, up to and with its line terminator or to
    /// the end of the content, and moves the cursor past it. At the end of the
    /// content the line is empty. A line that is not valid UTF-8 is refused,
    /// and the cursor stays where it was.
    pub fn next_line(&mut self) -> (r: Result<String, FileError>)
        requires
            old(self).inv(),
        ensures
            final(self).inv(),
            final(self).filename() == old(self).filename(),
            final(self).backing() == old(self).backing(),
            final(self).edits() == old(self).edits(),
            ({
                let line = line_at(old(self).content(), old(self).position());
                match r {
                    Ok(text) => {
                        &&& valid_utf8(line)
                        &&& text@ == decode_utf8(line)
                        &&& final(self).position() == line_end(
                            old(self).content(),
                            old(self).position(),
                        )
                    },
                    Err(e) => {
                        &&& e == FileError::DecodeError
                        &&& !valid_utf8(line)
                        &&& final(self).cursor() == old(self).cursor()
                    },
                }
            }),
    {
        let start = self.offset();
        let (line, walk) = self.take_line(start);
        match decode_text(line) {
            Some(text) => {
                proof {
                    resolve_round_trip(
                        self.edits(),
                        line_end(self.content(), self.position()),
                    );
                }
                self.cursor_pos = walk.cursor;
                Ok(text)
            },
            None => Err(FileError::DecodeError),
        }
    }

    /// Reads `count` lines from the cursor on and leaves the cursor where it
    /// was. If one of them is not valid UTF-8, none is returned.
    pub fn read_lines(&mut self, count: usize) -> (r: Result<Vec<String>, FileError>)
        requires
            old(self).inv(),
        ensures
            final(self).inv(),
            final(self).filename() == old(self).filename(),
            final(self).backing() == old(self).backing(),
            final(self).edits() == old(self).edits(),
            final(self).cursor() == old(self).cursor(),
            ({
                let lines = lines_from(
                    old(self).content(),
                    old(self).position(),
                    count as nat,
                );
                match r {
                    Ok(texts) => {
                        &&& texts@.len() == count
                        &&& forall|k: int|
                            0 <= k < count ==> valid_utf8(#[trigger] lines[k]) && texts@[k]@
                                == decode_utf8(lines[k])
                    },
                    Err(e) => {
                        &&& e == FileError::DecodeError
                        &&& exists|k: int| 0 <= k < count && !valid_utf8(#[trigger] lines[k])
                    },
                }
            }),
    {
        let ghost content = self.content();
        let ghost from = self.position();
        let ghost lines = lines_from(content, from, count as nat);
        let saved = self.cursor_pos;
        let mut texts: Vec<String> = Vec::new();
        let mut i: usize = 0;
        let mut failed: bool = false;
        while !failed && i < count
            invariant
                self.inv(),
                self.filename() == old(self).filename(),
                self.backing() == old(self).backing(),
                self.edits() == old(self).edits(),
                content == self.content(),
                lines == lines_from(content, from, count as nat),
                i <= count,
                texts@.len() == i,
                self.position() == nth_line_start(content, from, i as nat),
                forall|k: int|
                    0 <= k < i ==> valid_utf8(#[trigger] lines[k]) && texts@[k]@ == decode_utf8(
                        lines[k],
                    ),
                failed ==> i < count && !valid_utf8(lines[i as int]),
            decreases (if failed { 0int } else { 1int }), count - i,
        {
            assert(lines[i as int] == line_at(content, nth_line_start(content, from, i as nat)));
            match self.next_line() {
                Ok(text) => {
                    texts.push(text);
                    i = i + 1;
                },
                Err(_) => {
                    failed = true;
                },
            }
        }
        self.cursor_pos = saved;
        if failed {
            Err(FileError::DecodeError)
        } else {
            Ok(texts)
        }
    }

    /// Moves the cursor back to the start of the line that holds the byte
    /// before it, looking at no more than the `max_scan` bytes before the
    /// cursor, and returns the offset it moved to.
    ///
    /// The move is refused, and the cursor stays where it was, when those
    /// bytes are not valid UTF-8, or when the line starts at or before the
    /// first of them and they do not reach back to the start of the content.
    pub fn previous_line(&mut self, max_scan: usize) -> (r: Result<u64, FileError>)
        requires
            old(self).inv(),
        ensures
            final(self).inv(),
            final(self).filename() == old(self).filename(),
            final(self).backing() == old(self).backing(),
            final(self).edits() == old(self).edits(),
            ({
                let here = old(self).position();
                let from = if max_scan >= here {
                    0
                } else {
                    here - max_scan
                };
                let window = old(self).content().subrange(from, here);
                let target = line_start(old(self).content(), here);
                let seen = valid_utf8(window) && (from == 0 || target > from);
                match r {
                    Ok(offset) => {
                        &&& seen
                        &&& offset == target
                        &&& final(self).position() == target
                    },
                    Err(e) => {
                        &&& e == FileError::DecodeError
                        &&& !seen
                        &&& final(self).cursor() == old(self).cursor()
                    },
                }
            }),
    {
        let ghost content = self.content();
        proof {
            materialize_len(self.backing(), self.edits());
        }
        let here = self.offset();
        let from = if max_scan >= here {
            0
        } else {
            here - max_scan
        };
        let window = self.gather(from, here);
        let length = window.len();
        let mut i: usize = if length == 0 {
            0
        } else {
            length - 1
        };
        while i > 0 && window[i - 1] != NEWLINE
            invariant
                window@ == content.subrange(from as int, here as int),
                length == window@.len(),
                length == here - from,
                i <= length,
                length > 0 ==> i < length,
                forall|k: int| i <= k < length - 1 ==> window@[k] != NEWLINE,
            decreases i,
        {
            i = i - 1;
        }
        proof {
            line_start_bounds(content, here as int);
            if length > 0 {
                assert forall|k: int| from + i <= k < here - 1 implies content[k] != NEWLINE by {
                    assert(content[k] == window@[k - from]);
                }
                line_start_skips(content, from + i, here as int);
                line_start_bounds(content, from + i + 1);
                if i > 0 {
                    assert(content[from + i - 1] == window@[i - 1]);
                }
            }
        }
        let known = i > 0 || from == 0;
        let target = from + i;
        match decode_text(window) {
            Some(_) => {
                if known {
                    let walk = self.walk_from(0, 0, target);
                    proof {
                        resolve_round_trip(self.edits(), target as int);
                    }
                    self.cursor_pos = walk.cursor;
                    Ok(target as u64)
                } else {
                    Err(FileError::DecodeError)
                }
            },
            None => Err(FileError::DecodeError),
        }
    }

    /// The edited content in full: the untouched stretches of the file and
    /// the replacements of the edits, in the order of the log.
    pub fn materialize(&self) -> (r: Vec<u8>)
        requires
            self.inv(),
        ensures
            r@ == self.content(),
    {
        let ghost log = self.edits();
        let ghost backing = self.backing();
        let count = self.content_diff.len();
        let mut out: Vec<u8> = Vec::new();
        let mut reached: usize = 0;
        let mut i: usize = 0;
        while i < count
            invariant
                self.inv(),
                log == self.edits(),
                backing == self.backing(),
                count == log.len(),
                i <= count,
                reached == end_before(log, i as int),
                out@ == applied(backing, log, i as int),
            decreases count - i,
        {
            proof {
                layout_ascends(log, backing.len() as int, i as int);
            }
            let edit = self.content_diff.get(i);
            let span = edit.get_slice();
            out.extend_from_slice(slice_subrange(self.backing.as_slice(), reached, span.start));
            out.extend_from_slice(edit.get_repl().as_slice());
            reached = span.end;
            i = i + 1;
        }
        proof {
            layout_ascends(log, backing.len() as int, count as int);
        }
        out.extend_from_slice(slice_subrange(self.backing.as_slice(), reached, self.backing.len()));
        out
    }

    /// Makes the edited content the content of the file: returns the bytes to
    /// be written, keeps them as the file's bytes and empties the log. What a
    /// reader sees, and the offset of the cursor, stay as they were.
    pub fn flush(&mut self) -> (r: Vec<u8>)
        requires
            old(self).inv(),
        ensures
            final(self).inv(),
            final(self).filename() == old(self).filename(),
            r@ == old(self).content(),
            final(self).backing() == old(self).content(),
            final(self).edits() == Seq::<Edit>::empty(),
            final(self).content() == old(self).content(),
            final(self).position() == old(self).position(),
    {
        proof {
            materialize_len(self.backing(), self.edits());
        }
        let written = self.materialize();
        let position = self.offset();
        self.backing = written.clone();
        self.content_diff = EditLog::new();
        self.cursor_pos = Cursor::InFile { file_offset: position, cumulative_delta: 0 };
        proof {
            assert(self.content() =~= self.backing());
        }
        written
    }
}

} // verus!
