//! Lines in a run of bytes: where the line at an offset ends, where the line
//! before an offset starts, and how a content falls apart into its lines.

use vstd::prelude::*;
use vstd::utf8::{decode_utf8, decode_utf8_encode_utf8, encode_utf8, valid_utf8};

verus! {

/// The byte that ends a line.
pub const NEWLINE: u8 = 10;

/// The offset just past the line that holds offset `from`: past its line
/// terminator, or the end of the content where no terminator follows.
pub open spec fn line_end(content: Seq<u8>, from: int) -> int
    decreases content.len() - from,
{
    if from < 0 || from >= content.len() {
        content.len() as int
    } else if content[from] == NEWLINE {
        from + 1
    } else {
        line_end(content, from + 1)
    }
}

/// The offset at which the line that holds the byte before `upto` starts: just
/// past the last line terminator that lies before that byte, or 0.
pub open spec fn line_start(content: Seq<u8>, upto: int) -> int
    decreases upto,
{
    if upto <= 1 {
        0
    } else if content[upto - 2] == NEWLINE {
        upto - 1
    } else {
        line_start(content, upto - 1)
    }
}

/// The bytes of the line that begins at offset `from`, with its terminator.
pub open spec fn line_at(content: Seq<u8>, from: int) -> Seq<u8> {
    content.subrange(from, line_end(content, from))
}

/// Where the line begins that is reached from offset `from` by passing `k` lines.
pub open spec fn nth_line_start(content: Seq<u8>, from: int, k: nat) -> int
    decreases k,
{
    if k == 0 {
        from
    } else {
        line_end(content, nth_line_start(content, from, (k - 1) as nat))
    }
}

/// The first `count` lines from offset `from` on; past the end of the content
/// the lines are empty.
pub open spec fn lines_from(content: Seq<u8>, from: int, count: nat) -> Seq<Seq<u8>> {
    Seq::new(count, |k: int| line_at(content, nth_line_start(content, from, k as nat)))
}

/// All lines from offset `from` to the end of the content.
pub open spec fn all_lines(content: Seq<u8>, from: int) -> Seq<Seq<u8>>
    decreases content.len() - from,
{
    if from < 0 || from >= content.len() {
        Seq::empty()
    } else {
        proof {
            line_end_bounds(content, from);
        }
        seq![line_at(content, from)] + all_lines(
            content,
            line_end(content, from),
        )
    }
}

/// A line ends after the offset it is asked from, and within the content.
pub proof fn line_end_bounds(content: Seq<u8>, from: int)
    requires
        0 <= from <= content.len(),
    ensures
        from <= line_end(content, from) <= content.len(),
        from < content.len() ==> from < line_end(content, from),
    decreases content.len() - from,
{
    if from < content.len() && content[from] != NEWLINE {
        line_end_bounds(content, from + 1);
    }
}

/// Bytes that are no line terminators do not end the line.
pub proof fn line_end_skips(content: Seq<u8>, from: int, upto: int)
    requires
        0 <= from <= upto <= content.len(),
        forall|k: int| from <= k < upto ==> content[k] != NEWLINE,
    ensures
        line_end(content, from) == line_end(content, upto),
    decreases upto - from,
{
    if from < upto {
        line_end_skips(content, from + 1, upto);
    }
}

/// A line starts before the offset it is asked from, unless that is the start.
pub proof fn line_start_bounds(content: Seq<u8>, upto: int)
    ensures
        0 <= line_start(content, upto),
        upto >= 1 ==> line_start(content, upto) < upto,
    decreases upto,
{
    if upto > 1 && content[upto - 2] != NEWLINE {
        line_start_bounds(content, upto - 1);
    }
}

/// Bytes that are no line terminators do not start a line.
pub proof fn line_start_skips(content: Seq<u8>, low: int, upto: int)
    requires
        0 <= low < upto,
        forall|k: int| low <= k < upto - 1 ==> content[k] != NEWLINE,
    ensures
        line_start(content, upto) == line_start(content, low + 1),
    decreases upto - low,
{
    if low + 1 < upto {
        line_start_skips(content, low, upto - 1);
    }
}

/// Reading line after line to the end gives the content back: the lines from
/// an offset on, put together with their terminators, are the content from
/// that offset on.
pub proof fn lines_rebuild_content(content: Seq<u8>, from: int)
    requires
        0 <= from <= content.len(),
    ensures
        all_lines(content, from).flatten() == content.subrange(from, content.len() as int),
    decreases content.len() - from,
{
    if from >= content.len() {
        assert(content.subrange(from, content.len() as int) =~= Seq::<u8>::empty());
    } else {
        let next = line_end(content, from);
        line_end_bounds(content, from);
        lines_rebuild_content(content, next);
        let head = seq![line_at(content, from)];
        let tail = all_lines(content, next);
        vstd::seq_lib::lemma_flatten_concat(head, tail);
        head.lemma_flatten_one_element();
        assert(content.subrange(from, next) + content.subrange(next, content.len() as int)
            =~= content.subrange(from, content.len() as int));
    }
}

/// Where every line is valid UTF-8, the texts that the lines decode to, each
/// encoded again and all put together, are the content from that offset on:
/// no byte of a line or of its terminator is lost in decoding.
pub proof fn decoded_lines_rebuild_content(content: Seq<u8>, from: int)
    requires
        0 <= from <= content.len(),
        forall|k: int|
            0 <= k < all_lines(content, from).len() ==> valid_utf8(
                #[trigger] all_lines(content, from)[k],
            ),
    ensures
        all_lines(content, from).map_values(|line: Seq<u8>| encode_utf8(decode_utf8(line)))
            .flatten() == content.subrange(from, content.len() as int),
{
    let lines = all_lines(content, from);
    let again = lines.map_values(|line: Seq<u8>| encode_utf8(decode_utf8(line)));
    assert forall|k: int| 0 <= k < lines.len() implies again[k] == lines[k] by {
        decode_utf8_encode_utf8(lines[k]);
    }
    assert(again =~= lines);
    lines_rebuild_content(content, from);
}

} // verus!
