use edit_overlay::diff::Diff;
use edit_overlay::file::{FileBuffer, FileError, SeekFrom};

fn plain(bytes: &[u8]) -> FileBuffer {
    FileBuffer::new(String::from("lines.txt"), bytes.to_vec())
}

#[test]
fn next_line_walks_the_lines_with_their_terminators() {
    let mut file = plain(b"one\ntwo\r\n\nlast");
    assert_eq!(file.next_line(), Ok(String::from("one\n")));
    assert_eq!(file.stream_position(), 4);
    assert_eq!(file.next_line(), Ok(String::from("two\r\n")));
    assert_eq!(file.next_line(), Ok(String::from("\n")));
    assert_eq!(file.next_line(), Ok(String::from("last")));
    assert_eq!(file.stream_position(), 14);
    assert_eq!(file.next_line(), Ok(String::new()));
    assert_eq!(file.stream_position(), 14);
}

#[test]
fn next_line_starts_where_the_cursor_is() {
    let mut file = plain(b"one\ntwo\n");
    assert_eq!(file.seek(SeekFrom::Start(1)), Ok(1));
    assert_eq!(file.next_line(), Ok(String::from("ne\n")));
    assert_eq!(file.seek(SeekFrom::Start(3)), Ok(3));
    assert_eq!(file.next_line(), Ok(String::from("\n")));
    assert_eq!(file.stream_position(), 4);
}

#[test]
fn lines_read_to_the_end_give_the_file_back() {
    let content = "first line\n\nthird, with \u{e9}\u{4e16}\u{1f600}\r\nno terminator";
    let mut file = plain(content.as_bytes());
    let mut rebuilt = String::new();
    loop {
        let line = file.next_line().unwrap();
        if line.is_empty() {
            break;
        }
        rebuilt.push_str(&line);
    }
    assert_eq!(rebuilt, content);
    assert_eq!(file.stream_position() as usize, content.len());
}

#[test]
fn lines_run_across_edits() {
    let mut file = plain(b"alpha\nbeta\ngamma\n");
    assert_eq!(file.insert_edit(Diff::new(3..8, b"-\n-")), Ok(()));
    assert_eq!(file.insert_edit(Diff::new(17..17, b"omega")), Ok(()));
    assert_eq!(file.materialize(), b"alp-\n-ta\ngamma\nomega");
    assert_eq!(file.next_line(), Ok(String::from("alp-\n")));
    assert_eq!(file.next_line(), Ok(String::from("-ta\n")));
    assert_eq!(file.next_line(), Ok(String::from("gamma\n")));
    assert_eq!(file.next_line(), Ok(String::from("omega")));
    assert_eq!(file.next_line(), Ok(String::new()));
}

#[test]
fn next_line_decodes_utf8() {
    let mut file = plain("h\u{e9}llo\n".as_bytes());
    let line = file.next_line().unwrap();
    assert_eq!(line, "h\u{e9}llo\n");
    assert_eq!(line.chars().count(), 6);
    assert_eq!(file.stream_position(), 7);
}

#[test]
fn next_line_refuses_bytes_that_are_no_text() {
    let mut file = plain(b"ok\n\xff\xfe\nafter\n");
    assert_eq!(file.next_line(), Ok(String::from("ok\n")));
    let before = file.get_cursor();
    assert_eq!(file.next_line(), Err(FileError::DecodeError));
    assert_eq!(file.get_cursor(), before);
    assert_eq!(file.stream_position(), 3);
    assert_eq!(file.seek(SeekFrom::Start(6)), Ok(6));
    assert_eq!(file.next_line(), Ok(String::from("after\n")));
}

#[test]
fn next_line_refuses_a_start_inside_a_character() {
    let mut file = plain("\u{e9}x\n".as_bytes());
    assert_eq!(file.seek(SeekFrom::Start(1)), Ok(1));
    assert_eq!(file.next_line(), Err(FileError::DecodeError));
    assert_eq!(file.stream_position(), 1);
}

#[test]
fn read_lines_leaves_the_cursor() {
    let mut file = plain(b"one\ntwo\nthree\n");
    assert_eq!(file.seek(SeekFrom::Start(4)), Ok(4));
    let before = file.get_cursor();
    assert_eq!(
        file.read_lines(2),
        Ok(vec![String::from("two\n"), String::from("three\n")])
    );
    assert_eq!(file.get_cursor(), before);
    assert_eq!(file.stream_position(), 4);
    assert_eq!(file.read_lines(0), Ok(Vec::new()));
}

#[test]
fn read_lines_past_the_end_gives_empty_lines() {
    let mut file = plain(b"one\ntwo");
    assert_eq!(
        file.read_lines(4),
        Ok(vec![String::from("one\n"), String::from("two"), String::new(), String::new()])
    );
    assert_eq!(file.stream_position(), 0);
}

#[test]
fn read_lines_refuses_when_one_line_is_no_text() {
    let mut file = plain(b"one\n\xc3\ntwo\n");
    assert_eq!(file.read_lines(1), Ok(vec![String::from("one\n")]));
    assert_eq!(file.read_lines(2), Err(FileError::DecodeError));
    assert_eq!(file.stream_position(), 0);
}

#[test]
fn previous_line_goes_to_the_start_of_the_line_before() {
    let mut file = plain(b"one\ntwo\nthree\n");
    assert_eq!(file.seek(SeekFrom::Start(8)), Ok(8));
    assert_eq!(file.previous_line(130), Ok(4));
    assert_eq!(file.stream_position(), 4);
    assert_eq!(file.previous_line(130), Ok(0));
    assert_eq!(file.previous_line(130), Ok(0));
    assert_eq!(file.stream_position(), 0);
}

#[test]
fn previous_line_from_inside_a_line_goes_to_its_start() {
    let mut file = plain(b"one\ntwo\nthree\n");
    assert_eq!(file.seek(SeekFrom::Start(6)), Ok(6));
    assert_eq!(file.previous_line(130), Ok(4));
    assert_eq!(file.seek(SeekFrom::Start(5)), Ok(5));
    assert_eq!(file.previous_line(2), Ok(4));
    assert_eq!(file.seek(SeekFrom::Start(2)), Ok(2));
    assert_eq!(file.previous_line(2), Ok(0));
}

#[test]
fn previous_line_fails_when_the_line_outruns_the_window() {
    let mut file = plain(b"one\ntwo\nthree\n");
    assert_eq!(file.seek(SeekFrom::Start(14)), Ok(14));
    let before = file.get_cursor();
    // The line "three\n" starts at 8; its start shows only if byte 7 is scanned.
    assert_eq!(file.previous_line(6), Err(FileError::DecodeError));
    assert_eq!(file.previous_line(0), Err(FileError::DecodeError));
    assert_eq!(file.get_cursor(), before);
    assert_eq!(file.previous_line(7), Ok(8));
}

#[test]
fn previous_line_fails_when_the_window_splits_a_character() {
    let mut file = plain("a\nb\u{e9}cd\n".as_bytes());
    assert_eq!(file.seek(SeekFrom::Start(8)), Ok(8));
    // Four bytes back begin with the second byte of the two-byte character.
    assert_eq!(file.previous_line(4), Err(FileError::DecodeError));
    assert_eq!(file.stream_position(), 8);
    assert_eq!(file.previous_line(7), Ok(2));
}

#[test]
fn previous_line_sees_edited_content() {
    let mut file = plain(b"0123456789");
    assert_eq!(file.insert_edit(Diff::new(4..4, b"\n")), Ok(()));
    assert_eq!(file.insert_edit(Diff::new(6..8, b"\n\n")), Ok(()));
    assert_eq!(file.materialize(), b"0123\n45\n\n89");
    assert_eq!(file.seek(SeekFrom::End(0)), Ok(11));
    assert_eq!(file.previous_line(130), Ok(9));
    assert_eq!(file.previous_line(130), Ok(8));
    assert_eq!(file.previous_line(130), Ok(5));
    assert_eq!(file.previous_line(130), Ok(0));
}
