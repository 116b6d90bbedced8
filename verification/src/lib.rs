//! An edit overlay over a file's bytes: pending replacements of byte ranges are
//! kept in an ordered log, and the file is read, sought and walked line by line
//! as if they had been applied.

pub mod diff;
pub mod log;
pub mod cursor;
pub mod content;
pub mod file;
pub mod merge;
pub mod lines;
mod text;

pub use cursor::Cursor;
pub use diff::{ByteSpan, Diff};
pub use file::{FileBuffer, FileError, SeekFrom};
pub use log::EditLog;
