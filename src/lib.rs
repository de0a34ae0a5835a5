//! A bounded-memory line reader: it pulls bytes from a source through a
//! fixed-size internal buffer and hands out each line, or as much of it as
//! fits, into a destination that the caller supplies.

pub mod line;
pub mod reader;
pub mod source;

pub use line::{Line, NEWLINE};
pub use reader::{LineReader, DEFAULT_BUF_SIZE};
pub use source::{ByteSource, MemorySource};
