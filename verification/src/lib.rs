//! Record lines: a block of text with a header line and one record to a line, each a
//! name and a length parted by a comma.
//!
//! The crate cuts a block into lines and a line into trimmed fields, passes over the
//! header and over blank lines, and writes one output line for each record whose
//! length reads as a number. Reading the length as a number is left to the caller:
//! the crate hands out the length as text and takes back what was read.

pub mod block;
pub mod chars;
pub mod lines;
pub mod record;
pub mod render;
pub mod split;
pub mod trace;
pub mod whitespace;

pub use block::{records, MalformedLine};
pub use lines::lines;
pub use record::{parse_line, split_fields, Parsed, Record};
pub use render::{emit, format_record, render};
pub use trace::trace_line;
