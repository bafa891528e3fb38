//! A buffered file-logging backend.
//!
//! Log records are filtered by severity, stamped with a capture time,
//! formatted as `[<timestamp>] <message>` lines, and accumulated in a
//! fixed-capacity circular byte buffer until a flush writes them out.  The
//! buffering, formatting, filtering and wraparound logic live here, fully
//! specified; the file itself and the process-wide facade registration are
//! the embedding application's side of the protocol.

pub mod file_logger;
pub mod file_writer;
pub mod log_buffer;
pub mod record;
pub mod text;

pub use crate::file_logger::FileLogger;
pub use crate::file_logger::LogOutcome;
pub use crate::file_writer::FileWriter;
pub use crate::file_writer::WriteOutcome;
pub use crate::log_buffer::LogBuffer;
pub use crate::record::Level;
pub use crate::record::LogEntry;
pub use crate::text::ascii_printable;
pub use crate::text::extract_model;
pub use crate::text::ring_append;

use vstd::prelude::*;

verus! {

} // verus!
