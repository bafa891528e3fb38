//! Severity levels and log records.

use vstd::prelude::*;

verus! {

use crate::text::ascii_printable;

/// Severity of a log record, most severe first.  The facade's ordering:
/// a record is emitted when its severity rank is at most the threshold's.
#[derive(Clone, Copy, PartialEq, Eq, Structural, Debug)]
pub enum Level {
    Error,
    Warn,
    Info,
    Debug,
    Trace,
}

impl Level {
    /// Numeric rank of the severity: smaller is more severe.
    pub open spec fn rank(self) -> int {
        match self {
            Level::Error => 0,
            Level::Warn => 1,
            Level::Info => 2,
            Level::Debug => 3,
            Level::Trace => 4,
        }
    }

    /// Runtime rank, agreeing with `rank`.
    pub fn rank_u8(self) -> (r: u8)
        ensures
            r as int == self.rank(),
    {
        match self {
            Level::Error => 0,
            Level::Warn => 1,
            Level::Info => 2,
            Level::Debug => 3,
            Level::Trace => 4,
        }
    }
}

/// One log record: a severity, a message body, and the capture timestamp.
/// The timestamp is kept as printable-ASCII bytes, ready to stand between
/// the brackets of an output line.
pub struct LogEntry {
    pub level: Level,
    pub message: String,
    pub timestamp: Vec<u8>,
}

impl LogEntry {
    /// Well-formed: the timestamp is printable ASCII, so it renders as one
    /// physical line.
    pub open spec fn inv(self) -> bool {
        ascii_printable(self.timestamp@)
    }

    /// Relies on chrono's `Utc::now` and the `Display` rendering of
    /// `DateTime<Utc>`: calendar date, time of day and the literal `UTC`
    /// offset, written with digits, punctuation and letters — printable
    /// ASCII, never empty.
    #[verifier::external_body]
    fn timestamp_now() -> (r: Vec<u8>)
        ensures
            ascii_printable(r@),
            r@.len() > 0,
    {
        chrono::Utc::now().to_string().into_bytes()
    }

    /// Builds a record carrying the current time as its capture timestamp.
    pub fn capture(level: Level, message: String) -> (r: LogEntry)
        ensures
            r.level == level,
            r.message == message,
            r.inv(),
    {
        LogEntry { level, message, timestamp: Self::timestamp_now() }
    }
}

} // verus!
