//! The facade-facing logging backend.
//!
//! Holds an immutable minimum-severity threshold and the record writer.  A
//! record below the threshold never reaches the buffer; an enabled record
//! is formatted and buffered, and when it does not fit the backend asks its
//! caller to flush first.  The embedding application keeps one backend
//! behind a process-wide exclusive lock, registers it with the logging
//! facade, performs each flush's file write, and acknowledges it with
//! `mark_flushed` — so every `log` call the facade dispatches runs this
//! verified decision logic under the lock.

use vstd::prelude::*;

verus! {

use vstd::utf8::valid_utf8;
use crate::file_writer::FileWriter;
use crate::file_writer::WriteOutcome;
use crate::file_writer::entry_output;
use crate::record::Level;
use crate::record::LogEntry;
use crate::text::extract_model;
use crate::text::ring_append;

/// Buffer capacity used by `FileLogger::new`.
pub const DEFAULT_BUFFER_CAPACITY: usize = 4096;

/// What a call to `log` did.
#[derive(Clone, Copy, PartialEq, Eq, Structural, Debug)]
pub enum LogOutcome {
    /// The record's severity is below the threshold: nothing happened.
    Skipped,
    /// The record was appended to the buffer.
    Buffered,
    /// The record did not fit: the caller must flush, then hand the record
    /// to `log_after_flush`.
    NeedsFlush,
}

/// The logging backend: a minimum severity threshold, fixed at
/// construction, and the buffered record writer.
pub struct FileLogger {
    level: Level,
    writer: FileWriter,
}

impl FileLogger {
    pub closed spec fn inv(self) -> bool {
        self.writer.inv()
    }

    /// The minimum enabled severity.
    pub closed spec fn threshold(self) -> Level {
        self.level
    }

    /// The pending output bytes.
    pub closed spec fn buffered(self) -> Seq<u8> {
        self.writer.buffered()
    }

    /// The buffer's fixed capacity.
    pub closed spec fn cap(self) -> int {
        self.writer.cap()
    }

    /// The destination path.
    pub closed spec fn path_spec(self) -> Seq<char> {
        self.writer.path_spec()
    }

    /// True when the severity passes the threshold: at most the
    /// threshold's rank, ranks running from most severe upward.
    pub open spec fn enabled_spec(self, level: Level) -> bool {
        level.rank() <= self.threshold().rank()
    }

    /// Builds a backend writing to `path` with the given threshold and
    /// buffer capacity.
    pub fn with_capacity(path: String, level: Level, capacity: usize) -> (r: FileLogger)
        requires
            capacity >= 1,
        ensures
            r.inv(),
            r.threshold() == level,
            r.cap() == capacity,
            r.path_spec() == path@,
            r.buffered() == Seq::<u8>::empty(),
    {
        FileLogger { level, writer: FileWriter::new(path, capacity) }
    }

    /// Builds a backend writing to `path` with the given threshold and the
    /// default buffer capacity.
    pub fn new(path: String, level: Level) -> (r: FileLogger)
        ensures
            r.inv(),
            r.threshold() == level,
            r.cap() == DEFAULT_BUFFER_CAPACITY,
            r.path_spec() == path@,
            r.buffered() == Seq::<u8>::empty(),
    {
        Self::with_capacity(path, level, DEFAULT_BUFFER_CAPACITY)
    }

    /// Whether a record at this severity would be emitted.
    pub fn enabled(&self, level: Level) -> (r: bool)
        ensures
            r == self.enabled_spec(level),
    {
        level.rank_u8() <= self.level.rank_u8()
    }

    /// The destination path, for the caller performing the flush.
    pub fn path(&self) -> (r: &String)
        ensures
            r@ == self.path_spec(),
    {
        self.writer.path()
    }

    /// True when no output is pending.
    pub fn is_empty(&self) -> (r: bool)
        requires
            self.inv(),
        ensures
            r == (self.buffered().len() == 0),
    {
        self.writer.is_empty()
    }

    /// Logs one record: a record below the threshold is skipped and
    /// nothing changes; an enabled record is formatted and appended when
    /// it fits, and otherwise the backend reports that a flush must come
    /// first, leaving everything untouched.
    pub fn log(&mut self, entry: &LogEntry) -> (r: LogOutcome)
        requires
            old(self).inv(),
            entry.inv(),
        ensures
            final(self).inv(),
            final(self).threshold() == old(self).threshold(),
            final(self).cap() == old(self).cap(),
            final(self).path_spec() == old(self).path_spec(),
            !old(self).enabled_spec(entry.level) ==> ({
                &&& r == LogOutcome::Skipped
                &&& *final(self) == *old(self)
            }),
            old(self).enabled_spec(entry.level) && entry_output(*entry).len() <= old(self).cap()
                - old(self).buffered().len() ==> ({
                &&& r == LogOutcome::Buffered
                &&& final(self).buffered() == old(self).buffered() + entry_output(*entry)
            }),
            old(self).enabled_spec(entry.level) && entry_output(*entry).len() > old(self).cap()
                - old(self).buffered().len() ==> ({
                &&& r == LogOutcome::NeedsFlush
                &&& *final(self) == *old(self)
            }),
    {
        if !self.enabled(entry.level) {
            return LogOutcome::Skipped;
        }
        match self.writer.write(entry) {
            WriteOutcome::Buffered => LogOutcome::Buffered,
            WriteOutcome::NeedsFlush => LogOutcome::NeedsFlush,
        }
    }

    /// Appends an enabled record unconditionally: used right after a flush
    /// has emptied the buffer.  A record below the threshold is still
    /// skipped.
    pub fn log_after_flush(&mut self, entry: &LogEntry)
        requires
            old(self).inv(),
            entry.inv(),
        ensures
            final(self).inv(),
            final(self).threshold() == old(self).threshold(),
            final(self).cap() == old(self).cap(),
            final(self).path_spec() == old(self).path_spec(),
            !old(self).enabled_spec(entry.level) ==> *final(self) == *old(self),
            old(self).enabled_spec(entry.level) ==> final(self).buffered() == ring_append(
                old(self).buffered(),
                entry_output(*entry),
                old(self).cap(),
            ),
    {
        if self.enabled(entry.level) {
            self.writer.append_entry(entry);
        }
    }

    /// The bytes a flush must write; does not consume the buffer.
    pub fn pending(&mut self) -> (r: Vec<u8>)
        requires
            old(self).inv(),
        ensures
            final(self).inv(),
            final(self).threshold() == old(self).threshold(),
            final(self).cap() == old(self).cap(),
            final(self).path_spec() == old(self).path_spec(),
            final(self).buffered() == old(self).buffered(),
            r@ == extract_model(old(self).buffered()),
            valid_utf8(r@),
    {
        self.writer.pending()
    }

    /// Acknowledges a successful flush: the buffer is cleared, so flushing
    /// again without intervening writes has nothing left to write.
    pub fn mark_flushed(&mut self)
        requires
            old(self).inv(),
        ensures
            final(self).inv(),
            final(self).threshold() == old(self).threshold(),
            final(self).cap() == old(self).cap(),
            final(self).path_spec() == old(self).path_spec(),
            final(self).buffered() == Seq::<u8>::empty(),
    {
        self.writer.mark_flushed()
    }
}

} // verus!
