use file_logger::file_writer::format_entry;
use file_logger::{FileWriter, Level, LogEntry, WriteOutcome};

fn entry(level: Level, message: &str) -> LogEntry {
    LogEntry { level, message: String::from(message), timestamp: b"TS".to_vec() }
}

#[test]
fn format_single_line() {
    let e = entry(Level::Info, "hello");
    assert_eq!(format_entry(&e), b"[TS] hello\n".to_vec());
}

#[test]
fn format_multi_line_stamps_each_line() {
    let e = entry(Level::Info, "one\ntwo");
    assert_eq!(format_entry(&e), b"[TS] one\n[TS] two\n".to_vec());
}

#[test]
fn format_trailing_newline_adds_no_empty_line() {
    let e = entry(Level::Info, "one\n");
    assert_eq!(format_entry(&e), b"[TS] one\n".to_vec());
}

#[test]
fn format_interior_blank_line_is_kept() {
    let e = entry(Level::Info, "a\n\nb");
    assert_eq!(format_entry(&e), b"[TS] a\n[TS] \n[TS] b\n".to_vec());
}

#[test]
fn format_empty_message_renders_nothing() {
    let e = entry(Level::Info, "");
    assert_eq!(format_entry(&e), Vec::<u8>::new());
}

#[test]
fn writer_buffers_record_that_fits() {
    let mut w = FileWriter::new(String::from("app.log"), 32);
    assert_eq!(w.path(), "app.log");
    let r = w.write(&entry(Level::Info, "aaaa"));
    assert_eq!(r, WriteOutcome::Buffered);
    assert!(!w.is_empty());
    assert_eq!(w.pending(), b"[TS] aaaa\n".to_vec());
}

#[test]
fn oversized_record_forces_one_flush_then_stands_alone() {
    // "[TS] aaaa\n" is 10 bytes, so the second record does not fit in a
    // 16-byte buffer: the writer asks for a flush, hands out exactly the
    // prior contents, and afterwards the buffer holds only the new record.
    let mut w = FileWriter::new(String::from("app.log"), 16);
    assert_eq!(w.write(&entry(Level::Info, "aaaa")), WriteOutcome::Buffered);
    assert_eq!(w.write(&entry(Level::Info, "bbbb")), WriteOutcome::NeedsFlush);
    let flushed = w.pending();
    assert_eq!(flushed, b"[TS] aaaa\n".to_vec());
    w.mark_flushed();
    assert_eq!(w.write(&entry(Level::Info, "bbbb")), WriteOutcome::Buffered);
    assert_eq!(w.pending(), b"[TS] bbbb\n".to_vec());
}

#[test]
fn pending_does_not_consume() {
    let mut w = FileWriter::new(String::from("app.log"), 64);
    w.write(&entry(Level::Info, "x"));
    let first = w.pending();
    let second = w.pending();
    assert_eq!(first, second);
}

#[test]
fn flush_is_idempotent() {
    let mut w = FileWriter::new(String::from("app.log"), 64);
    w.write(&entry(Level::Info, "x"));
    let first = w.pending();
    assert_eq!(first, b"[TS] x\n".to_vec());
    w.mark_flushed();
    assert_eq!(w.pending(), Vec::<u8>::new());
    w.mark_flushed();
    assert_eq!(w.pending(), Vec::<u8>::new());
}

#[test]
fn record_longer_than_capacity_keeps_newest_bytes() {
    let mut w = FileWriter::new(String::from("app.log"), 8);
    assert_eq!(w.write(&entry(Level::Info, "0123456789")), WriteOutcome::NeedsFlush);
    assert_eq!(w.pending(), Vec::<u8>::new());
    w.mark_flushed();
    w.append_entry(&entry(Level::Info, "0123456789"));
    // "[TS] 0123456789\n" wraps in an 8-byte buffer: the last 8 bytes stay.
    assert_eq!(w.pending(), b"3456789\n".to_vec());
}
