use file_logger::{FileLogger, Level, LogEntry, LogOutcome};

fn entry(level: Level, message: &str) -> LogEntry {
    LogEntry { level, message: String::from(message), timestamp: b"TS".to_vec() }
}

#[test]
fn enabled_follows_the_severity_order() {
    let warn = FileLogger::new(String::from("app.log"), Level::Warn);
    assert!(warn.enabled(Level::Error));
    assert!(warn.enabled(Level::Warn));
    assert!(!warn.enabled(Level::Info));
    assert!(!warn.enabled(Level::Debug));
    assert!(!warn.enabled(Level::Trace));

    let trace = FileLogger::new(String::from("app.log"), Level::Trace);
    assert!(trace.enabled(Level::Error));
    assert!(trace.enabled(Level::Trace));

    let error = FileLogger::new(String::from("app.log"), Level::Error);
    assert!(error.enabled(Level::Error));
    assert!(!error.enabled(Level::Warn));
}

#[test]
fn warn_threshold_writes_exactly_error_and_warn() {
    let mut lg = FileLogger::with_capacity(String::from("app.log"), Level::Warn, 128);
    assert_eq!(lg.log(&entry(Level::Error, "e")), LogOutcome::Buffered);
    assert_eq!(lg.log(&entry(Level::Warn, "w")), LogOutcome::Buffered);
    assert_eq!(lg.log(&entry(Level::Info, "i")), LogOutcome::Skipped);
    let out = lg.pending();
    assert_eq!(out, b"[TS] e\n[TS] w\n".to_vec());
    let text = String::from_utf8(out).unwrap();
    assert_eq!(text.lines().count(), 2);
}

#[test]
fn trace_logger_buffers_hello_as_one_stamped_line() {
    let mut lg = FileLogger::new(String::from("app.log"), Level::Trace);
    assert_eq!(lg.path(), "app.log");
    let e = LogEntry::capture(Level::Trace, String::from("hello"));
    assert!(!e.timestamp.is_empty());
    assert!(e.timestamp.iter().all(|&b| (0x20..0x7f).contains(&b)));
    assert_eq!(lg.log(&e), LogOutcome::Buffered);
    let out = lg.pending();
    let line = String::from_utf8(out).unwrap();
    assert!(line.starts_with('['));
    assert!(line.ends_with("] hello\n"));
    assert_eq!(line.lines().count(), 1);
}

#[test]
fn needs_flush_round_trip() {
    let mut lg = FileLogger::with_capacity(String::from("app.log"), Level::Trace, 16);
    assert_eq!(lg.log(&entry(Level::Info, "aaaa")), LogOutcome::Buffered);
    assert_eq!(lg.log(&entry(Level::Info, "bbbb")), LogOutcome::NeedsFlush);
    assert_eq!(lg.pending(), b"[TS] aaaa\n".to_vec());
    lg.mark_flushed();
    lg.log_after_flush(&entry(Level::Info, "bbbb"));
    assert_eq!(lg.pending(), b"[TS] bbbb\n".to_vec());
}

#[test]
fn log_after_flush_still_filters() {
    let mut lg = FileLogger::with_capacity(String::from("app.log"), Level::Error, 64);
    lg.log_after_flush(&entry(Level::Debug, "dropped"));
    assert!(lg.is_empty());
    lg.log_after_flush(&entry(Level::Error, "kept"));
    assert_eq!(lg.pending(), b"[TS] kept\n".to_vec());
}

#[test]
fn flush_twice_writes_nothing_the_second_time() {
    let mut lg = FileLogger::new(String::from("app.log"), Level::Trace);
    lg.log(&entry(Level::Info, "once"));
    assert_eq!(lg.pending(), b"[TS] once\n".to_vec());
    lg.mark_flushed();
    assert!(lg.is_empty());
    assert_eq!(lg.pending(), Vec::<u8>::new());
}

#[test]
fn capture_timestamp_reaches_the_output_line() {
    // Would fail if the capture timestamp were dropped or replaced by the
    // formatting path: the stamped line must embed exactly those bytes.
    let e = LogEntry::capture(Level::Info, String::from("m"));
    let ts = e.timestamp.clone();
    let mut lg = FileLogger::new(String::from("app.log"), Level::Trace);
    lg.log(&e);
    let out = lg.pending();
    let mut expected = Vec::new();
    expected.push(b'[');
    expected.extend_from_slice(&ts);
    expected.extend_from_slice(b"] m\n");
    assert_eq!(out, expected);
}
