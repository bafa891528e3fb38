use file_logger::LogBuffer;

#[test]
fn new_buffer_is_empty() {
    let mut b = LogBuffer::new(8);
    assert_eq!(b.capacity(), 8);
    assert!(b.is_empty());
    assert_eq!(b.space_remaining(), 8);
    assert_eq!(b.extract(), Vec::<u8>::new());
}

#[test]
fn writes_within_capacity_extracted_whole() {
    let mut b = LogBuffer::new(16);
    b.write_str("hello");
    b.write_str("world");
    assert_eq!(b.extract(), b"helloworld".to_vec());
}

#[test]
fn extract_does_not_consume() {
    let mut b = LogBuffer::new(16);
    b.write_str("abc");
    let first = b.extract();
    let second = b.extract();
    assert_eq!(first, b"abc".to_vec());
    assert_eq!(second, b"abc".to_vec());
    assert!(!b.is_empty());
}

#[test]
fn exact_capacity_fill_is_kept_whole() {
    let mut b = LogBuffer::new(5);
    b.write_str("hello");
    assert_eq!(b.space_remaining(), 0);
    assert!(!b.is_empty());
    assert_eq!(b.extract(), b"hello".to_vec());
}

#[test]
fn wraparound_keeps_newest_bytes() {
    let mut b = LogBuffer::new(4);
    b.write_str("abcdef");
    let out = b.extract();
    assert_eq!(out, b"cdef".to_vec());
    assert!(String::from_utf8(out).is_ok());
}

#[test]
fn wraparound_drops_partial_code_point() {
    // Capacity 3 over the stream C3 A9 61 62 ("éab"): the surviving bytes
    // A9 61 62 open with a continuation byte, so extraction starts at 'a'.
    let mut b = LogBuffer::new(3);
    b.write_str("éab");
    let out = b.extract();
    assert_eq!(out, b"ab".to_vec());
    assert!(String::from_utf8(out).is_ok());
}

#[test]
fn wraparound_result_is_valid_utf8() {
    let mut b = LogBuffer::new(7);
    b.write_str("snowman ☃ and more ☃☃");
    let out = b.extract();
    let text = String::from_utf8(out).expect("extract must return valid UTF-8");
    assert!(!text.contains('\u{fffd}'));
}

#[test]
fn clear_resets_after_any_state() {
    let mut b = LogBuffer::new(4);
    b.write_str("abcdefgh");
    b.clear();
    assert!(b.is_empty());
    assert_eq!(b.extract(), Vec::<u8>::new());
    assert_eq!(b.space_remaining(), 4);
    b.clear();
    assert!(b.is_empty());
}

#[test]
fn space_remaining_counts_down() {
    let mut b = LogBuffer::new(8);
    b.write_str("abc");
    assert_eq!(b.space_remaining(), 5);
    b.write_str("de");
    assert_eq!(b.space_remaining(), 3);
}

#[test]
fn append_bytes_matches_write_str() {
    let mut a = LogBuffer::new(16);
    let mut b = LogBuffer::new(16);
    a.write_str("mixed ✓ text");
    b.append_bytes("mixed ✓ text".as_bytes());
    assert_eq!(a.extract(), b.extract());
}
