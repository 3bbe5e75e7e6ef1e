use json::input_reader::BufferedReader;
use json::input_reader::BufferErrorKind;
use json::input_reader::Error;
use json::input_reader::MemoryReader;
use json::input_reader::ReadInput;
use json::input_reader::Repr;

// Mixes 1-, 2-, 3- and 4-byte UTF-8 encodings.
const MIXED: &str = "a\u{e9}\u{65e5}\u{1f642}z";

#[test]
fn test_equivalence_every_capacity() -> Result<(), Error> {
    let bytes = MIXED.as_bytes();
    let mut mem_chars: Vec<char> = Vec::new();
    let mut mem = MemoryReader::new(bytes.to_vec())?;
    while let Some(c) = mem.next() {
        mem_chars.push(c);
    }
    assert_eq!(mem_chars, MIXED.chars().collect::<Vec<char>>());

    let mut capacity: usize = 1;
    while capacity <= 6 {
        let mut buf = BufferedReader::with_capacity(capacity, bytes.to_vec())?;
        let mut buf_chars: Vec<char> = Vec::new();
        while let Some(c) = buf.next() {
            buf_chars.push(c);
        }
        assert_eq!(buf_chars, mem_chars);
        capacity += 1;
    }

    Ok(())
}

#[test]
fn test_invalid_utf8_is_reported_with_offset() {
    // A lone continuation byte after two good bytes.
    let bytes = vec![0x61u8, 0x62u8, 0x80u8];
    match MemoryReader::new(bytes.clone()) {
        Ok(_) => panic!("invalid input accepted"),
        Err(e) => assert_eq!(e.repr, Repr::Utf8(2)),
    }
    match BufferedReader::new(bytes) {
        Ok(_) => panic!("invalid input accepted"),
        Err(e) => assert_eq!(e.repr, Repr::Utf8(2)),
    }
    // A truncated three-byte encoding.
    match MemoryReader::new(vec![0xe6u8, 0x97u8]) {
        Ok(_) => panic!("truncated input accepted"),
        Err(e) => assert_eq!(e.repr, Repr::Utf8(0)),
    }
}

#[test]
fn test_eof_is_stable() -> Result<(), Error> {
    let mut mem = MemoryReader::new(b"ab".to_vec())?;
    mem.consume(5)?;
    assert!(mem.has_reached_eof());
    mem.consume(3)?;
    mem.consume(0)?;
    assert!(mem.has_reached_eof());
    assert_eq!(mem.peek(0), None);
    assert_eq!(mem.peek(7), None);

    let mut buf = BufferedReader::new(b"ab".to_vec())?;
    buf.consume(5)?;
    assert!(buf.has_reached_eof());
    buf.consume(3)?;
    buf.consume(0)?;
    assert!(buf.has_reached_eof());
    assert_eq!(buf.peek(0), None);
    assert_eq!(buf.peek(7), None);

    Ok(())
}

#[test]
fn test_overconsuming_the_window_is_refused() -> Result<(), Error> {
    let mut buf = BufferedReader::new(b"0123456789abcdefghij".to_vec())?;
    match buf.consume(17) {
        Ok(()) => panic!("overconsumption accepted"),
        Err(e) => assert_eq!(e.repr, Repr::Buffer(BufferErrorKind::Overconsumed(17))),
    }
    // The reader is untouched and a full-window consume still works.
    assert_eq!(buf.peek(0), Some('0'));
    buf.consume(16)?;
    assert_eq!(buf.peek(0), Some('g'));

    Ok(())
}

#[test]
fn test_window_peek_is_bounded_by_capacity() -> Result<(), Error> {
    let buf = BufferedReader::with_capacity(2, b"abcd".to_vec())?;
    assert_eq!(buf.peek(0), Some('a'));
    assert_eq!(buf.peek(1), Some('b'));
    assert_eq!(buf.peek(2), None);

    let mem = MemoryReader::new(b"abcd".to_vec())?;
    assert_eq!(mem.peek(2), Some('c'));
    assert_eq!(mem.peek(3), Some('d'));

    Ok(())
}
