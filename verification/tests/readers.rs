use json::input_reader::BufferedReader;
use json::input_reader::Error;
use json::input_reader::MemoryReader;
use json::input_reader::ReadInput;

const SOURCE: &[u8] = b"json";

#[test]
fn buffered_reader_test_peek_empty() -> Result<(), Error> {
    let buf_reader = BufferedReader::new(Vec::new())?;

    assert_eq!(buf_reader.peek(0), None);

    Ok(())
}

#[test]
fn buffered_reader_test_peek() -> Result<(), Error> {
    let buf_reader = BufferedReader::new(SOURCE.to_vec())?;

    assert_eq!(buf_reader.peek(0), Some('j'));
    assert_eq!(buf_reader.peek(0), Some('j'));
    assert_eq!(buf_reader.peek(1), Some('s'));
    assert_eq!(buf_reader.peek(2), Some('o'));
    assert_eq!(buf_reader.peek(3), Some('n'));
    assert_eq!(buf_reader.peek(4), None);

    Ok(())
}

#[test]
fn buffered_reader_test_consume_empty() -> Result<(), Error> {
    let mut buf_reader = BufferedReader::new(Vec::new())?;

    assert_eq!(buf_reader.peek(0), None);
    buf_reader.consume(1)?;
    assert_eq!(buf_reader.peek(0), None);

    Ok(())
}

#[test]
fn buffered_reader_test_consume() -> Result<(), Error> {
    let mut buf_reader = BufferedReader::new(SOURCE.to_vec())?;

    assert_eq!(buf_reader.peek(0), Some('j'));
    assert_eq!(buf_reader.peek(1), Some('s'));
    buf_reader.consume(1)?;
    assert_eq!(buf_reader.peek(0), Some('s'));
    buf_reader.consume(0)?;
    assert_eq!(buf_reader.peek(1), Some('o'));
    buf_reader.consume(1)?;
    assert_eq!(buf_reader.peek(1), Some('n'));
    buf_reader.consume(1)?;
    assert_eq!(buf_reader.peek(0), Some('n'));
    assert_eq!(buf_reader.peek(1), None);
    buf_reader.consume(1)?;
    assert_eq!(buf_reader.peek(0), None);

    Ok(())
}

#[test]
fn buffered_reader_test_next() -> Result<(), Error> {
    let mut buf_reader = BufferedReader::new(SOURCE.to_vec())?;

    assert_eq!(buf_reader.next(), Some('j'));
    assert_eq!(buf_reader.next(), Some('s'));
    assert_eq!(buf_reader.next(), Some('o'));
    assert_eq!(buf_reader.next(), Some('n'));
    assert_eq!(buf_reader.next(), None);

    Ok(())
}

#[test]
fn memory_reader_test_peek_empty() -> Result<(), Error> {
    let mem_reader = MemoryReader::new(Vec::new())?;

    assert_eq!(mem_reader.peek(0), None);

    Ok(())
}

#[test]
fn memory_reader_test_peek() -> Result<(), Error> {
    let mem_reader = MemoryReader::new(SOURCE.to_vec())?;

    assert_eq!(mem_reader.peek(0), Some('j'));
    assert_eq!(mem_reader.peek(0), Some('j'));
    assert_eq!(mem_reader.peek(1), Some('s'));
    assert_eq!(mem_reader.peek(2), Some('o'));
    assert_eq!(mem_reader.peek(3), Some('n'));
    assert_eq!(mem_reader.peek(4), None);

    Ok(())
}

#[test]
fn memory_reader_test_consume_empty() -> Result<(), Error> {
    let mut mem_reader = MemoryReader::new(Vec::new())?;

    assert_eq!(mem_reader.peek(0), None);
    mem_reader.consume(1)?;
    assert_eq!(mem_reader.peek(0), None);

    Ok(())
}

#[test]
fn memory_reader_test_consume() -> Result<(), Error> {
    let mut mem_reader = MemoryReader::new(SOURCE.to_vec())?;

    assert_eq!(mem_reader.peek(0), Some('j'));
    assert_eq!(mem_reader.peek(1), Some('s'));
    mem_reader.consume(1)?;
    assert_eq!(mem_reader.peek(0), Some('s'));
    mem_reader.consume(0)?;
    assert_eq!(mem_reader.peek(1), Some('o'));
    mem_reader.consume(1)?;
    assert_eq!(mem_reader.peek(1), Some('n'));
    mem_reader.consume(1)?;
    assert_eq!(mem_reader.peek(0), Some('n'));
    assert_eq!(mem_reader.peek(1), None);
    mem_reader.consume(1)?;
    assert_eq!(mem_reader.peek(0), None);

    Ok(())
}

#[test]
fn memory_reader_test_next() -> Result<(), Error> {
    let mut mem_reader = MemoryReader::new(SOURCE.to_vec())?;

    assert_eq!(mem_reader.next(), Some('j'));
    assert_eq!(mem_reader.next(), Some('s'));
    assert_eq!(mem_reader.next(), Some('o'));
    assert_eq!(mem_reader.next(), Some('n'));
    assert_eq!(mem_reader.next(), None);

    Ok(())
}

#[test]
fn test_empty_readers_are_eq() -> Result<(), Error> {
    let buf_reader = BufferedReader::new(Vec::new())?;
    let mem_reader = MemoryReader::new(Vec::new())?;

    let mut b = buf_reader.input_reader();
    let mut m = mem_reader.input_reader();
    assert!(b.collect_chars() == m.collect_chars());

    Ok(())
}

#[test]
fn test_readers_are_eq() -> Result<(), Error> {
    let buf_reader = BufferedReader::new(SOURCE.to_vec())?;
    let mem_reader = MemoryReader::new(SOURCE.to_vec())?;

    let mut b = buf_reader.input_reader();
    let mut m = mem_reader.input_reader();
    assert!(b.collect_chars() == m.collect_chars());

    Ok(())
}

#[test]
fn test_readers_have_reached_eof() -> Result<(), Error> {
    let mut buf_reader = BufferedReader::new(SOURCE.to_vec())?;
    let mut mem_reader = MemoryReader::new(SOURCE.to_vec())?;

    buf_reader.consume(1)?;
    buf_reader.consume(2)?;
    buf_reader.consume(0)?;
    buf_reader.consume(1)?;

    mem_reader.consume(1)?;
    mem_reader.consume(2)?;
    mem_reader.consume(0)?;
    mem_reader.consume(1)?;

    assert!(buf_reader.has_reached_eof());
    assert!(mem_reader.has_reached_eof());

    Ok(())
}
