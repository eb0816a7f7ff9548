use shada_marks::error::DecodeError;
use shada_marks::source::{read_byte, read_fully, read_vec, ByteSource};

#[test]
fn new_source_holds_all_bytes() {
    let source = ByteSource::new(vec![1, 2, 3]);
    assert_eq!(source.remaining(), 3);
    let empty = ByteSource::new(Vec::new());
    assert_eq!(empty.remaining(), 0);
}

#[test]
fn read_fully_fills_the_buffer_in_order() {
    let mut source = ByteSource::new(vec![10, 20, 30, 40, 50]);
    let mut buf = [0u8; 2];
    assert_eq!(read_fully(&mut source, &mut buf), Ok(()));
    assert_eq!(buf, [10, 20]);
    assert_eq!(source.remaining(), 3);
    let mut rest = [0u8; 3];
    assert_eq!(read_fully(&mut source, &mut rest), Ok(()));
    assert_eq!(rest, [30, 40, 50]);
    assert_eq!(source.remaining(), 0);
}

#[test]
fn read_fully_of_nothing_succeeds() {
    let mut source = ByteSource::new(Vec::new());
    let mut buf = [0u8; 0];
    assert_eq!(read_fully(&mut source, &mut buf), Ok(()));
    let mut source = ByteSource::new(vec![7]);
    assert_eq!(read_fully(&mut source, &mut buf), Ok(()));
    assert_eq!(source.remaining(), 1);
}

#[test]
fn read_fully_fails_when_too_few_bytes_are_left() {
    let mut source = ByteSource::new(vec![10, 20]);
    let mut buf = [9u8; 4];
    assert_eq!(read_fully(&mut source, &mut buf), Err(DecodeError::Truncated));
    assert_eq!(buf, [10, 20, 9, 9]);
    assert_eq!(source.remaining(), 0);
}

#[test]
fn read_byte_reads_one_byte_at_a_time() {
    let mut source = ByteSource::new(vec![0xAB, 0xCD]);
    assert_eq!(read_byte(&mut source), Ok(0xAB));
    assert_eq!(read_byte(&mut source), Ok(0xCD));
    assert_eq!(read_byte(&mut source), Err(DecodeError::Truncated));
}

#[test]
fn read_vec_returns_exactly_the_bytes_asked_for() {
    let mut source = ByteSource::new(vec![1, 2, 3, 4]);
    assert_eq!(read_vec(&mut source, 3), Ok(vec![1, 2, 3]));
    assert_eq!(source.remaining(), 1);
    assert_eq!(read_vec(&mut source, 0), Ok(Vec::new()));
    assert_eq!(read_vec(&mut source, 2), Err(DecodeError::Truncated));
    assert_eq!(source.remaining(), 0);
}

#[test]
fn read_vec_does_not_allocate_for_a_length_that_is_not_there() {
    let mut source = ByteSource::new(vec![1, 2, 3]);
    assert_eq!(read_vec(&mut source, usize::MAX), Err(DecodeError::Truncated));
    assert_eq!(source.remaining(), 0);
}

#[test]
fn skip_passes_over_bytes() {
    let mut source = ByteSource::new(vec![1, 2, 3, 4, 5]);
    assert_eq!(source.skip(2), Ok(()));
    assert_eq!(read_byte(&mut source), Ok(3));
    assert_eq!(source.skip(0), Ok(()));
    assert_eq!(source.skip(2), Ok(()));
    assert_eq!(source.remaining(), 0);
    assert_eq!(source.skip(0), Ok(()));
}

#[test]
fn skip_fails_when_too_few_bytes_are_left() {
    let mut source = ByteSource::new(vec![1, 2, 3]);
    assert_eq!(source.skip(4), Err(DecodeError::Truncated));
    assert_eq!(source.remaining(), 0);
}

#[test]
fn drain_leaves_nothing() {
    let mut source = ByteSource::new(vec![1, 2, 3]);
    source.drain();
    assert_eq!(source.remaining(), 0);
    assert_eq!(read_byte(&mut source), Err(DecodeError::Truncated));
}
