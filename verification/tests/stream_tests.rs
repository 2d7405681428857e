//! Reading streams block by block.
use memmap_fs::engine::StreamSegment;
use memmap_fs::error::MemMapError;
use memmap_fs::stream::StreamReader;

fn segment(chunk_id: u32, offset: u64, length: u64) -> StreamSegment {
    StreamSegment { chunk_id, offset, length }
}

#[test]
fn an_empty_stream_is_at_its_end() {
    let mut reader = StreamReader::open(vec![]);
    assert_eq!(reader.next_chunk(), None);
    assert!(reader.addressable(5));
    assert!(reader.read(5, None).expect("read").is_empty());
}

#[test]
fn empty_blocks_are_passed_over() {
    let mut reader =
        StreamReader::open(vec![segment(1, 0, 0), segment(2, 1, 2), segment(3, 0, 0)]);
    assert_eq!(reader.next_chunk(), Some(2));
    assert_eq!(reader.read(9, Some(b"abcd")).expect("read"), b"bc");
    assert_eq!(reader.next_chunk(), None);
    assert!(reader.read(9, None).expect("read").is_empty());
}

#[test]
fn a_read_stays_within_its_block() {
    let mut reader = StreamReader::open(vec![segment(0, 2, 3), segment(0, 6, 2)]);
    let chunk: &[u8] = b"0123456789";
    assert_eq!(reader.read(2, Some(chunk)).expect("read"), b"23");
    assert_eq!(reader.read(2, Some(chunk)).expect("read"), b"4");
    assert_eq!(reader.read(5, Some(chunk)).expect("read"), b"67");
    assert_eq!(reader.read(5, Some(chunk)).expect("read"), b"");
}

#[test]
fn a_read_without_room_takes_nothing() {
    let mut reader = StreamReader::open(vec![segment(0, 1, 1)]);
    assert_eq!(reader.read(0, Some(b"ab")).expect("read"), b"");
    assert_eq!(reader.read(1, Some(b"ab")).expect("read"), b"b");
}

#[test]
fn a_read_that_fails_can_be_repeated() {
    let mut reader = StreamReader::open(vec![segment(4, 2, 4)]);
    let chunk: &[u8] = b"012345";
    assert_eq!(reader.read(1, Some(chunk)).expect("read"), b"2");
    assert!(matches!(
        reader.read(3, Some(&chunk[..5])),
        Err(MemMapError::BlockNotFound { chunk_id: 4, offset: 3 })
    ));
    assert!(matches!(
        reader.read(3, None),
        Err(MemMapError::BlockNotFound { chunk_id: 4, offset: 3 })
    ));
    assert_eq!(reader.read(3, Some(chunk)).expect("read"), b"345");
}

#[test]
fn blocks_beyond_the_address_space_are_noticed() {
    let mut reader = StreamReader::open(vec![segment(0, u64::MAX, 2)]);
    assert_eq!(reader.next_chunk(), Some(0));
    assert!(!reader.addressable(1));
    assert!(reader.addressable(0));
}
