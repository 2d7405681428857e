//! Chunk files: their names, the placing of blocks, and reading them back.
use memmap_fs::blocks::{BlockStorage, CHUNK_SIZE_LIMIT};
use memmap_fs::chunk_name::{chunk_name, parse_chunk_name};
use memmap_fs::error::MemMapError;

fn names(list: &[&str]) -> Vec<String> {
    list.iter().map(|n| n.to_string()).collect()
}

#[test]
fn chunk_names_have_four_digits_or_more() {
    assert_eq!(chunk_name(0), "chunk_0000.bin");
    assert_eq!(chunk_name(7), "chunk_0007.bin");
    assert_eq!(chunk_name(1234), "chunk_1234.bin");
    assert_eq!(chunk_name(12345), "chunk_12345.bin");
    assert_eq!(chunk_name(u32::MAX), "chunk_4294967295.bin");
}

#[test]
fn chunk_names_are_parsed_back() {
    for id in [0, 1, 9, 10, 999, 1000, 9999, 10_000, 99_999, u32::MAX] {
        assert_eq!(parse_chunk_name(&chunk_name(id)), Some(id));
    }
}

#[test]
fn chunk_names_are_parsed_leniently() {
    assert_eq!(parse_chunk_name("chunk_3"), Some(3));
    assert_eq!(parse_chunk_name("chunk_3.bin.bin"), Some(3));
    assert_eq!(parse_chunk_name("chunk_+12.bin"), Some(12));
    assert_eq!(parse_chunk_name("chunk_000000000000001.bin"), Some(1));
    assert_eq!(parse_chunk_name("chunk_4294967295"), Some(4294967295));
}

#[test]
fn other_names_are_not_chunks() {
    for name in [
        "",
        "chunk_",
        "chunk_.bin",
        "chunk_+.bin",
        "chunk_-1.bin",
        "chunk_4294967296.bin",
        "chunk_99999999999999999999.bin",
        "chunk_1a.bin",
        "chunk_1.txt",
        "Chunk_1.bin",
        "my_chunk_1.bin",
        "chunk1.bin",
    ] {
        assert_eq!(parse_chunk_name(name), None, "{name}");
    }
}

#[test]
fn the_highest_chunk_is_active() {
    assert_eq!(BlockStorage::find_active_chunk(&names(&[])), 0);
    assert_eq!(BlockStorage::find_active_chunk(&names(&["notes.txt", "chunk_x.bin"])), 0);
    let list = names(&["chunk_0002.bin", "chunk_0010.bin", "chunk_0009.bin", "README"]);
    assert_eq!(BlockStorage::find_active_chunk(&list), 10);
}

#[test]
fn blocks_follow_each_other() {
    let mut storage = BlockStorage::open(0, None);
    let first = storage.append(b"hello");
    assert!(!first.rolled);
    assert_eq!((first.chunk_id, first.offset, first.length), (0, 0, 5));
    storage.written(&first);
    let second = storage.append(b"");
    assert_eq!((second.chunk_id, second.offset, second.length), (0, 5, 0));
    storage.written(&second);
    let third = storage.append(b"abc");
    assert_eq!((third.chunk_id, third.offset, third.length), (0, 5, 3));
}

#[test]
fn appending_goes_on_at_the_end_of_the_file() {
    let storage = BlockStorage::open(4, Some(100));
    let write = storage.append(b"x");
    assert_eq!((write.chunk_id, write.offset, write.length), (4, 100, 1));
}

#[test]
fn a_block_that_was_not_written_is_placed_again() {
    let mut storage = BlockStorage::open(1, Some(10));
    let lost = storage.append(b"lost");
    assert!(storage.awaits(&lost));
    let kept = storage.append(b"kept!");
    assert_eq!((kept.chunk_id, kept.offset), (1, 10));
    assert!(storage.reached(&kept));
    storage.written(&kept);
    assert!(!storage.awaits(&lost));
    assert!(!storage.reached(&lost));
}

#[test]
fn chunks_are_filled_up_to_the_limit() {
    assert_eq!(CHUNK_SIZE_LIMIT, 64 * 1024 * 1024);
    let mut storage = BlockStorage::open(0, Some(CHUNK_SIZE_LIMIT - 3));
    let fits = storage.append(b"abc");
    assert_eq!((fits.rolled, fits.chunk_id, fits.offset), (false, 0, CHUNK_SIZE_LIMIT - 3));
    storage.written(&fits);
    // An empty block still fits.
    let empty = storage.append(b"");
    assert_eq!((empty.rolled, empty.chunk_id, empty.offset), (false, 0, CHUNK_SIZE_LIMIT));
    storage.written(&empty);
    let next = storage.append(b"d");
    assert_eq!((next.rolled, next.chunk_id, next.offset), (true, 1, 0));
    storage.roll_chunk(&next);
    storage.written(&next);
    let after = storage.append(b"e");
    assert_eq!((after.rolled, after.chunk_id, after.offset), (false, 1, 1));
}

#[test]
fn a_block_beyond_the_limit_gets_a_chunk_of_its_own() {
    let mut storage = BlockStorage::open(0, None);
    let large = vec![0u8; CHUNK_SIZE_LIMIT as usize + 1];
    let write = storage.append(&large);
    assert_eq!((write.rolled, write.chunk_id, write.offset), (true, 1, 0));
    assert_eq!(write.length, CHUNK_SIZE_LIMIT + 1);
    storage.roll_chunk(&write);
    storage.written(&write);
    let next = storage.append(b"x");
    assert_eq!((next.rolled, next.chunk_id, next.offset), (true, 2, 0));
}

#[test]
fn a_roll_that_failed_is_announced_again() {
    let storage = BlockStorage::open(2, Some(CHUNK_SIZE_LIMIT - 1));
    let failed = storage.append(b"ab");
    assert_eq!((failed.rolled, failed.chunk_id, failed.offset), (true, 3, 0));
    // The last file could not be flushed, or the next one not opened.
    assert!(!storage.reached(&failed));
    let again = storage.append(b"cde");
    assert_eq!((again.rolled, again.chunk_id, again.offset), (true, 3, 0));
    assert!(storage.awaits(&again));
    // A block that fits still goes to the last chunk.
    let small = storage.append(b"f");
    assert_eq!((small.rolled, small.chunk_id, small.offset), (false, 2, CHUNK_SIZE_LIMIT - 1));
}

#[test]
fn a_write_that_failed_after_a_roll_leaves_the_new_chunk_active() {
    let mut storage = BlockStorage::open(2, Some(CHUNK_SIZE_LIMIT - 1));
    let failed = storage.append(b"ab");
    storage.roll_chunk(&failed);
    assert!(storage.reached(&failed));
    assert!(!storage.awaits(&failed));
    let next = storage.append(b"f");
    assert_eq!((next.rolled, next.chunk_id, next.offset), (false, 3, 0));
}

#[test]
fn blocks_out_of_range_cannot_be_placed() {
    assert!(BlockStorage::open(0, None).can_append(u64::MAX));
    assert!(!BlockStorage::open(0, Some(1)).can_append(u64::MAX));
    assert!(!BlockStorage::open(u32::MAX, Some(CHUNK_SIZE_LIMIT)).can_append(1));
    assert!(BlockStorage::open(u32::MAX, Some(CHUNK_SIZE_LIMIT)).can_append(0));
}

#[test]
fn blocks_read_back_as_written() {
    let mut storage = BlockStorage::open(0, None);
    let mut chunk: Vec<u8> = Vec::new();
    let mut writes = Vec::new();
    let blocks: Vec<&[u8]> = vec![b"one", b"", b"three", b"\x00\xff"];
    for block in &blocks {
        let write = storage.append(block);
        chunk.extend_from_slice(block);
        storage.written(&write);
        writes.push(write);
    }
    for (block, w) in blocks.iter().zip(writes) {
        let bytes = BlockStorage::read(w.chunk_id, w.offset, w.length, Some(&chunk)).expect("read");
        assert_eq!(&bytes, block);
    }
}

#[test]
fn missing_blocks_are_reported() {
    assert!(matches!(
        BlockStorage::read(3, 7, 0, None),
        Err(MemMapError::BlockNotFound { chunk_id: 3, offset: 7 })
    ));
    assert!(matches!(
        BlockStorage::read(3, 2, 2, Some(b"abc")),
        Err(MemMapError::BlockNotFound { chunk_id: 3, offset: 2 })
    ));
    assert_eq!(BlockStorage::read(3, 2, 1, Some(b"abc")).expect("read"), b"c");
    assert_eq!(BlockStorage::read(3, 3, 0, Some(b"abc")).expect("read"), b"");
}
