//! Where blocks are placed in the chunk files, and how they are read back.
use vstd::prelude::*;
use vstd::slice::{slice_subrange, slice_to_vec};

use crate::chunk_name::{chunk_id_of, chunk_name_of, chunk_name_round_trip, parse_chunk_name};
use crate::error::MemMapError;

verus! {

/// How many bytes a chunk file may hold before the next one is started.
pub const CHUNK_SIZE_LIMIT: u64 = 67_108_864;

/// Where a block goes: the chunk file, the offset in it and the length.
#[derive(Debug, Clone, Copy)]
pub struct BlockWrite {
    /// The chunk file is a new one, to be opened before the block is written.
    pub rolled: bool,
    pub chunk_id: u32,
    pub offset: u64,
    pub length: u64,
}

/// The place at which the next block is appended.
pub struct Cursor {
    pub chunk_id: u32,
    pub offset: u64,
}

/// The bookkeeping of the chunk files: which one accepts appends, and where
/// its end is.
pub struct BlockStorage {
    active_chunk_id: u32,
    active_offset: u64,
}

impl View for BlockStorage {
    type V = Cursor;

    closed spec fn view(&self) -> Cursor {
        Cursor { chunk_id: self.active_chunk_id, offset: self.active_offset }
    }
}

/// Where a block of `length` bytes goes: at the cursor, or at the start of the
/// next chunk where it would reach beyond the size limit.
pub open spec fn placement(cursor: Cursor, length: u64) -> BlockWrite {
    if cursor.offset + length > CHUNK_SIZE_LIMIT {
        BlockWrite { rolled: true, chunk_id: (cursor.chunk_id + 1) as u32, offset: 0, length }
    } else {
        BlockWrite { rolled: false, chunk_id: cursor.chunk_id, offset: cursor.offset, length }
    }
}

/// A block of `length` bytes can be placed: the offsets and the chunk number
/// it needs are within the range of their types.
pub open spec fn placeable(cursor: Cursor, length: u64) -> bool {
    &&& cursor.offset + length <= u64::MAX
    &&& cursor.offset + length > CHUNK_SIZE_LIMIT ==> cursor.chunk_id < u32::MAX
}

/// The cursor once the chunk file of `write` is the active one.
pub open spec fn cursor_at(write: BlockWrite) -> Cursor {
    Cursor { chunk_id: write.chunk_id, offset: write.offset }
}

/// The cursor once the block of `write` has been written.
pub open spec fn cursor_behind(write: BlockWrite) -> Cursor {
    Cursor { chunk_id: write.chunk_id, offset: (write.offset + write.length) as u64 }
}

impl BlockStorage {
    /// The chunk that accepts appends in a directory with the files `names`:
    /// the one with the highest number, or chunk zero where there is none.
    pub fn find_active_chunk(names: &Vec<String>) -> (id: u32)
        ensures
            forall|i: int|
                0 <= i < names@.len() ==> (#[trigger] chunk_id_of(names@[i]@) matches Some(n)
                    ==> n <= id),
            id == 0 || exists|i: int|
                0 <= i < names@.len() && #[trigger] chunk_id_of(names@[i]@) == Some(id),
    {
        let mut id: u32 = 0;
        let mut i: usize = 0;
        while i < names.len()
            invariant
                i <= names@.len(),
                forall|j: int|
                    0 <= j < i ==> (#[trigger] chunk_id_of(names@[j]@) matches Some(n) ==> n
                        <= id),
                id == 0 || exists|j: int|
                    0 <= j < i && #[trigger] chunk_id_of(names@[j]@) == Some(id),
            decreases names@.len() - i,
        {
            if let Some(n) = parse_chunk_name(names[i].as_str()) {
                if n > id {
                    id = n;
                }
            }
            i = i + 1;
        }
        id
    }

    /// Takes up appending to chunk `active_chunk_id`, whose file is
    /// `file_length` bytes long, or does not exist yet.
    pub fn open(active_chunk_id: u32, file_length: Option<u64>) -> (storage: Self)
        ensures
            storage@ == (Cursor {
                chunk_id: active_chunk_id,
                offset: (match file_length {
                    Some(length) => length,
                    None => 0,
                }),
            }),
    {
        let active_offset: u64 = match file_length {
            Some(length) => length,
            None => 0,
        };
        BlockStorage { active_chunk_id, active_offset }
    }

    /// Whether a block of `length` bytes can be placed at all.
    pub fn can_append(&self, length: u64) -> (b: bool)
        ensures
            b == placeable(self@, length),
            b <==> self@.offset + length <= u64::MAX && (self@.offset + length <= 67_108_864
                || self@.chunk_id < u32::MAX),
    {
        length <= u64::MAX - self.active_offset && (self.active_offset + length
            <= CHUNK_SIZE_LIMIT || self.active_chunk_id < u32::MAX)
    }

    /// Places a block with the bytes `data`, in a new chunk where the size limit
    /// would be exceeded. Nothing moves yet: the caller opens the new chunk file
    /// where there is one and calls [`Self::roll_chunk`], writes the bytes, and
    /// then calls [`Self::written`]. Where one of these steps fails, the next
    /// block is placed from where the last step that succeeded has led.
    pub fn append(&self, data: &[u8]) -> (write: BlockWrite)
        requires
            placeable(self@, data@.len() as u64),
        ensures
            write == placement(self@, data@.len() as u64),
            write.length == data@.len(),
            self@.offset + data@.len() <= 67_108_864 ==> !write.rolled && write.chunk_id
                == self@.chunk_id && write.offset == self@.offset,
            self@.offset + data@.len() > 67_108_864 ==> write.rolled && write.chunk_id
                == self@.chunk_id + 1 && write.offset == 0,
    {
        let length: u64 = data.len() as u64;
        if self.active_offset + length > CHUNK_SIZE_LIMIT {
            BlockWrite { rolled: true, chunk_id: self.active_chunk_id + 1, offset: 0, length }
        } else {
            BlockWrite {
                rolled: false,
                chunk_id: self.active_chunk_id,
                offset: self.active_offset,
                length,
            }
        }
    }

    /// Whether `write` is where a block of its length would be placed now.
    pub fn awaits(&self, write: &BlockWrite) -> (b: bool)
        ensures
            b == (placeable(self@, write.length) && *write == placement(self@, write.length)),
    {
        if !self.can_append(write.length) {
            false
        } else if self.active_offset + write.length > CHUNK_SIZE_LIMIT {
            write.rolled && write.chunk_id == self.active_chunk_id + 1 && write.offset == 0
        } else {
            !write.rolled && write.chunk_id == self.active_chunk_id && write.offset
                == self.active_offset
        }
    }

    /// Moves on to the start of the next chunk, that of `write`, once the last
    /// one is flushed and the file of the next one is open.
    pub fn roll_chunk(&mut self, write: &BlockWrite)
        requires
            write.rolled,
            placeable(old(self)@, write.length),
            *write == placement(old(self)@, write.length),
        ensures
            final(self)@ == cursor_at(*write),
            final(self)@.chunk_id == write.chunk_id,
            final(self)@.offset == write.offset,
    {
        self.active_chunk_id = self.active_chunk_id + 1;
        self.active_offset = 0;
    }

    /// Whether the bytes of `write` go to where the cursor is.
    pub fn reached(&self, write: &BlockWrite) -> (b: bool)
        ensures
            b == (self@ == cursor_at(*write) && write.offset + write.length <= u64::MAX),
    {
        self.active_chunk_id == write.chunk_id && self.active_offset == write.offset
            && write.length <= u64::MAX - write.offset
    }

    /// Records that the block of `write` has been written.
    pub fn written(&mut self, write: &BlockWrite)
        requires
            old(self)@ == cursor_at(*write),
            write.offset + write.length <= u64::MAX,
        ensures
            final(self)@ == cursor_behind(*write),
            final(self)@.chunk_id == write.chunk_id,
            final(self)@.offset == write.offset + write.length,
    {
        self.active_offset = write.offset + write.length;
    }

    /// Whether `length` bytes at `offset` can be addressed in memory.
    pub fn addressable(offset: u64, length: u64) -> (b: bool)
        ensures
            b == (offset + length <= usize::MAX),
    {
        length <= usize::MAX as u64 && offset <= usize::MAX as u64 - length
    }

    /// Reads `length` bytes at `offset` of chunk `chunk_id`, whose contents are
    /// `chunk`, or whose file does not exist.
    pub fn read(chunk_id: u32, offset: u64, length: u64, chunk: Option<&[u8]>) -> (r: Result<
        Vec<u8>,
        MemMapError,
    >)
        requires
            chunk is Some ==> offset + length <= usize::MAX,
        ensures
            match r {
                Ok(bytes) => chunk matches Some(c) && offset + length <= c@.len() && bytes@
                    == c@.subrange(offset as int, offset + length),
                Err(e) => {
                    &&& (chunk matches Some(c) ==> offset + length > c@.len())
                    &&& e == (MemMapError::BlockNotFound { chunk_id, offset })
                },
            },
    {
        match chunk {
            None => Err(MemMapError::BlockNotFound { chunk_id, offset }),
            Some(c) => {
                let size: usize = c.len();
                let start: usize = offset as usize;
                let end: usize = start + length as usize;
                if end > size {
                    return Err(MemMapError::BlockNotFound { chunk_id, offset });
                }
                let bytes = slice_to_vec(slice_subrange(c, start, end));
                Ok(bytes)
            },
        }
    }
}

// ---- The chunk files as a whole -------------------------------------------

/// The bytes of chunk `id`; none where its file does not exist.
pub open spec fn chunk_bytes(disk: Map<u32, Seq<u8>>, id: u32) -> Seq<u8> {
    if disk.contains_key(id) {
        disk[id]
    } else {
        Seq::empty()
    }
}

/// Every chunk file is of a length that a file can have.
pub open spec fn files_in_range(disk: Map<u32, Seq<u8>>) -> bool {
    forall|id: u32| #[trigger] disk.contains_key(id) ==> disk[id].len() <= u64::MAX
}

/// The block at a place in the chunk files, where they reach that far.
pub open spec fn block_at(
    disk: Map<u32, Seq<u8>>,
    chunk_id: u32,
    offset: u64,
    length: u64,
) -> Option<Seq<u8>> {
    if disk.contains_key(chunk_id) && offset + length <= disk[chunk_id].len() {
        Some(disk[chunk_id].subrange(offset as int, offset + length))
    } else {
        None
    }
}

/// The chunk files once `data` has been appended to the chunk of `write`.
pub open spec fn after_write(
    disk: Map<u32, Seq<u8>>,
    write: BlockWrite,
    data: Seq<u8>,
) -> Map<u32, Seq<u8>> {
    disk.insert(write.chunk_id, chunk_bytes(disk, write.chunk_id) + data)
}

/// The cursor stands at the end of the last chunk file.
pub open spec fn at_end(cursor: Cursor, disk: Map<u32, Seq<u8>>) -> bool {
    &&& forall|id: u32| #[trigger] disk.contains_key(id) ==> id <= cursor.chunk_id
    &&& chunk_bytes(disk, cursor.chunk_id).len() == cursor.offset
}

/// A block that was placed and written reads back as it was written, and the
/// cursor is again at the end of the last chunk file.
pub proof fn written_block_reads_back(cursor: Cursor, disk: Map<u32, Seq<u8>>, data: Seq<u8>)
    requires
        data.len() <= u64::MAX,
        placeable(cursor, data.len() as u64),
        at_end(cursor, disk),
    ensures
        ({
            let write = placement(cursor, data.len() as u64);
            let disk2 = after_write(disk, write, data);
            &&& block_at(disk2, write.chunk_id, write.offset, write.length) == Some(data)
            &&& at_end(cursor_behind(write), disk2)
        }),
{
    let write = placement(cursor, data.len() as u64);
    let disk2 = after_write(disk, write, data);
    assert(chunk_bytes(disk, write.chunk_id).len() == write.offset);
    assert(disk2[write.chunk_id].subrange(write.offset as int, write.offset + write.length)
        =~= data);
}

/// Where a block is placed in a new chunk, the cursor is at the end of the last
/// chunk file again once that chunk's file has been created, whether or not the
/// block gets written; and creating it changes nothing of what the files hold
/// once it is.
pub proof fn rolling_finds_end(cursor: Cursor, disk: Map<u32, Seq<u8>>, data: Seq<u8>)
    requires
        data.len() <= u64::MAX,
        placeable(cursor, data.len() as u64),
        placement(cursor, data.len() as u64).rolled,
        at_end(cursor, disk),
    ensures
        ({
            let write = placement(cursor, data.len() as u64);
            let opened = disk.insert(write.chunk_id, Seq::empty());
            &&& !disk.contains_key(write.chunk_id)
            &&& at_end(cursor_at(write), opened)
            &&& after_write(opened, write, data) == after_write(disk, write, data)
        }),
{
    let write = placement(cursor, data.len() as u64);
    let opened = disk.insert(write.chunk_id, Seq::empty());
    assert(after_write(opened, write, data) =~= after_write(disk, write, data));
}

/// A block is placed in the active chunk without moving the cursor.
pub proof fn unrolled_blocks_start_at_cursor(cursor: Cursor, length: u64)
    requires
        !placement(cursor, length).rolled,
    ensures
        cursor_at(placement(cursor, length)) == cursor,
{
}

/// A block that can be read can still be read, with the same bytes, whatever is
/// appended later.
pub proof fn later_writes_keep_blocks(
    disk: Map<u32, Seq<u8>>,
    write: BlockWrite,
    data: Seq<u8>,
    chunk_id: u32,
    offset: u64,
    length: u64,
)
    requires
        block_at(disk, chunk_id, offset, length) is Some,
    ensures
        block_at(after_write(disk, write, data), chunk_id, offset, length) == block_at(
            disk,
            chunk_id,
            offset,
            length,
        ),
{
    let disk2 = after_write(disk, write, data);
    assert(disk2[chunk_id].subrange(offset as int, offset + length) =~= disk[chunk_id].subrange(
        offset as int,
        offset + length,
    ));
}

/// A block reaches beyond the size limit of its chunk only where it is the
/// first block of that chunk.
pub proof fn chunks_respect_size_limit(cursor: Cursor, length: u64)
    ensures
        ({
            let write = placement(cursor, length);
            write.offset + write.length <= CHUNK_SIZE_LIMIT || write.offset == 0
        }),
{
}

/// Reopening finds the end of the last chunk file. `names` are the files of the
/// directory, every chunk under its own name among them; no name is that of a
/// chunk beyond `id`, as [`BlockStorage::find_active_chunk`] ensures.
pub proof fn reopening_finds_end(disk: Map<u32, Seq<u8>>, names: Seq<Seq<char>>, id: u32)
    requires
        forall|n: u32| #[trigger] disk.contains_key(n) ==> names.contains(chunk_name_of(n)),
        forall|i: int|
            0 <= i < names.len() ==> (#[trigger] chunk_id_of(names[i]) matches Some(n) ==> n
                <= id),
        chunk_bytes(disk, id).len() <= u64::MAX,
    ensures
        at_end(Cursor { chunk_id: id, offset: chunk_bytes(disk, id).len() as u64 }, disk),
{
    assert forall|n: u32| #[trigger] disk.contains_key(n) implies n <= id by {
        let i = choose|i: int| 0 <= i < names.len() && names[i] == chunk_name_of(n);
        chunk_name_round_trip(n);
        assert(chunk_id_of(names[i]) == Some(n));
    }
}

} // verus!
