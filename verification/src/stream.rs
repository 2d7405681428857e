//! Reading a stream back, block by block.
use vstd::prelude::*;

use crate::blocks::{
    after_write, block_at, files_in_range, later_writes_keep_blocks, BlockStorage, BlockWrite,
};
use crate::engine::StreamSegment;
use crate::error::MemMapError;

verus! {

/// How far a stream has been read: `offset` bytes of the block `index`, and all
/// of the blocks before it.
pub struct StreamPosition {
    pub segments: Seq<StreamSegment>,
    pub index: int,
    pub offset: u64,
}

/// The start of a stream.
pub open spec fn stream_start(segments: Seq<StreamSegment>) -> StreamPosition {
    StreamPosition { segments, index: 0, offset: 0 }
}

/// The same position, with no block before it that has been read to its end.
pub open spec fn settled(p: StreamPosition) -> StreamPosition
    decreases p.segments.len() - p.index,
{
    if 0 <= p.index < p.segments.len() && p.segments[p.index].length == p.offset {
        settled(StreamPosition { index: p.index + 1, offset: 0, ..p })
    } else {
        p
    }
}

/// There is no block left.
pub open spec fn ended(p: StreamPosition) -> bool {
    p.index >= p.segments.len()
}

/// The position is within its block, and that block within the range of file
/// offsets up to it.
pub open spec fn in_block(p: StreamPosition) -> bool {
    &&& 0 <= p.index <= p.segments.len()
    &&& p.index < p.segments.len() ==> {
        &&& p.offset <= p.segments[p.index].length
        &&& p.segments[p.index].offset + p.offset <= u64::MAX
    }
}

/// The part of the block at `p` that the next read takes: what is left of it,
/// but no more than `capacity` bytes.
pub open spec fn next_part(p: StreamPosition, capacity: nat) -> StreamSegment {
    let segment = p.segments[p.index];
    let left = segment.length - p.offset;
    StreamSegment {
        chunk_id: segment.chunk_id,
        offset: (segment.offset + p.offset) as u64,
        length: if capacity < left {
            capacity as u64
        } else {
            left as u64
        },
    }
}

/// The position `count` bytes further in the same block.
pub open spec fn moved_on(p: StreamPosition, count: u64) -> StreamPosition {
    StreamPosition { offset: (p.offset + count) as u64, ..p }
}

/// A reader that yields the blocks of a stream one after the other.
pub struct StreamReader {
    segments: Vec<StreamSegment>,
    current_segment_idx: usize,
    current_segment_offset: u64,
}

impl View for StreamReader {
    type V = StreamPosition;

    closed spec fn view(&self) -> StreamPosition {
        StreamPosition {
            segments: self.segments@,
            index: self.current_segment_idx as int,
            offset: self.current_segment_offset,
        }
    }
}

impl StreamReader {
    /// A reader at the start of the stream with the blocks `segments`.
    pub fn open(segments: Vec<StreamSegment>) -> (reader: Self)
        ensures
            reader@ == stream_start(segments@),
            reader@.segments == segments@,
            reader@.index == 0,
            reader@.offset == 0,
            in_block(reader@),
    {
        StreamReader { segments, current_segment_idx: 0, current_segment_offset: 0 }
    }

    /// Moves past blocks that have been read to their end.
    fn settle(&mut self)
        requires
            in_block(old(self)@),
        ensures
            final(self)@ == settled(old(self)@),
            settled(final(self)@) == final(self)@,
            final(self)@.segments == old(self)@.segments,
            in_block(final(self)@),
            !ended(final(self)@) ==> final(self)@.offset
                < final(self)@.segments[final(self)@.index].length,
    {
        while self.current_segment_idx < self.segments.len()
            && self.segments[self.current_segment_idx].length == self.current_segment_offset
            invariant
                in_block(self@),
                settled(self@) == settled(old(self)@),
                self@.segments == old(self)@.segments,
            decreases self@.segments.len() - self@.index,
        {
            self.current_segment_idx = self.current_segment_idx + 1;
            self.current_segment_offset = 0;
        }
    }

    /// The chunk file that the next read goes to, or `None` at the end of the
    /// stream.
    pub fn next_chunk(&mut self) -> (chunk_id: Option<u32>)
        requires
            in_block(old(self)@),
        ensures
            final(self)@ == settled(old(self)@),
            settled(final(self)@) == final(self)@,
            final(self)@.segments == old(self)@.segments,
            in_block(final(self)@),
            chunk_id == (if ended(final(self)@) {
                None
            } else {
                Some(final(self)@.segments[final(self)@.index].chunk_id)
            }),
    {
        self.settle();
        if self.current_segment_idx < self.segments.len() {
            Some(self.segments[self.current_segment_idx].chunk_id)
        } else {
            None
        }
    }

    /// Whether the part of the stream that the next read of up to `capacity`
    /// bytes takes can be addressed in memory.
    pub fn addressable(&mut self, capacity: usize) -> (b: bool)
        requires
            in_block(old(self)@),
        ensures
            final(self)@ == settled(old(self)@),
            settled(final(self)@) == final(self)@,
            final(self)@.segments == old(self)@.segments,
            in_block(final(self)@),
            b == (ended(final(self)@) || {
                let part = next_part(final(self)@, capacity as nat);
                part.offset + part.length <= usize::MAX
            }),
    {
        self.settle();
        if self.current_segment_idx < self.segments.len() {
            let part = self.part(capacity);
            BlockStorage::addressable(part.offset, part.length)
        } else {
            true
        }
    }

    /// The part that a read of up to `capacity` bytes takes.
    fn part(&self, capacity: usize) -> (part: StreamSegment)
        requires
            in_block(self@),
            !ended(self@),
        ensures
            part == next_part(self@, capacity as nat),
    {
        let segment = &self.segments[self.current_segment_idx];
        let left: u64 = segment.length - self.current_segment_offset;
        let length: u64 = if (capacity as u64) < left {
            capacity as u64
        } else {
            left
        };
        StreamSegment {
            chunk_id: segment.chunk_id,
            offset: segment.offset + self.current_segment_offset,
            length,
        }
    }

    /// Reads the next bytes of the stream, up to `capacity` of them; none at the
    /// end of the stream. `chunk` holds the contents of the chunk file that
    /// [`Self::next_chunk`] names, or `None` where there is no such file.
    pub fn read(&mut self, capacity: usize, chunk: Option<&[u8]>) -> (r: Result<
        Vec<u8>,
        MemMapError,
    >)
        requires
            in_block(old(self)@),
            chunk is Some && !ended(settled(old(self)@)) ==> {
                let part = next_part(settled(old(self)@), capacity as nat);
                part.offset + part.length <= usize::MAX
            },
        ensures
            in_block(final(self)@),
            ({
                let here = settled(old(self)@);
                let part = next_part(here, capacity as nat);
                match r {
                    Ok(bytes) => if ended(here) {
                        bytes@.len() == 0 && final(self)@ == here
                    } else {
                        &&& chunk matches Some(c)
                        &&& part.offset + part.length <= c@.len()
                        &&& bytes@ == c@.subrange(part.offset as int, part.offset + part.length)
                        &&& final(self)@ == moved_on(here, part.length)
                        &&& final(self)@.segments == old(self)@.segments
                        &&& final(self)@.index == here.index
                        &&& final(self)@.offset == here.offset + bytes@.len()
                        &&& ({
                            let left = here.segments[here.index].length - here.offset;
                            bytes@.len() == (if capacity < left {
                                capacity as int
                            } else {
                                left
                            })
                        })
                    },
                    Err(e) => {
                        &&& !ended(here)
                        &&& (chunk matches Some(c) ==> part.offset + part.length > c@.len())
                        &&& e == (MemMapError::BlockNotFound {
                            chunk_id: part.chunk_id,
                            offset: part.offset,
                        })
                        &&& final(self)@ == here
                    },
                }
            }),
    {
        self.settle();
        if self.current_segment_idx >= self.segments.len() {
            return Ok(Vec::new());
        }
        let part = self.part(capacity);
        match BlockStorage::read(part.chunk_id, part.offset, part.length, chunk) {
            Ok(bytes) => {
                self.current_segment_offset = self.current_segment_offset + part.length;
                Ok(bytes)
            },
            Err(e) => Err(e),
        }
    }
}

// ---- What a stream holds ----------------------------------------------------

/// The bytes from `p` to the end of the stream, where the chunk files hold all
/// its blocks.
pub open spec fn unread(p: StreamPosition, disk: Map<u32, Seq<u8>>) -> Option<Seq<u8>>
    decreases p.segments.len() - p.index,
{
    if ended(p) || p.index < 0 {
        Some(Seq::empty())
    } else {
        let segment = p.segments[p.index];
        let rest = unread(StreamPosition { index: p.index + 1, offset: 0, ..p }, disk);
        match (block_at(disk, segment.chunk_id, segment.offset, segment.length), rest) {
            (Some(block), Some(bytes)) => Some(block.skip(p.offset as int) + bytes),
            _ => None,
        }
    }
}

/// What a stream with the blocks `segments` holds.
pub open spec fn stream_content(segments: Seq<StreamSegment>, disk: Map<u32, Seq<u8>>) -> Option<
    Seq<u8>,
> {
    unread(stream_start(segments), disk)
}

/// Moving past blocks that have been read leaves nothing out.
proof fn lemma_settled(p: StreamPosition, disk: Map<u32, Seq<u8>>)
    requires
        in_block(p),
        unread(p, disk) is Some,
    ensures
        in_block(settled(p)),
        unread(settled(p), disk) == unread(p, disk),
        ended(settled(p)) ==> unread(p, disk) == Some(Seq::<u8>::empty()),
    decreases p.segments.len() - p.index,
{
    if !ended(p) && p.segments[p.index].length == p.offset {
        let next = StreamPosition { index: p.index + 1, offset: 0, ..p };
        let segment = p.segments[p.index];
        let block = block_at(disk, segment.chunk_id, segment.offset, segment.length).unwrap();
        let rest = unread(next, disk).unwrap();
        assert(block.skip(p.offset as int) + rest =~= rest);
        lemma_settled(next, disk);
    }
}

/// A read takes the bytes that come next, at least one where there is room and
/// the stream has not ended, and leaves the others for later reads.
pub proof fn read_takes_next_bytes(p: StreamPosition, capacity: nat, disk: Map<u32, Seq<u8>>)
    requires
        files_in_range(disk),
        in_block(p),
        unread(p, disk) is Some,
    ensures
        ({
            let here = settled(p);
            let part = next_part(here, capacity);
            let next = moved_on(here, part.length);
            if ended(here) {
                unread(p, disk) == Some(Seq::<u8>::empty())
            } else {
                &&& block_at(disk, part.chunk_id, part.offset, part.length) matches Some(bytes)
                &&& unread(next, disk) matches Some(rest)
                &&& unread(p, disk) == Some(bytes + rest)
                &&& in_block(next)
                &&& capacity > 0 ==> bytes.len() > 0
            }
        }),
{
    let here = settled(p);
    lemma_settled(p, disk);
    if !ended(here) {
        lemma_settled_within(p);
        assert(disk.contains_key(here.segments[here.index].chunk_id));
        let part = next_part(here, capacity);
        let next = moved_on(here, part.length);
        let segment = here.segments[here.index];
        let chunk = disk[segment.chunk_id];
        let block = chunk.subrange(segment.offset as int, segment.offset + segment.length);
        let after = unread(StreamPosition { index: here.index + 1, offset: 0, ..here }, disk);
        let bytes = chunk.subrange(part.offset as int, part.offset + part.length);
        assert(block.skip(here.offset as int) =~= bytes + block.skip(next.offset as int));
        assert(block.skip(here.offset as int) + after.unwrap() =~= bytes + (block.skip(
            next.offset as int,
        ) + after.unwrap()));
        assert(unread(next, disk) == Some(block.skip(next.offset as int) + after.unwrap()));
    }
}

proof fn lemma_settled_within(p: StreamPosition)
    requires
        in_block(p),
    ensures
        in_block(settled(p)),
        !ended(settled(p)) ==> settled(p).offset < settled(p).segments[settled(p).index].length,
    decreases p.segments.len() - p.index,
{
    if !ended(p) && p.segments[p.index].length == p.offset {
        lemma_settled_within(StreamPosition { index: p.index + 1, offset: 0, ..p });
    }
}

/// The position after reads into buffers of the sizes `capacities`, one after
/// the other.
pub open spec fn after_reads(p: StreamPosition, capacities: Seq<nat>) -> StreamPosition
    decreases capacities.len(),
{
    if capacities.len() == 0 {
        p
    } else {
        let here = settled(after_reads(p, capacities.drop_last()));
        if ended(here) {
            here
        } else {
            moved_on(here, next_part(here, capacities.last()).length)
        }
    }
}

/// The bytes that such reads give, put together.
pub open spec fn bytes_of_reads(
    p: StreamPosition,
    capacities: Seq<nat>,
    disk: Map<u32, Seq<u8>>,
) -> Seq<u8>
    decreases capacities.len(),
{
    if capacities.len() == 0 {
        Seq::empty()
    } else {
        let before = bytes_of_reads(p, capacities.drop_last(), disk);
        let here = settled(after_reads(p, capacities.drop_last()));
        if ended(here) {
            before
        } else {
            let part = next_part(here, capacities.last());
            before + disk[part.chunk_id].subrange(part.offset as int, part.offset + part.length)
        }
    }
}

/// Reads give back what the stream holds, in order and without gaps, whatever
/// the sizes of the buffers; once a read finds the end, they have given back all
/// of it.
pub proof fn reads_give_stream_back(
    segments: Seq<StreamSegment>,
    capacities: Seq<nat>,
    disk: Map<u32, Seq<u8>>,
)
    requires
        files_in_range(disk),
        stream_content(segments, disk) is Some,
    ensures
        ({
            let p = after_reads(stream_start(segments), capacities);
            let bytes = bytes_of_reads(stream_start(segments), capacities, disk);
            &&& in_block(p)
            &&& unread(p, disk) matches Some(rest)
            &&& stream_content(segments, disk) == Some(bytes + rest)
            &&& ended(settled(p)) ==> stream_content(segments, disk) == Some(bytes)
        }),
    decreases capacities.len(),
{
    let start = stream_start(segments);
    let all = stream_content(segments, disk).unwrap();
    if capacities.len() == 0 {
        assert(Seq::<u8>::empty() + all =~= all);
    } else {
        let fewer = capacities.drop_last();
        let p = after_reads(start, fewer);
        let before = bytes_of_reads(start, fewer, disk);
        reads_give_stream_back(segments, fewer, disk);
        read_takes_next_bytes(p, capacities.last(), disk);
        lemma_settled(p, disk);
        let here = settled(p);
        if !ended(here) {
            let part = next_part(here, capacities.last());
            let bytes = disk[part.chunk_id].subrange(
                part.offset as int,
                part.offset + part.length,
            );
            let rest = unread(moved_on(here, part.length), disk).unwrap();
            assert(before + (bytes + rest) =~= (before + bytes) + rest);
        }
    }
    let q = after_reads(start, capacities);
    let bytes = bytes_of_reads(start, capacities, disk);
    lemma_settled(q, disk);
    assert(bytes + Seq::<u8>::empty() =~= bytes);
}

proof fn lemma_push_segment(
    p: StreamPosition,
    segment: StreamSegment,
    disk: Map<u32, Seq<u8>>,
    data: Seq<u8>,
)
    requires
        0 <= p.index <= p.segments.len(),
        p.index == p.segments.len() ==> p.offset == 0,
        unread(p, disk) is Some,
        block_at(disk, segment.chunk_id, segment.offset, segment.length) == Some(data),
    ensures
        unread(StreamPosition { segments: p.segments.push(segment), ..p }, disk) == Some(
            unread(p, disk).unwrap() + data,
        ),
    decreases p.segments.len() - p.index,
{
    let longer = StreamPosition { segments: p.segments.push(segment), ..p };
    let after = StreamPosition { index: p.index + 1, offset: 0, ..longer };
    if ended(p) {
        assert(unread(after, disk) == Some(Seq::<u8>::empty()));
        assert(longer.segments[longer.index] == segment);
        assert(data.skip(0) + Seq::<u8>::empty() =~= Seq::<u8>::empty() + data);
    } else {
        let next = StreamPosition { index: p.index + 1, offset: 0, ..p };
        lemma_push_segment(next, segment, disk, data);
        assert(longer.segments[longer.index] == p.segments[p.index]);
        let s = p.segments[p.index];
        let block = block_at(disk, s.chunk_id, s.offset, s.length).unwrap();
        let rest = unread(next, disk).unwrap();
        assert(block.skip(p.offset as int) + (rest + data) =~= (block.skip(p.offset as int) + rest)
            + data);
    }
}

/// A block that is added to a stream extends what the stream holds.
pub proof fn segment_extends_stream(
    segments: Seq<StreamSegment>,
    segment: StreamSegment,
    disk: Map<u32, Seq<u8>>,
    data: Seq<u8>,
)
    requires
        stream_content(segments, disk) is Some,
        block_at(disk, segment.chunk_id, segment.offset, segment.length) == Some(data),
    ensures
        stream_content(segments.push(segment), disk) == Some(
            stream_content(segments, disk).unwrap() + data,
        ),
{
    lemma_push_segment(stream_start(segments), segment, disk, data);
}

proof fn lemma_unread_kept(
    p: StreamPosition,
    disk: Map<u32, Seq<u8>>,
    write: BlockWrite,
    data: Seq<u8>,
)
    requires
        0 <= p.index,
        unread(p, disk) is Some,
    ensures
        unread(p, after_write(disk, write, data)) == unread(p, disk),
    decreases p.segments.len() - p.index,
{
    if !ended(p) {
        let s = p.segments[p.index];
        lemma_unread_kept(
            StreamPosition { index: p.index + 1, offset: 0, ..p },
            disk,
            write,
            data,
        );
        later_writes_keep_blocks(disk, write, data, s.chunk_id, s.offset, s.length);
    }
}

/// What a stream holds stays the same, whatever is appended to the chunk files
/// later.
pub proof fn later_writes_keep_streams(
    segments: Seq<StreamSegment>,
    disk: Map<u32, Seq<u8>>,
    write: BlockWrite,
    data: Seq<u8>,
)
    requires
        stream_content(segments, disk) is Some,
    ensures
        stream_content(segments, after_write(disk, write, data)) == stream_content(segments, disk),
{
    lemma_unread_kept(stream_start(segments), disk, write, data);
}

} // verus!
