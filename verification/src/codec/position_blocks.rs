//! Independent position blocks behind a directory.
//! Directory validation is separate from full payload integrity verification.

use super::bytes::{
    get_u32, group_bytes, le_inside, le_u32, le_u32_of_bytes, splice, u32_bytes, var_bytes,
    var_bytes_len, var_u32_at, var_u32_canonical, var_u32_len, var_u32_read_of_write, Reader,
    Writer,
};
use super::positions::{decode, decode_increasing, increasing, next_position};
use super::{fail, Error, ErrorKind, Result};
use crate::codec::source::{same_bytes_behind, ByteSource};
use crate::error::{lift, lifted};
use crate::text::same_bytes;
use vstd::prelude::*;

verus! {

broadcast use group_bytes;

pub const BLOCK_POSITIONS: usize = 128;

const HEADER: usize = 8;

const ENTRY: usize = 16;

/// The four bytes that start a directory.
pub open spec fn blocks_magic() -> Seq<u8> {
    seq![0x50u8, 0x42u8, 0x30u8, 0x31u8]
}

/// One block: its first and last position, its extent in the payload and its
/// number of positions.
#[verifier::ext_equal]
pub struct BlockModel {
    pub first: u32,
    pub last: u32,
    pub start: int,
    pub end: int,
    pub count: int,
}

/// The number of blocks that `count` positions take.
pub open spec fn block_count(count: int) -> int {
    (count + 127) / 128
}

/// The block that entry `index` describes.
pub open spec fn block_at(entries: Seq<u8>, count: u32, index: int) -> BlockModel {
    BlockModel {
        first: le_u32(entries, index * 16),
        last: le_u32(entries, index * 16 + 4),
        start: le_u32(entries, index * 16 + 8) as int,
        end: le_u32(entries, index * 16 + 12) as int,
        count: if count - index * 128 < 128 {
            count - index * 128
        } else {
            128
        },
    }
}

/// Whether a block's numbers fit together, given where it must start.
pub open spec fn block_shaped(block: BlockModel, start: int, payload: int) -> bool {
    &&& block.start <= block.end
    &&& block.start == start
    &&& block.end <= payload
    &&& block.count - 1 <= block.end - block.start <= (block.count - 1) * 5
    &&& block.first <= block.last
    &&& block.count == 1 ==> block.first == block.last
    &&& block.last - block.first >= block.count - 1
}

/// The first fault of the directory from entry `index` on, or where the blocks end.
pub open spec fn check_blocks(
    entries: Seq<u8>,
    count: u32,
    payload: int,
    index: int,
    start: int,
    previous: Option<u32>,
) -> Result<int>
    decreases entries.len() - index * 16,
{
    if index * 16 + 16 > entries.len() {
        Ok(start)
    } else {
        let block = block_at(entries, count, index);
        if !block_shaped(block, start, payload) {
            fail(8 + index * 16, ErrorKind::InvalidValue)
        } else if previous matches Some(last) && last >= block.first {
            fail(8 + index * 16, ErrorKind::InvalidOrder)
        } else {
            check_blocks(entries, count, payload, index + 1, block.end, Some(block.last))
        }
    }
}

/// The size of the directory that a header announces.
pub open spec fn directory_len(header: Seq<u8>, max_positions: u32) -> Result<int> {
    if header.len() < 4 {
        fail(0, ErrorKind::Truncated)
    } else if header.take(4) != blocks_magic() {
        fail(0, ErrorKind::BadMagic)
    } else if header.len() < 8 {
        fail(4, ErrorKind::Truncated)
    } else if header.len() != 8 {
        fail(8, ErrorKind::TrailingBytes)
    } else if le_u32(header, 4) > max_positions {
        fail(4, ErrorKind::LimitExceeded)
    } else {
        Ok(8 + 16 * block_count(le_u32(header, 4) as int))
    }
}

/// A checked directory.
#[verifier::ext_equal]
pub struct DirectoryView {
    pub count: u32,
    pub entries: Seq<u8>,
}

impl DirectoryView {
    pub open spec fn blocks(self) -> int {
        self.entries.len() as int / 16
    }

    pub open spec fn block(self, index: int) -> BlockModel {
        block_at(self.entries, self.count, index)
    }

    /// The first block whose last position reaches `target`, from `index` on.
    pub open spec fn selected(self, target: u32, index: int) -> Option<BlockModel>
        decreases self.blocks() - index,
    {
        if index >= self.blocks() {
            None
        } else if self.block(index).last >= target {
            Some(self.block(index))
        } else {
            self.selected(target, index + 1)
        }
    }
}

/// The directory in `bytes`, for a payload of the given size.
pub open spec fn opened_directory(bytes: Seq<u8>, payload: int, max_positions: u32) -> Result<
    DirectoryView,
> {
    if bytes.len() < 8 {
        fail(0, ErrorKind::Truncated)
    } else {
        match directory_len(bytes.take(8), max_positions) {
            Err(error) => Err(error),
            Ok(size) => {
                let count = le_u32(bytes, 4);
                let entries = bytes.subrange(8, size);
                if bytes.len() < size {
                    fail(8, ErrorKind::Truncated)
                } else if bytes.len() != size {
                    fail(size, ErrorKind::TrailingBytes)
                } else {
                    match check_blocks(entries, count, payload, 0, 0, None) {
                        Err(error) => Err(error),
                        Ok(end) => if end != payload {
                            fail(
                                if size + end > usize::MAX {
                                    usize::MAX as int
                                } else {
                                    size + end
                                },
                                ErrorKind::TrailingBytes,
                            )
                        } else {
                            Ok(DirectoryView { count, entries })
                        },
                    }
                }
            },
        }
    }
}

/// The positions of one block, from its bytes.
pub open spec fn decoded_block(block: BlockModel, bytes: Seq<u8>) -> Result<Seq<u32>> {
    if bytes.len() != block.end - block.start {
        fail(block.start, ErrorKind::InvalidValue)
    } else {
        match decode(bytes, 0, (block.count - 1) as nat, block.first, false) {
            Err(error) => Err(error),
            Ok((rest, end)) => {
                let positions = seq![block.first] + rest;
                if end != bytes.len() {
                    fail(end, ErrorKind::TrailingBytes)
                } else if positions.last() != block.last {
                    fail(block.start, ErrorKind::InvalidValue)
                } else {
                    Ok(positions)
                }
            },
        }
    }
}

/// The first of increasing positions that reaches `target`.
pub open spec fn first_at_least(positions: Seq<u32>, target: u32) -> Option<u32>
    decreases positions.len(),
{
    if positions.len() == 0 {
        None
    } else if positions[0] >= target {
        Some(positions[0])
    } else {
        first_at_least(positions.drop_first(), target)
    }
}

/// Checked metadata independent of the positional payload's physical location.
#[derive(Clone, Copy, Debug)]
pub struct PositionDirectory<'a> {
    entries: &'a [u8],
    count: u32,
}

#[derive(Clone, Copy, Debug)]
pub struct PositionBlocks<'a> {
    directory: PositionDirectory<'a>,
    payload: &'a [u8],
}

/// A directory-validated request; offsets are relative to the payload start.
#[derive(Clone, Copy, Debug)]
pub struct PositionBlockRequest {
    first: u32,
    last: u32,
    start: usize,
    end: usize,
    count: usize,
}

#[derive(Clone, Copy, Debug, Eq, PartialEq, Structural)]
pub struct SeekResult {
    pub position: Option<u32>,
    pub decoded_positions: usize,
    pub decoded_bytes: usize,
}

impl Default for SeekResult {
    fn default() -> (result: Self)
        ensures
            result == (SeekResult { position: None, decoded_positions: 0, decoded_bytes: 0 }),
    {
        SeekResult { position: None, decoded_positions: 0, decoded_bytes: 0 }
    }
}

impl View for PositionBlockRequest {
    type V = BlockModel;

    closed spec fn view(&self) -> BlockModel {
        BlockModel {
            first: self.first,
            last: self.last,
            start: self.start as int,
            end: self.end as int,
            count: self.count as int,
        }
    }
}

impl PositionBlockRequest {
    #[verifier::type_invariant]
    closed spec fn inv(self) -> bool {
        &&& self.start <= self.end
        &&& 1 <= self.count <= BLOCK_POSITIONS
        &&& self.end - self.start <= (self.count - 1) * 5
    }

    /// The extent of the block in the payload.
    pub fn byte_range(self) -> (range: core::ops::Range<usize>)
        ensures
            range.start == self@.start,
            range.end == self@.end,
            range.start <= range.end,
            range.end - range.start <= 635,
    {
        proof {
            use_type_invariant(&self);
        }
        self.start..self.end
    }

    /// Finds the first position at or after `target`; the whole block is
    /// validated before its result may be used.
    #[verifier::loop_isolation(false)]
    pub fn seek_ge(self, bytes: &[u8], target: u32) -> (result: Result<SeekResult>)
        ensures
            match decoded_block(self@, bytes@) {
                Err(error) => result == Err::<SeekResult, Error>(error),
                Ok(positions) => result == Ok::<SeekResult, Error>(
                    SeekResult {
                        position: first_at_least(positions, target),
                        decoded_positions: positions.len() as usize,
                        decoded_bytes: bytes@.len() as usize,
                    },
                ) && positions.len() == self@.count,
            },
    {
        proof {
            use_type_invariant(&self);
        }
        let mut scratch: [u32; BLOCK_POSITIONS] = [0u32; BLOCK_POSITIONS];
        let count: usize = self.decode_into(bytes, &mut scratch)?;
        let ghost positions = decoded_block(self@, bytes@)->Ok_0;
        let mut index: usize = 0;
        let mut found: Option<u32> = None;
        assert(positions.skip(0) =~= positions);
        while index < count && found.is_none()
            invariant
                index <= count,
                count == positions.len(),
                scratch@.take(count as int) == positions,
                first_at_least(positions, target) == (if found is Some {
                    found
                } else {
                    first_at_least(positions.skip(index as int), target)
                }),
            decreases count - index,
        {
            assert(scratch@[index as int] == scratch@.take(count as int)[index as int]);
            assert(positions.skip(index as int).drop_first() =~= positions.skip(index + 1));
            if scratch[index] >= target {
                found = Some(scratch[index]);
            }
            index += 1;
        }
        Ok(
            SeekResult {
                position: found,
                decoded_positions: self.count,
                decoded_bytes: bytes.len(),
            },
        )
    }

    /// Decodes into caller-owned bounded scratch for repeated nearby seeks.
    /// On error, partially written output must be discarded.
    #[verifier::loop_isolation(false)]
    pub fn decode_into(self, bytes: &[u8], output: &mut [u32]) -> (result: Result<usize>)
        ensures
            final(output)@.len() == old(output)@.len(),
            if old(output)@.len() < self@.count {
                result == fail::<usize>(self@.start, ErrorKind::Truncated) && final(output)@ == old(output)@
            } else {
                match decoded_block(self@, bytes@) {
                    Err(error) => result == Err::<usize, Error>(error),
                    Ok(positions) => result == Ok::<usize, Error>(positions.len() as usize)
                        && positions.len() == self@.count && final(output)@.take(
                        positions.len() as int,
                    ) == positions && final(output)@.skip(positions.len() as int) == old(output)@.skip(positions.len() as int),
                }
            },
    {
        proof {
            use_type_invariant(&self);
        }
        if output.len() < self.count {
            return Err(Error::new(self.start, ErrorKind::Truncated));
        }
        if bytes.len() != self.end - self.start {
            return Err(Error::new(self.start, ErrorKind::InvalidValue));
        }
        let ghost before = output@;
        let mut reader: Reader = Reader::new(bytes);
        let mut position: u32 = self.first;
        output[0] = position;
        let mut index: usize = 1;
        let ghost whole = decode(bytes@, 0, (self.count - 1) as nat, self.first, false);
        assert(output@.take(1) =~= seq![self.first]);
        while index < self.count
            invariant
                1 <= index <= self.count,
                reader.source() == bytes@,
                output@.len() == before.len(),
                output@.take(index as int).len() == index,
                output@[index - 1] == position,
                output@.skip(self.count as int) == before.skip(self.count as int),
                whole == (match decode(
                    bytes@,
                    reader.offset() as int,
                    (self.count - index) as nat,
                    position,
                    false,
                ) {
                    Err(error) => Err(error),
                    Ok((rest, end)) => Ok((output@.take(index as int).drop_first() + rest, end)),
                }),
                output@.take(index as int)[0] == self.first,
            decreases self.count - index,
        {
            let offset: usize = reader.offset();
            let ghost done = output@.take(index as int).drop_first();
            let ghost tail = decode(
                bytes@,
                offset as int,
                (self.count - index) as nat,
                position,
                false,
            );
            let delta: u32 = reader.var_u32()?;
            if delta == 0 {
                return Err(Error::new(offset, ErrorKind::InvalidOrder));
            }
            if delta > u32::MAX - position {
                return Err(Error::new(offset, ErrorKind::Overflow));
            }
            position = position + delta;
            output[index] = position;
            index += 1;
            proof {
                assert(output@.take(index as int).drop_first() =~= done.push(position));
                assert(output@.skip(self.count as int) =~= before.skip(self.count as int));
                let rest = decode(
                    bytes@,
                    reader.offset() as int,
                    (self.count - index) as nat,
                    position,
                    false,
                );
                if rest is Ok {
                    assert(done + (seq![position] + rest->Ok_0.0) =~= done.push(position)
                        + rest->Ok_0.0);
                }
            }
        }
        proof {
            let done = output@.take(index as int);
            assert(done.drop_first() + Seq::<u32>::empty() =~= done.drop_first());
            assert(seq![self.first] + done.drop_first() =~= done);
            assert(output@.skip(self.count as int) =~= before.skip(self.count as int));
        }
        reader.finish()?;
        if position != self.last {
            return Err(Error::new(self.start, ErrorKind::InvalidValue));
        }
        Ok(self.count)
    }
}

impl<'a> View for PositionDirectory<'a> {
    type V = DirectoryView;

    closed spec fn view(&self) -> DirectoryView {
        DirectoryView { count: self.count, entries: self.entries@ }
    }
}

/// Whether every block has the shape that a directory promises and blocks
/// follow each other.
pub open spec fn blocks_chained(view: DirectoryView) -> bool {
    &&& view.entries.len() == 16 * block_count(view.count as int)
    &&& forall|i: int|
        0 <= i < view.blocks() ==> {
            let block = #[trigger] view.block(i);
            &&& 0 <= block.start <= block.end
            &&& block.end - block.start <= (block.count - 1) * 5
            &&& block.first <= block.last
            &&& i > 0 ==> view.block(i - 1).last < block.first
            &&& i > 0 ==> view.block(i - 1).end == block.start
        }
}

pub proof fn checked_blocks_chained(
    view: DirectoryView,
    payload: int,
    index: int,
    start: int,
    previous: Option<u32>,
)
    requires
        0 <= index,
        check_blocks(view.entries, view.count, payload, index, start, previous) is Ok,
        index > 0 ==> previous == Some(view.block(index - 1).last) && start == view.block(
            index - 1,
        ).end,
    ensures
        forall|i: int|
            index <= i < view.blocks() ==> {
                let block = #[trigger] view.block(i);
                &&& block_shaped(block, block.start, payload)
                &&& i > 0 ==> view.block(i - 1).last < block.first
                &&& i > 0 ==> view.block(i - 1).end == block.start
                &&& i == index ==> block.start == start
                &&& block.end <= payload
            },
    decreases view.blocks() - index,
{
    if index < view.blocks() {
        let block = view.block(index);
        checked_blocks_chained(view, payload, index + 1, block.end, Some(block.last));
    }
}

impl<'a> PositionDirectory<'a> {
    #[verifier::type_invariant]
    closed spec fn inv(self) -> bool {
        blocks_chained(self@)
    }

    /// Reads the fixed header to bound the following directory read.
    pub fn encoded_len(header: &[u8], max_positions: u32) -> (result: Result<usize>)
        ensures
            match directory_len(header@, max_positions) {
                Err(error) => result == Err::<usize, Error>(error),
                Ok(size) => result == Ok::<usize, Error>(size as usize) && 8 <= size
                    <= 0x2000_0008,
            },
    {
        let mut reader: Reader = Reader::new(header);
        let start: &[u8] = reader.take(4)?;
        let magic: [u8; 4] = [0x50, 0x42, 0x30, 0x31];
        assert(magic@ =~= blocks_magic());
        assert(start@ =~= header@.take(4));
        if !same_bytes(start, &magic) {
            return Err(Error::new(0, ErrorKind::BadMagic));
        }
        let count: u32 = reader.u32()?;
        reader.finish()?;
        if count > max_positions {
            return Err(Error::new(4, ErrorKind::LimitExceeded));
        }
        let blocks: u64 = (count as u64 + 127) / 128;
        Ok(HEADER + blocks as usize * ENTRY)
    }

    /// Checks the whole directory against an external payload's known byte length.
    /// This does not read or certify skipped positional bytes.
    #[verifier::loop_isolation(false)]
    pub fn open(bytes: &'a [u8], payload_bytes: usize, max_positions: u32) -> (result: Result<Self>)
        ensures
            match opened_directory(bytes@, payload_bytes as int, max_positions) {
                Err(error) => result == Err::<Self, Error>(error),
                Ok(view) => result matches Ok(directory) && directory@ == view,
            },
    {
        let mut reader: Reader<'a> = Reader::new(bytes);
        let header: &'a [u8] = reader.take(HEADER)?;
        assert(header@ =~= bytes@.take(8));
        let size: usize = PositionDirectory::encoded_len(header, max_positions)?;
        let count: u32 = get_u32(bytes, 4);
        proof {
            le_inside(bytes@, 0, 8, 4);
            assert(bytes@.subrange(0, 8) =~= bytes@.take(8));
        }
        let entries: &'a [u8] = reader.take(size - HEADER)?;
        reader.finish()?;
        let ghost model = DirectoryView { count, entries: entries@ };
        let blocks: usize = entries.len() / ENTRY;
        let mut end: usize = 0;
        let mut previous: Option<u32> = None;
        let mut index: usize = 0;
        while index < blocks
            invariant
                index <= blocks,
                end <= u32::MAX,
                check_blocks(entries@, count, payload_bytes as int, 0, 0, None) == check_blocks(
                    entries@,
                    count,
                    payload_bytes as int,
                    index as int,
                    end as int,
                    previous,
                ),
            decreases blocks - index,
        {
            let block: RawBlock = read_block(entries, count, index);
            if block.end < block.start {
                return Err(Error::new(HEADER + index * ENTRY, ErrorKind::InvalidValue));
            }
            let length: usize = block.end - block.start;
            if block.start != end || block.end > payload_bytes || length < block.count - 1 || length
                > (block.count - 1) * 5 || block.first > block.last || (block.count == 1
                && block.first != block.last) || ((block.last - block.first) as usize) < block.count
                - 1 {
                return Err(Error::new(HEADER + index * ENTRY, ErrorKind::InvalidValue));
            }
            if let Some(last) = previous {
                if last >= block.first {
                    return Err(Error::new(HEADER + index * ENTRY, ErrorKind::InvalidOrder));
                }
            }
            end = block.end;
            previous = Some(block.last);
            index += 1;
        }
        if end != payload_bytes {
            return Err(
                Error::new(
                    if end > usize::MAX - size {
                        usize::MAX
                    } else {
                        size + end
                    },
                    ErrorKind::TrailingBytes,
                ),
            );
        }
        proof {
            checked_blocks_chained(model, payload_bytes as int, 0, 0, None);
            assert(blocks_chained(model));
        }
        Ok(PositionDirectory { entries, count })
    }

    pub fn len(self) -> (len: u32)
        ensures
            len == self@.count,
    {
        self.count
    }

    pub fn is_empty(self) -> (empty: bool)
        ensures
            empty == (self@.count == 0),
    {
        self.count == 0
    }

    pub fn blocks(self) -> (blocks: usize)
        ensures
            blocks == self@.blocks(),
            blocks_chained(self@),
    {
        proof {
            use_type_invariant(&self);
        }
        self.entries.len() / ENTRY
    }

    /// The request of one block.
    pub fn block(self, index: usize) -> (request: PositionBlockRequest)
        requires
            index < self@.blocks(),
        ensures
            request@ == self@.block(index as int),
            1 <= request@.count <= 128,
    {
        proof {
            use_type_invariant(&self);
            assert(self@.block(index as int).start <= self@.block(index as int).end);
        }
        let block: RawBlock = read_block(self.entries, self.count, index);
        PositionBlockRequest {
            first: block.first,
            last: block.last,
            start: block.start,
            end: block.end,
            count: block.count,
        }
    }

    /// Fetches at most one selected block into bounded scratch, preserving reader errors.
    pub fn seek_with<C, S: ByteSource<C>>(
        self,
        target: u32,
        source: &mut S,
        context: &mut C,
    ) -> (result:
        crate::error::Result<SeekResult>)
        requires
            old(source).valid(*old(context)),
        ensures
            same_bytes_behind((*old(source), *old(context)), (*final(source), *final(context))),
            match self@.selected(target, 0) {
                None => result == Ok::<SeekResult, crate::error::Error>(
                    SeekResult { position: None, decoded_positions: 0, decoded_bytes: 0 },
                ) && final(source).asked(*final(context)) == old(source).asked(*old(context)),
                Some(block) => {
                    &&& final(source).asked(*final(context)) == if block.start == block.end {
                        old(source).asked(*old(context))
                    } else {
                        old(source).asked(*old(context)).push(
                            (block.start, block.end - block.start),
                        )
                    }
                    &&& block.start != block.end && final(source).refusal(*final(context)) is Some
                        ==> result == Err::<SeekResult, crate::error::Error>(
                        final(source).refusal(*final(context))->Some_0,
                    )
                    &&& {
                    let answer = block_seek(
                        block,
                        piece(old(source).content(*old(context)), block.start, block.end),
                        target,
                    );
                    &&& result matches Ok(found) ==> answer == Ok::<SeekResult, Error>(found)
                    &&& block.start == block.end || (old(source).reliable(*old(context)) && block.end
                        <= old(source).content(*old(context)).len()) ==> result == lifted(answer)
                    }
                },
            },
    {
        let block: PositionBlockRequest = match self.select(target) {
            Some(block) => block,
            None => {
                return Ok(SeekResult::default());
            },
        };
        let range: core::ops::Range<usize> = block.byte_range();
        let len: usize = range.end - range.start;
        let mut scratch: Vec<u8> = Vec::new();
        scratch.resize(len, 0);
        if len != 0 {
            source.fetch(context, range.start, scratch.as_mut_slice())?;
        }
        assert(scratch@ =~= piece(old(source).content(*old(context)), block@.start, block@.end));
        lift(block.seek_ge(scratch.as_slice(), target))
    }

    /// Finds at most one block to read, or proves the target exceeds all blocks.
    #[verifier::loop_isolation(false)]
    pub fn select(self, target: u32) -> (selected: Option<PositionBlockRequest>)
        ensures
            match self@.selected(target, 0) {
                None => selected is None,
                Some(block) => selected matches Some(request) && request@ == block && 1
                    <= request@.count <= 128,
            },
    {
        proof {
            use_type_invariant(&self);
        }
        let blocks: usize = self.blocks();
        let mut lo: usize = 0;
        let mut hi: usize = blocks;
        while lo < hi
            invariant
                lo <= hi <= blocks,
                forall|i: int| 0 <= i < lo ==> (#[trigger] self@.block(i)).last < target,
                forall|i: int| hi <= i < blocks ==> (#[trigger] self@.block(i)).last >= target,
            decreases hi - lo,
        {
            let mid: usize = lo + (hi - lo) / 2;
            let block: PositionBlockRequest = self.block(mid);
            if block.last < target {
                proof {
                    assert forall|i: int| 0 <= i <= mid implies (#[trigger] self@.block(i)).last
                        < target by {
                        lasts_increase(self@, i, mid as int);
                    }
                }
                lo = mid + 1;
            } else {
                proof {
                    assert forall|i: int| mid <= i < blocks implies (#[trigger] self@.block(i)).last
                        >= target by {
                        lasts_increase(self@, mid as int, i);
                    }
                }
                hi = mid;
            }
        }
        proof {
            selected_at(self@, target, 0, lo as int);
        }
        if lo == blocks {
            None
        } else {
            Some(self.block(lo))
        }
    }
}

proof fn lasts_increase(view: DirectoryView, low: int, high: int)
    requires
        blocks_chained(view),
        0 <= low <= high < view.blocks(),
    ensures
        view.block(low).last <= view.block(high).last,
    decreases high - low,
{
    if low < high {
        lasts_increase(view, low, high - 1);
        assert(view.block(high - 1).last < view.block(high).first);
    }
}

proof fn selected_at(view: DirectoryView, target: u32, index: int, found: int)
    requires
        0 <= index <= found <= view.blocks(),
        forall|i: int| index <= i < found ==> (#[trigger] view.block(i)).last < target,
        found < view.blocks() ==> view.block(found).last >= target,
    ensures
        view.selected(target, index) == (if found == view.blocks() {
            None
        } else {
            Some(view.block(found))
        }),
    decreases found - index,
{
    if index < found {
        assert(view.block(index).last < target);
        selected_at(view, target, index + 1, found);
    }
}

/// The bytes from `start` to `end`; none where the range is empty.
pub open spec fn piece(bytes: Seq<u8>, start: int, end: int) -> Seq<u8> {
    if start >= end {
        Seq::empty()
    } else {
        bytes.subrange(start, end)
    }
}

/// What seeking `target` in one block gives.
pub open spec fn block_seek(block: BlockModel, bytes: Seq<u8>, target: u32) -> Result<SeekResult> {
    match decoded_block(block, bytes) {
        Err(error) => Err(error),
        Ok(positions) => Ok(
            SeekResult {
                position: first_at_least(positions, target),
                decoded_positions: positions.len() as usize,
                decoded_bytes: bytes.len() as usize,
            },
        ),
    }
}

#[derive(Clone, Copy)]
struct RawBlock {
    first: u32,
    last: u32,
    start: usize,
    end: usize,
    count: usize,
}

fn read_block(entries: &[u8], count: u32, index: usize) -> (block: RawBlock)
    requires
        entries@.len() == 16 * block_count(count as int),
        index < entries@.len() / 16,
    ensures
        ({
            let model = block_at(entries@, count, index as int);
            &&& block.first == model.first
            &&& block.last == model.last
            &&& block.start == model.start
            &&& block.end == model.end
            &&& block.count == model.count
            &&& 1 <= block.count <= 128
        }),
{
    let length: usize = entries.len();
    assert(index * 16 + 16 <= length);
    let at: usize = index * ENTRY;
    let rest: usize = count as usize - index * BLOCK_POSITIONS;
    RawBlock {
        first: get_u32(entries, at),
        last: get_u32(entries, at + 4),
        start: get_u32(entries, at + 8) as usize,
        end: get_u32(entries, at + 12) as usize,
        count: if rest < BLOCK_POSITIONS {
            rest
        } else {
            BLOCK_POSITIONS
        },
    }
}

/// A directory and the payload that it describes.
#[verifier::ext_equal]
pub struct BlocksView {
    pub directory: DirectoryView,
    pub payload: Seq<u8>,
}

impl BlocksView {
    /// The bytes of one block.
    pub open spec fn block_bytes(self, index: int) -> Seq<u8> {
        self.payload.subrange(
            self.directory.block(index).start,
            self.directory.block(index).end,
        )
    }

    /// What seeking `target` gives: at most one block is decoded.
    pub open spec fn seek(self, target: u32) -> Result<SeekResult> {
        match self.directory.selected(target, 0) {
            None => Ok(SeekResult { position: None, decoded_positions: 0, decoded_bytes: 0 }),
            Some(block) => block_seek(
                block,
                self.payload.subrange(block.start, block.end),
                target,
            ),
        }
    }

    /// The first fault of the blocks from `index` on.
    pub open spec fn check_from(self, index: int) -> Result<()>
        decreases self.directory.blocks() - index,
    {
        if index >= self.directory.blocks() {
            Ok(())
        } else {
            match decoded_block(self.directory.block(index), self.block_bytes(index)) {
                Err(error) => Err(error),
                Ok(_) => self.check_from(index + 1),
            }
        }
    }

    /// The positions of the blocks from `index` on.
    pub open spec fn positions_from(self, index: int) -> Seq<u32>
        decreases self.directory.blocks() - index,
    {
        if index >= self.directory.blocks() {
            Seq::empty()
        } else {
            decoded_block(self.directory.block(index), self.block_bytes(index))->Ok_0
                + self.positions_from(index + 1)
        }
    }
}

/// The blocks that `bytes` hold.
pub open spec fn opened_blocks(bytes: Seq<u8>, max_positions: u32) -> Result<BlocksView> {
    if bytes.len() < 8 {
        fail(0, ErrorKind::Truncated)
    } else {
        match directory_len(bytes.take(8), max_positions) {
            Err(error) => Err(error),
            Ok(size) => if bytes.len() < size {
                fail(8, ErrorKind::Truncated)
            } else {
                match opened_directory(bytes.take(size), bytes.len() - size, max_positions) {
                    Err(error) => Err(error),
                    Ok(directory) => Ok(BlocksView { directory, payload: bytes.skip(size) }),
                }
            },
        }
    }
}

impl<'a> View for PositionBlocks<'a> {
    type V = BlocksView;

    closed spec fn view(&self) -> BlocksView {
        BlocksView { directory: self.directory@, payload: self.payload@ }
    }
}

/// Whether every block lies inside the payload.
pub open spec fn blocks_inside(view: BlocksView) -> bool {
    forall|i: int|
        0 <= i < view.directory.blocks() ==> (#[trigger] view.directory.block(i)).end
            <= view.payload.len()
}

impl<'a> PositionBlocks<'a> {
    #[verifier::type_invariant]
    closed spec fn inv(self) -> bool {
        blocks_chained(self.directory@) && blocks_inside(self@)
    }

    pub fn open(bytes: &'a [u8], max_positions: u32) -> (result: Result<Self>)
        ensures
            match opened_blocks(bytes@, max_positions) {
                Err(error) => result == Err::<Self, Error>(error),
                Ok(view) => result matches Ok(blocks) && blocks@ == view,
            },
    {
        let mut reader: Reader<'a> = Reader::new(bytes);
        let header: &'a [u8] = reader.take(HEADER)?;
        assert(header@ =~= bytes@.take(8));
        let size: usize = PositionDirectory::encoded_len(header, max_positions)?;
        reader.take(size - HEADER)?;
        let length: usize = reader.remaining();
        let payload: &'a [u8] = reader.take(length)?;
        assert(payload@ =~= bytes@.skip(size as int));
        assert(bytes@.subrange(0, size as int) =~= bytes@.take(size as int));
        let directory: PositionDirectory<'a> = PositionDirectory::open(
            &bytes[0..size],
            payload.len(),
            max_positions,
        )?;
        let blocks: usize = directory.blocks();
        proof {
            checked_blocks_chained(directory@, payload@.len() as int, 0, 0, None);
        }
        Ok(PositionBlocks { directory, payload })
    }

    pub fn len(self) -> (len: u32)
        ensures
            len == self@.directory.count,
    {
        self.directory.len()
    }

    pub fn is_empty(self) -> (empty: bool)
        ensures
            empty == (self@.directory.count == 0),
    {
        self.directory.is_empty()
    }

    pub fn blocks(self) -> (blocks: usize)
        ensures
            blocks == self@.directory.blocks(),
            blocks_chained(self@.directory),
            blocks_inside(self@),
    {
        proof {
            use_type_invariant(&self);
        }
        self.directory.blocks()
    }

    pub fn seek_ge(self, target: u32) -> (result: Result<SeekResult>)
        ensures
            result == self@.seek(target),
    {
        proof {
            use_type_invariant(&self);
            selected_inside(self@.directory, target, 0);
        }
        match self.directory.select(target) {
            Some(block) => {
                let range: core::ops::Range<usize> = block.byte_range();
                block.seek_ge(&self.payload[range.start..range.end], target)
            },
            None => Ok(SeekResult::default()),
        }
    }

    pub fn iter(self) -> (iter: PositionBlockIter<'a>)
        ensures
            iter@ == outcomes(IterState::start(self@)),
    {
        PositionBlockIter {
            view: self,
            next_block: 0,
            remaining: 0,
            reader: Reader::new(&self.payload[0..0]),
            previous: 0,
            last: 0,
            failed: false,
        }
    }

    #[verifier::loop_isolation(false)]
    pub fn validate_all(self) -> (result: Result<()>)
        ensures
            result == self@.check_from(0),
    {
        let blocks: usize = self.blocks();
        let mut index: usize = 0;
        while index < blocks
            invariant
                index <= blocks,
                self@.check_from(0) == self@.check_from(index as int),
            decreases blocks - index,
        {
            let block: PositionBlockRequest = self.directory.block(index);
            let range: core::ops::Range<usize> = block.byte_range();
            assert(self@.directory.block(index as int).end <= self@.payload.len());
            block.seek_ge(&self.payload[range.start..range.end], 0)?;
            index += 1;
        }
        Ok(())
    }
}

pub proof fn selected_inside(view: DirectoryView, target: u32, index: int)
    requires
        0 <= index,
    ensures
        view.selected(target, index) matches Some(block) ==> exists|i: int|
            0 <= i < view.blocks() && block == #[trigger] view.block(i),
    decreases view.blocks() - index,
{
    if index < view.blocks() && view.block(index).last < target {
        selected_inside(view, target, index + 1);
    }
}

/// Where an iteration over blocks stands.
#[verifier::ext_equal]
pub struct IterState {
    pub view: BlocksView,
    pub next_block: int,
    pub remaining: int,
    pub source: Seq<u8>,
    pub at: int,
    pub previous: u32,
    pub last: u32,
}

impl IterState {
    pub open spec fn start(view: BlocksView) -> IterState {
        IterState {
            view,
            next_block: 0,
            remaining: 0,
            source: Seq::empty(),
            at: 0,
            previous: 0,
            last: 0,
        }
    }

    pub open spec fn finished(self) -> bool {
        self.remaining <= 0 && self.next_block >= self.view.directory.blocks()
    }

    /// The state after reading one position, before the check at a block's end.
    pub open spec fn moved(self) -> Result<IterState> {
        if self.remaining <= 0 {
            let block = self.view.directory.block(self.next_block);
            Ok(
                IterState {
                    next_block: self.next_block + 1,
                    remaining: block.count - 1,
                    source: self.view.block_bytes(self.next_block),
                    at: 0,
                    previous: block.first,
                    last: block.last,
                    ..self
                },
            )
        } else {
            match var_u32_at(self.source, self.at) {
                Err(error) => Err(error),
                Ok((delta, len)) => if delta == 0 {
                    fail(self.at + len, ErrorKind::InvalidOrder)
                } else if self.previous + delta > u32::MAX {
                    fail(self.at + len, ErrorKind::Overflow)
                } else {
                    Ok(
                        IterState {
                            remaining: self.remaining - 1,
                            at: self.at + len,
                            previous: (self.previous + delta) as u32,
                            ..self
                        },
                    )
                },
            }
        }
    }

    /// The state after one position; a block's end is checked with its last position.
    pub open spec fn step(self) -> Result<IterState> {
        match self.moved() {
            Err(error) => Err(error),
            Ok(state) => if state.remaining > 0 {
                Ok(state)
            } else if state.at != state.source.len() {
                fail(state.at, ErrorKind::TrailingBytes)
            } else if state.previous != state.last {
                fail(state.at, ErrorKind::InvalidValue)
            } else {
                Ok(state)
            },
        }
    }
}

/// What the iteration yields: positions up to the first failure, which ends it.
pub open spec fn outcomes(state: IterState) -> Seq<Result<u32>>
    decreases state.view.directory.blocks() - state.next_block, state.remaining,
{
    if state.finished() {
        Seq::empty()
    } else {
        match state.step() {
            Err(error) => seq![Err(error)],
            Ok(next) => seq![Ok(next.previous)] + outcomes(next),
        }
    }
}

/// An iterator over the positions of all blocks that stops at the first failure.
pub struct PositionBlockIter<'a> {
    view: PositionBlocks<'a>,
    next_block: usize,
    remaining: usize,
    reader: Reader<'a>,
    previous: u32,
    last: u32,
    failed: bool,
}

impl<'a> PositionBlockIter<'a> {
    closed spec fn state(self) -> IterState {
        IterState {
            view: self.view@,
            next_block: self.next_block as int,
            remaining: self.remaining as int,
            source: self.reader.source(),
            at: self.reader.offset() as int,
            previous: self.previous,
            last: self.last,
        }
    }

    /// Yields the next position, or the failure that ends the iteration.
    pub fn next(&mut self) -> (item: Option<Result<u32>>)
        ensures
            if old(self)@.len() == 0 {
                item is None && final(self)@ == old(self)@
            } else {
                item == Some(old(self)@[0]) && final(self)@ == old(self)@.drop_first()
            },
    {
        let blocks: usize = self.view.blocks();
        if self.failed || (self.remaining == 0 && self.next_block >= blocks) {
            return None;
        }
        let result: Result<u32> = self.advance();
        match result {
            Ok(_) => {},
            Err(_) => {
                self.failed = true;
            },
        }
        assert(self@ =~= old(self)@.drop_first());
        Some(result)
    }

    fn advance(&mut self) -> (result: Result<u32>)
        requires
            !old(self).state().finished(),
        ensures
            final(self).failed == old(self).failed,
            match old(self).state().step() {
                Err(error) => result == Err::<u32, Error>(error),
                Ok(state) => result == Ok::<u32, Error>(state.previous) && final(self).state()
                    == state,
            },
    {
        let blocks: usize = self.view.blocks();
        if self.remaining == 0 {
            let block: PositionBlockRequest = self.view.directory.block(self.next_block);
            let range: core::ops::Range<usize> = block.byte_range();
            assert(self.view@.directory.block(self.next_block as int).end
                <= self.view@.payload.len());
            self.next_block += 1;
            self.reader = Reader::new(&self.view.payload[range.start..range.end]);
            self.previous = block.first;
            self.last = block.last;
            self.remaining = block.count - 1;
        } else {
            let delta: u32 = self.reader.var_u32()?;
            if delta == 0 {
                return Err(Error::new(self.reader.offset(), ErrorKind::InvalidOrder));
            }
            if delta > u32::MAX - self.previous {
                return Err(Error::new(self.reader.offset(), ErrorKind::Overflow));
            }
            self.previous = self.previous + delta;
            self.remaining -= 1;
        }
        if self.remaining == 0 {
            self.reader.finish()?;
            if self.previous != self.last {
                return Err(Error::new(self.reader.offset(), ErrorKind::InvalidValue));
            }
        }
        Ok(self.previous)
    }
}

impl<'a> View for PositionBlockIter<'a> {
    type V = Seq<Result<u32>>;

    /// The outcomes still to come.
    closed spec fn view(&self) -> Seq<Result<u32>> {
        if self.failed {
            Seq::empty()
        } else {
            outcomes(self.state())
        }
    }
}

/// Where the block that starts at position `index` ends.
pub open spec fn block_end(positions: Seq<u32>, block: int) -> int {
    if (block + 1) * 128 < positions.len() {
        (block + 1) * 128
    } else {
        positions.len() as int
    }
}

/// The varints of the differences inside blocks, for the first `count` positions.
pub open spec fn gaps(positions: Seq<u32>, count: int) -> Seq<u8>
    decreases count,
{
    if count <= 0 {
        Seq::empty()
    } else if (count - 1) % 128 == 0 {
        gaps(positions, count - 1)
    } else {
        gaps(positions, count - 1) + var_bytes((positions[count - 1] - positions[count - 2]) as nat)
    }
}

/// The directory entry of one block.
pub open spec fn entry_code(positions: Seq<u32>, block: int) -> Seq<u8> {
    u32_bytes(positions[block * 128]) + u32_bytes(positions[block_end(positions, block) - 1])
        + u32_bytes(gaps(positions, block * 128).len() as u32) + u32_bytes(
        gaps(positions, block_end(positions, block)).len() as u32,
    )
}

/// The directory entries of the first `blocks` blocks.
pub open spec fn entries_code(positions: Seq<u32>, blocks: int) -> Seq<u8>
    decreases blocks,
{
    if blocks <= 0 {
        Seq::empty()
    } else {
        entries_code(positions, blocks - 1) + entry_code(positions, blocks - 1)
    }
}

/// The directory of all blocks.
pub open spec fn directory_code(positions: Seq<u32>) -> Seq<u8> {
    blocks_magic() + u32_bytes(positions.len() as u32) + entries_code(
        positions,
        block_count(positions.len() as int),
    )
}

/// A directory followed by its payload.
pub open spec fn encoded_blocks(positions: Seq<u32>) -> Seq<u8> {
    directory_code(positions) + gaps(positions, positions.len() as int)
}

/// The first position from `index` on that is not below its successor.
pub open spec fn first_descent(positions: Seq<u32>, index: int) -> Option<int>
    decreases positions.len() - index,
{
    if index + 1 >= positions.len() {
        None
    } else if positions[index] >= positions[index + 1] {
        Some(index)
    } else {
        first_descent(positions, index + 1)
    }
}

/// Why positions cannot be encoded into `room` bytes, if they cannot.
pub open spec fn blocks_error(positions: Seq<u32>, room: nat, max_positions: u32) -> Option<Error> {
    let payload = gaps(positions, positions.len() as int).len();
    if positions.len() > max_positions {
        Some(Error { offset: 0, kind: ErrorKind::LimitExceeded })
    } else if first_descent(positions, 0) is Some {
        Some(
            Error {
                offset: first_descent(positions, 0)->Some_0 as usize,
                kind: ErrorKind::InvalidOrder,
            },
        )
    } else if payload > usize::MAX {
        Some(Error { offset: 0, kind: ErrorKind::Overflow })
    } else if payload > u32::MAX {
        Some(Error { offset: 0, kind: ErrorKind::LimitExceeded })
    } else if 8 + 16 * block_count(positions.len() as int) + payload > usize::MAX {
        Some(Error { offset: 0, kind: ErrorKind::Overflow })
    } else if room < 8 + 16 * block_count(positions.len() as int) + payload {
        Some(Error { offset: 0, kind: ErrorKind::Truncated })
    } else {
        None
    }
}

proof fn ascending(positions: Seq<u32>, index: int)
    requires
        0 <= index,
        first_descent(positions, index) is None,
        forall|i: int, j: int| 0 <= i < j <= index && j < positions.len() ==> positions[i] < positions[j],
    ensures
        increasing(positions),
    decreases positions.len() - index,
{
    if index + 1 < positions.len() {
        ascending(positions, index + 1);
    }
}

proof fn gaps_grow(positions: Seq<u32>, low: int, high: int)
    requires
        0 <= low <= high,
    ensures
        gaps(positions, low).len() <= gaps(positions, high).len(),
        gaps(positions, high).take(gaps(positions, low).len() as int) == gaps(positions, low),
    decreases high - low,
{
    if low < high {
        gaps_grow(positions, low, high - 1);
        let short = gaps(positions, low);
        let middle = gaps(positions, high - 1);
        assert(gaps(positions, high).take(short.len() as int) =~= middle.take(short.len() as int));
    } else {
        assert(gaps(positions, high).take(gaps(positions, low).len() as int) =~= gaps(
            positions,
            low,
        ));
    }
}

/// The encoded size of all blocks' differences.
fn payload_size(positions: &[u32]) -> (size: u64)
    requires
        positions@.len() <= u32::MAX,
        increasing(positions@),
    ensures
        size == gaps(positions@, positions@.len() as int).len(),
{
    let mut size: u64 = 0;
    let mut index: usize = 0;
    while index < positions.len()
        invariant
            index <= positions@.len(),
            positions@.len() <= u32::MAX,
            increasing(positions@),
            size == gaps(positions@, index as int).len(),
            size <= 5 * index,
        decreases positions@.len() - index,
    {
        if index % BLOCK_POSITIONS != 0 {
            size = size + var_u32_len(positions[index] - positions[index - 1]) as u64;
        }
        index += 1;
    }
    size
}

/// Writes the differences of the positions from `start` to `end`, inside one block.
fn write_gaps(positions: &[u32], start: usize, end: usize, output: &mut [u8], at: usize) -> (next:
    usize)
    requires
        increasing(positions@),
        start < end <= positions@.len(),
        start % 128 == 0,
        end - start <= 128,
        at == gaps(positions@, start as int).len(),
        gaps(positions@, end as int).len() <= old(output)@.len(),
    ensures
        next == gaps(positions@, end as int).len(),
        final(output)@.len() == old(output)@.len(),
        final(output)@.take(at as int) == old(output)@.take(at as int) ==> final(output)@.take(
            next as int,
        ) == old(output)@.take(at as int) + gaps(positions@, end as int).skip(at as int),
        final(output)@.take(at as int) == old(output)@.take(at as int),
{
    let room: usize = output.len();
    let mut next: usize = at;
    let mut index: usize = start + 1;
    proof {
        assert(gaps(positions@, start + 1) == gaps(positions@, start as int));
        gaps_grow(positions@, start + 1, end as int);
        assert(gaps(positions@, start + 1).skip(at as int) =~= Seq::<u8>::empty());
    }
    while index < end
        invariant
            increasing(positions@),
            start + 1 <= index <= end <= positions@.len(),
            start % 128 == 0,
            end - start <= 128,
            at <= next,
            next == gaps(positions@, index as int).len(),
            gaps(positions@, end as int).len() <= output@.len(),
            output@.len() == room,
            output@.len() == old(output)@.len(),
            output@.take(at as int) == old(output)@.take(at as int),
            output@.subrange(at as int, next as int) == gaps(positions@, index as int).skip(
                at as int,
            ),
        decreases end - index,
    {
        let ghost done = output@;
        let gap: u32 = positions[index] - positions[index - 1];
        let mut code: [u8; 5] = [0u8; 5];
        let ghost empty = code@;
        proof {
            var_bytes_len(gap as nat);
            gaps_grow(positions@, index + 1, end as int);
            assert(gaps(positions@, index + 1) == gaps(positions@, index as int) + var_bytes(
                gap as nat,
            ));
        }
        let mut writer: Writer = Writer::new(&mut code);
        let written: Result<()> = writer.var_u32(gap);
        assert(written is Ok);
        let len: usize = writer.len();
        assert(code@.take(len as int) =~= var_bytes(gap as nat));
        let mut i: usize = 0;
        while i < len
            invariant
                i <= len <= 5,
                next + len <= room,
                output@.len() == room,
                output@.len() == done.len(),
                forall|j: int| 0 <= j < next ==> output@[j] == done[j],
                forall|j: int| 0 <= j < i ==> output@[next + j] == code@[j],
            decreases len - i,
        {
            output[next + i] = code[i];
            i += 1;
        }
        proof {
            let whole = gaps(positions@, index + 1);
            assert(output@.take(at as int) =~= done.take(at as int));
            assert forall|j: int| at <= j < next + len implies output@[j] == whole[j] by {
                if j < next {
                    assert(done.subrange(at as int, next as int)[j - at] == done[j]);
                    assert(gaps(positions@, index as int).skip(at as int)[j - at] == gaps(
                        positions@,
                        index as int,
                    )[j]);
                } else {
                    assert(output@[next + (j - next)] == code@[j - next]);
                    assert(code@.take(len as int)[j - next] == code@[j - next]);
                }
            }
            assert(output@.subrange(at as int, next + len) =~= whole.skip(at as int));
        }
        next = next + len;
        index += 1;
    }
    assert(output@.take(next as int) =~= output@.take(at as int) + output@.subrange(
        at as int,
        next as int,
    ));
    next
}

fn entry_array(first: u32, last: u32, start: u32, end: u32) -> (bytes: [u8; 16])
    ensures
        bytes@ == u32_bytes(first) + u32_bytes(last) + u32_bytes(start) + u32_bytes(end),
{
    let mut bytes: [u8; 16] = [0u8; 16];
    let ghost before = bytes@;
    assert(before =~= splice(before, 0, Seq::empty()));
    assert(Seq::<u8>::empty() + u32_bytes(first) =~= u32_bytes(first));
    let mut writer: Writer = Writer::new(&mut bytes);
    let a: Result<()> = writer.u32(first);
    let b: Result<()> = writer.u32(last);
    let c: Result<()> = writer.u32(start);
    let d: Result<()> = writer.u32(end);
    assert(a is Ok && b is Ok && c is Ok && d is Ok);
    assert(bytes@ =~= u32_bytes(first) + u32_bytes(last) + u32_bytes(start) + u32_bytes(end));
    bytes
}

/// Fills a directory and its payload, which have the exact sizes.
#[verifier::loop_isolation(false)]
fn write_blocks(positions: &[u32], directory: &mut [u8], payload: &mut [u8])
    requires
        increasing(positions@),
        positions@.len() <= u32::MAX,
        old(directory)@.len() == 8 + 16 * block_count(positions@.len() as int),
        old(payload)@.len() == gaps(positions@, positions@.len() as int).len(),
        old(payload)@.len() <= u32::MAX,
    ensures
        final(directory)@ == directory_code(positions@),
        final(payload)@ == gaps(positions@, positions@.len() as int),
{
    let total: usize = positions.len();
    let count: u32 = total as u32;
    let blocks: usize = ((count as u64 + 127) / 128) as usize;
    let ghost before = directory@;
    let magic: [u8; 4] = [0x50, 0x42, 0x30, 0x31];
    assert(magic@ =~= blocks_magic());
    assert(before =~= splice(before, 0, Seq::empty()));
    assert(Seq::<u8>::empty() + magic@ =~= magic@);
    let mut header: Writer = Writer::new(directory);
    let written: Result<()> = header.put(&magic);
    assert(written is Ok);
    let written: Result<()> = header.u32(count);
    assert(written is Ok);
    let ghost lead = blocks_magic() + u32_bytes(count);
    assert(lead + entries_code(positions@, 0) =~= lead);
    let mut next: usize = 0;
    let mut block: usize = 0;
    assert(payload@.take(0) =~= gaps(positions@, 0));
    while block < blocks
        invariant
            block <= blocks,
            header.offset == 8 + 16 * block,
            entries_code(positions@, block as int).len() == 16 * block,
            header.bytes@ == splice(before, 0, lead + entries_code(positions@, block as int)),
            final(header.bytes)@ == after_borrow(directory)@,
            next == gaps(positions@, block_start(positions@, block as int)).len(),
            payload@.len() == old(payload)@.len(),
            payload@.take(next as int) == gaps(positions@, block_start(positions@, block as int)),
        decreases blocks - block,
    {
        let start: usize = block * BLOCK_POSITIONS;
        let end: usize = if total - start < BLOCK_POSITIONS {
            total
        } else {
            start + BLOCK_POSITIONS
        };
        let ghost done = lead + entries_code(positions@, block as int);
        let from: usize = next;
        let ghost earlier = payload@;
        proof {
            gaps_grow(positions@, start as int, end as int);
            gaps_grow(positions@, end as int, total as int);
        }
        next = write_gaps(positions, start, end, payload, from);
        proof {
            let whole = gaps(positions@, end as int);
            assert(whole =~= whole.take(from as int) + whole.skip(from as int));
        }
        let entry: [u8; 16] = entry_array(
            positions[start],
            positions[end - 1],
            from as u32,
            next as u32,
        );
        let written: Result<()> = header.put(&entry);
        assert(written is Ok);
        block += 1;
        assert(done + entry@ =~= lead + entries_code(positions@, block as int));
    }
    proof {
        assert(payload@.take(payload@.len() as int) =~= payload@);
    }
}

/// Where a block starts.
spec fn block_start(positions: Seq<u32>, block: int) -> int {
    if block * 128 < positions.len() {
        block * 128
    } else {
        positions.len() as int
    }
}

/// Validates input and output size before mutation; no allocation or native casts.
#[verifier::loop_isolation(false)]
pub fn encode(positions: &[u32], output: &mut [u8], max_positions: u32) -> (result: Result<usize>)
    ensures
        match blocks_error(positions@, old(output)@.len(), max_positions) {
            Some(error) => result == Err::<usize, Error>(error) && final(output)@ == old(output)@,
            None => result == Ok::<usize, Error>(encoded_blocks(positions@).len() as usize)
                && final(output)@ == splice(old(output)@, 0, encoded_blocks(positions@))
                && encoded_blocks(positions@).len() <= old(output)@.len(),
        },
{
    let total_positions: usize = positions.len();
    if total_positions > max_positions as usize {
        return Err(Error::new(0, ErrorKind::LimitExceeded));
    }
    let count: u32 = total_positions as u32;
    let mut index: usize = 0;
    while index < total_positions && total_positions - index > 1
        invariant
            index <= total_positions,
            first_descent(positions@, 0) == first_descent(positions@, index as int),
        decreases total_positions - index,
    {
        if positions[index] >= positions[index + 1] {
            return Err(Error::new(index, ErrorKind::InvalidOrder));
        }
        index += 1;
    }
    proof {
        ascending(positions@, 0);
        entries_len(positions@, block_count(positions@.len() as int));
    }
    let blocks: usize = ((count as u64 + 127) / 128) as usize;
    let directory_len: usize = HEADER + blocks * ENTRY;
    let payload_len: u64 = payload_size(positions);
    if payload_len > usize::MAX as u64 {
        return Err(Error::new(0, ErrorKind::Overflow));
    }
    if payload_len > u32::MAX as u64 {
        return Err(Error::new(0, ErrorKind::LimitExceeded));
    }
    if payload_len > (usize::MAX - directory_len) as u64 {
        return Err(Error::new(0, ErrorKind::Overflow));
    }
    let total: usize = directory_len + payload_len as usize;
    if output.len() < total {
        return Err(Error::new(0, ErrorKind::Truncated));
    }
    let ghost before = output@;
    let (area, _rest): (&mut [u8], &mut [u8]) = output.split_at_mut(total);
    let (directory, payload): (&mut [u8], &mut [u8]) = area.split_at_mut(directory_len);
    write_blocks(positions, directory, payload);
    assert(output@ =~= splice(before, 0, encoded_blocks(positions@)));
    Ok(total)
}

proof fn entries_len(positions: Seq<u32>, blocks: int)
    requires
        0 <= blocks,
    ensures
        entries_code(positions, blocks).len() == 16 * blocks,
    decreases blocks,
{
    if blocks > 0 {
        entries_len(positions, blocks - 1);
    }
}

proof fn gaps_bounds(positions: Seq<u32>, block: int, index: int)
    requires
        increasing(positions),
        0 <= block,
        block * 128 < index <= block_end(positions, block),
        block * 128 < positions.len(),
    ensures
        index - block * 128 - 1 <= gaps(positions, index).len() - gaps(
            positions,
            block * 128,
        ).len() <= 5 * (index - block * 128 - 1),
        positions[index - 1] - positions[block * 128] >= index - block * 128 - 1,
    decreases index,
{
    if index > block * 128 + 1 {
        gaps_bounds(positions, block, index - 1);
        assert((index - 1) % 128 != 0);
        var_bytes_len((positions[index - 1] - positions[index - 2]) as nat);
    } else {
        assert((index - 1) % 128 == 0);
    }
}

proof fn entry_of_code(positions: Seq<u32>, blocks: int, block: int)
    requires
        0 <= block < blocks,
    ensures
        entries_code(positions, blocks).len() == 16 * blocks,
        entries_code(positions, blocks).subrange(block * 16, block * 16 + 16) == entry_code(
            positions,
            block,
        ),
    decreases blocks,
{
    entries_len(positions, blocks);
    entries_len(positions, blocks - 1);
    let code = entries_code(positions, blocks);
    let short = entries_code(positions, blocks - 1);
    if block < blocks - 1 {
        entry_of_code(positions, blocks - 1, block);
        assert(code.subrange(block * 16, block * 16 + 16) =~= short.subrange(
            block * 16,
            block * 16 + 16,
        ));
    } else {
        assert(code.subrange(block * 16, block * 16 + 16) =~= entry_code(positions, block));
    }
}

/// The block that an encoder describes in entry `block`.
pub open spec fn encoded_block(positions: Seq<u32>, block: int) -> BlockModel {
    BlockModel {
        first: positions[block * 128],
        last: positions[block_end(positions, block) - 1],
        start: gaps(positions, block * 128).len() as int,
        end: gaps(positions, block_end(positions, block)).len() as int,
        count: block_end(positions, block) - block * 128,
    }
}

/// Whether positions have an encoding in blocks.
pub open spec fn encodable(positions: Seq<u32>, max_positions: u32) -> bool {
    &&& increasing(positions)
    &&& positions.len() <= max_positions
    &&& gaps(positions, positions.len() as int).len() <= u32::MAX
    &&& encoded_blocks(positions).len() <= usize::MAX
}

proof fn block_of_code(positions: Seq<u32>, block: int)
    requires
        positions.len() <= u32::MAX,
        gaps(positions, positions.len() as int).len() <= u32::MAX,
        0 <= block < block_count(positions.len() as int),
    ensures
        block_at(
            entries_code(positions, block_count(positions.len() as int)),
            positions.len() as u32,
            block,
        ) == encoded_block(positions, block),
{
    let blocks = block_count(positions.len() as int);
    let entries = entries_code(positions, blocks);
    let at = block * 16;
    let code = entry_code(positions, block);
    let start = gaps(positions, block * 128).len() as u32;
    let end = gaps(positions, block_end(positions, block)).len() as u32;
    entry_of_code(positions, blocks, block);
    gaps_grow(positions, block * 128, positions.len() as int);
    gaps_grow(positions, block_end(positions, block), positions.len() as int);
    assert(entries.subrange(at, at + 4) =~= code.subrange(0, 4));
    assert(code.subrange(0, 4) =~= u32_bytes(positions[block * 128]));
    assert(entries.subrange(at + 4, at + 8) =~= code.subrange(4, 8));
    assert(code.subrange(4, 8) =~= u32_bytes(positions[block_end(positions, block) - 1]));
    assert(entries.subrange(at + 8, at + 12) =~= code.subrange(8, 12));
    assert(code.subrange(8, 12) =~= u32_bytes(start));
    assert(entries.subrange(at + 12, at + 16) =~= code.subrange(12, 16));
    assert(code.subrange(12, 16) =~= u32_bytes(end));
    le_u32_of_bytes(entries, at, positions[block * 128]);
    le_u32_of_bytes(entries, at + 4, positions[block_end(positions, block) - 1]);
    le_u32_of_bytes(entries, at + 8, start);
    le_u32_of_bytes(entries, at + 12, end);
}

proof fn checked_of_code(positions: Seq<u32>, index: int)
    requires
        increasing(positions),
        positions.len() <= u32::MAX,
        gaps(positions, positions.len() as int).len() <= u32::MAX,
        0 <= index <= block_count(positions.len() as int),
    ensures
        ({
            let blocks = block_count(positions.len() as int);
            let payload = gaps(positions, positions.len() as int).len() as int;
            check_blocks(
                entries_code(positions, blocks),
                positions.len() as u32,
                payload,
                index,
                gaps(positions, block_start(positions, index)).len() as int,
                if index == 0 {
                    None
                } else {
                    Some(encoded_block(positions, index - 1).last)
                },
            ) == Ok::<int, Error>(payload)
        }),
    decreases block_count(positions.len() as int) - index,
{
    let blocks = block_count(positions.len() as int);
    entries_len(positions, blocks);
    if index < blocks {
        block_of_code(positions, index);
        gaps_bounds(positions, index, block_end(positions, index));
        gaps_grow(positions, block_end(positions, index), positions.len() as int);
        checked_of_code(positions, index + 1);
        assert(block_start(positions, index + 1) == block_end(positions, index));
    } else {
        assert(block_start(positions, index) == positions.len());
    }
}

proof fn decode_of_gaps(positions: Seq<u32>, block: int, index: int)
    requires
        increasing(positions),
        gaps(positions, positions.len() as int).len() <= usize::MAX,
        0 <= block,
        block * 128 < index <= block_end(positions, block),
        block * 128 < positions.len(),
    ensures
        ({
            let start = gaps(positions, block * 128).len() as int;
            let end = gaps(positions, block_end(positions, block)).len() as int;
            let bytes = gaps(positions, positions.len() as int).subrange(start, end);
            decode(
                bytes,
                gaps(positions, index).len() - start,
                (block_end(positions, block) - index) as nat,
                positions[index - 1],
                false,
            ) == Ok::<(Seq<u32>, int), Error>(
                (positions.subrange(index, block_end(positions, block)), end - start),
            )
        }),
    decreases block_end(positions, block) - index,
{
    let all = gaps(positions, positions.len() as int);
    let start = gaps(positions, block * 128).len() as int;
    let last = block_end(positions, block);
    let end = gaps(positions, last).len() as int;
    gaps_grow(positions, block * 128, index);
    gaps_grow(positions, index, last);
    gaps_grow(positions, last, positions.len() as int);
    let bytes = all.subrange(start, end);
    if index == last {
        assert(positions.subrange(index, last) =~= Seq::empty());
    } else {
        let at = gaps(positions, index).len() - start;
        let gap = (positions[index] - positions[index - 1]) as nat;
        let code = var_bytes(gap);
        assert(index % 128 != 0);
        assert(gaps(positions, index + 1) == gaps(positions, index) + code);
        gaps_grow(positions, index + 1, last);
        gaps_grow(positions, index + 1, positions.len() as int);
        let next = gaps(positions, index + 1);
        assert(bytes.subrange(at, at + code.len()) =~= all.take(next.len() as int).subrange(
            start + at,
            start + at + code.len(),
        ));
        assert(next.subrange(start + at, start + at + code.len()) =~= code);
        var_u32_read_of_write(bytes, at, gap as u32);
        decode_of_gaps(positions, block, index + 1);
        assert(seq![positions[index]] + positions.subrange(index + 1, last) =~= positions.subrange(
            index,
            last,
        ));
    }
}

/// What an encoder's payload decodes to, block by block.
pub proof fn block_decodes(positions: Seq<u32>, block: int)
    requires
        increasing(positions),
        gaps(positions, positions.len() as int).len() <= usize::MAX,
        0 <= block,
        block * 128 < positions.len(),
    ensures
        ({
            let model = encoded_block(positions, block);
            decoded_block(
                model,
                gaps(positions, positions.len() as int).subrange(model.start, model.end),
            ) == Ok::<Seq<u32>, Error>(
                positions.subrange(block * 128, block_end(positions, block)),
            )
        }),
{
    let model = encoded_block(positions, block);
    let last = block_end(positions, block);
    gaps_grow(positions, block * 128, last);
    gaps_grow(positions, last, positions.len() as int);
    assert(gaps(positions, block * 128 + 1) == gaps(positions, block * 128));
    decode_of_gaps(positions, block, block * 128 + 1);
    assert(seq![positions[block * 128]] + positions.subrange(block * 128 + 1, last)
        =~= positions.subrange(block * 128, last));
}

/// What `encode` writes opens, and decodes to the same positions.
pub proof fn blocks_round_trip(positions: Seq<u32>, max_positions: u32)
    requires
        encodable(positions, max_positions),
    ensures
        opened_blocks(encoded_blocks(positions), max_positions) matches Ok(view)
            && view.directory.count == positions.len() && view.check_from(0) == Ok::<(), Error>(())
            && view.positions_from(0) == positions,
{
    let bytes = encoded_blocks(positions);
    let count = positions.len() as u32;
    let blocks = block_count(positions.len() as int);
    let entries = entries_code(positions, blocks);
    let payload = gaps(positions, positions.len() as int);
    let size = 8 + 16 * blocks;
    let directory = directory_code(positions);
    entries_len(positions, blocks);
    assert(directory.len() == size);
    assert(bytes.take(8).take(4) =~= blocks_magic());
    assert(bytes.take(8).subrange(4, 8) =~= u32_bytes(count));
    le_u32_of_bytes(bytes.take(8), 4, count);
    assert(bytes.take(size) =~= directory);
    assert(bytes.skip(size) =~= payload);
    assert(directory.take(8) =~= bytes.take(8));
    assert(directory.subrange(4, 8) =~= u32_bytes(count));
    le_u32_of_bytes(directory, 4, count);
    assert(directory.subrange(8, size) =~= entries);
    checked_of_code(positions, 0);
    let view = opened_blocks(bytes, max_positions)->Ok_0;
    assert(view.directory.entries == entries);
    assert(view.payload == payload);
    rest_decodes(positions, view, 0);
    assert(positions.skip(0) =~= positions);
}

proof fn rest_decodes(positions: Seq<u32>, view: BlocksView, block: int)
    requires
        increasing(positions),
        positions.len() <= u32::MAX,
        gaps(positions, positions.len() as int).len() <= u32::MAX,
        0 <= block <= block_count(positions.len() as int),
        view.directory.count == positions.len(),
        view.directory.entries == entries_code(positions, block_count(positions.len() as int)),
        view.payload == gaps(positions, positions.len() as int),
    ensures
        view.check_from(block) == Ok::<(), Error>(()),
        view.positions_from(block) == positions.skip(block_start(positions, block)),
    decreases block_count(positions.len() as int) - block,
{
    let blocks = block_count(positions.len() as int);
    entries_len(positions, blocks);
    if block < blocks {
        block_of_code(positions, block);
        block_decodes(positions, block);
        rest_decodes(positions, view, block + 1);
        assert(block_start(positions, block + 1) == block_end(positions, block));
        assert(positions.subrange(block * 128, block_end(positions, block)) + positions.skip(
            block_end(positions, block),
        ) =~= positions.skip(block * 128));
    } else {
        assert(positions.skip(positions.len() as int) =~= Seq::empty());
    }
}

proof fn first_at_least_join(left: Seq<u32>, right: Seq<u32>, target: u32)
    ensures
        first_at_least(left + right, target) == (match first_at_least(left, target) {
            Some(found) => Some(found),
            None => first_at_least(right, target),
        }),
    decreases left.len(),
{
    if left.len() == 0 {
        assert(left + right =~= right);
    } else {
        assert((left + right).drop_first() =~= left.drop_first() + right);
        first_at_least_join(left.drop_first(), right, target);
    }
}

proof fn first_at_least_none(positions: Seq<u32>, target: u32)
    requires
        increasing(positions),
        positions.len() > 0,
    ensures
        first_at_least(positions, target) is None <==> positions.last() < target,
    decreases positions.len(),
{
    let rest = positions.drop_first();
    if rest.len() > 0 {
        assert forall|i: int, j: int| 0 <= i < j < rest.len() implies rest[i] < rest[j] by {
            assert(positions[i + 1] < positions[j + 1]);
        }
        first_at_least_none(rest, target);
        assert(rest.last() == positions.last());
        assert(positions[0] < positions[positions.len() - 1]);
    } else {
        assert(first_at_least(rest, target) is None);
    }
}

pub proof fn decoded_shape(block: BlockModel, bytes: Seq<u8>)
    requires
        decoded_block(block, bytes) is Ok,
        block.count >= 1,
    ensures
        increasing(decoded_block(block, bytes)->Ok_0),
        decoded_block(block, bytes)->Ok_0.len() > 0,
        decoded_block(block, bytes)->Ok_0.last() == block.last,
        decoded_block(block, bytes)->Ok_0[0] == block.first,
{
    decode_increasing(bytes, 0, (block.count - 1) as nat, block.first, false);
    let rest = decode(bytes, 0, (block.count - 1) as nat, block.first, false)->Ok_0.0;
    let positions = seq![block.first] + rest;
    assert forall|i: int, j: int| 0 <= i < j < positions.len() implies positions[i]
        < positions[j] by {
        if i > 0 {
            assert(rest[i - 1] < rest[j - 1]);
        }
    }
}

/// Seeking decodes at most one block and finds what a scan of all positions
/// would: the first at or after the target.
pub proof fn seek_equals_scan(view: BlocksView, target: u32, index: int)
    requires
        0 <= index,
        view.check_from(index) is Ok,
        forall|i: int|
            index <= i < view.directory.blocks() ==> (#[trigger] view.directory.block(i)).count
                >= 1,
    ensures
        match view.directory.selected(target, index) {
            None => first_at_least(view.positions_from(index), target) is None,
            Some(block) => first_at_least(view.positions_from(index), target) == first_at_least(
                decoded_block(block, view.payload.subrange(block.start, block.end))->Ok_0,
                target,
            ) && first_at_least(view.positions_from(index), target) is Some,
        },
    decreases view.directory.blocks() - index,
{
    if index < view.directory.blocks() {
        let block = view.directory.block(index);
        let positions = decoded_block(block, view.block_bytes(index))->Ok_0;
        decoded_shape(block, view.block_bytes(index));
        first_at_least_none(positions, target);
        first_at_least_join(positions, view.positions_from(index + 1), target);
        if block.last < target {
            seek_equals_scan(view, target, index + 1);
        }
    }
}

proof fn block_outcomes(state: IterState)
    requires
        state.remaining >= 0,
        state.at >= 0,
        state.remaining == 0 ==> state.at == state.source.len() && state.previous == state.last,
        decode(state.source, state.at, state.remaining as nat, state.previous, false) is Ok,
        ({
            let (rest, end) = decode(
                state.source,
                state.at,
                state.remaining as nat,
                state.previous,
                false,
            )->Ok_0;
            &&& end == state.source.len()
            &&& (seq![state.previous] + rest).last() == state.last
        }),
        forall|i: int|
            state.next_block <= i < state.view.directory.blocks() ==> (
            #[trigger] state.view.directory.block(i)).count >= 1,
        0 <= state.next_block,
        state.view.check_from(state.next_block) is Ok,
    ensures
        ({
            let rest = decode(
                state.source,
                state.at,
                state.remaining as nat,
                state.previous,
                false,
            )->Ok_0.0;
            outcomes(state) == (rest + state.view.positions_from(state.next_block)).map_values(
                |position: u32| Ok::<u32, Error>(position),
            )
        }),
    decreases state.view.directory.blocks() - state.next_block, state.remaining,
{
    let ok = |position: u32| Ok::<u32, Error>(position);
    let rest = decode(
        state.source,
        state.at,
        state.remaining as nat,
        state.previous,
        false,
    )->Ok_0.0;
    let later = state.view.positions_from(state.next_block);
    if state.finished() {
        assert((rest + later).map_values(ok) =~= Seq::empty());
    } else if state.remaining > 0 {
        let (position, len) = next_position(state.source, state.at, state.previous, false)->Ok_0;
        var_u32_canonical(state.source, state.at);
        let next = state.moved()->Ok_0;
        let tail = decode(
            state.source,
            state.at + len,
            (state.remaining - 1) as nat,
            position,
            false,
        )->Ok_0.0;
        assert(rest == seq![position] + tail);
        if next.remaining == 0 {
            assert((seq![state.previous] + rest).last() == position);
        } else {
            decode_nonempty(
                state.source,
                state.at + len,
                (state.remaining - 1) as nat,
                position,
            );
            assert((seq![state.previous] + rest).last() == (seq![position] + tail).last());
        }
        block_outcomes(next);
        assert((rest + later).map_values(ok) =~= seq![ok(position)] + (tail + later).map_values(
            ok,
        ));
    } else {
        let block = state.view.directory.block(state.next_block);
        let bytes = state.view.block_bytes(state.next_block);
        let next = state.moved()->Ok_0;
        let tail = decode(bytes, 0, (block.count - 1) as nat, block.first, false)->Ok_0.0;
        let more = state.view.positions_from(state.next_block + 1);
        assert(decoded_block(block, bytes) is Ok);
        if next.remaining == 0 {
            assert(seq![block.first] + tail =~= seq![block.first]);
        }
        block_outcomes(next);
        assert(rest =~= Seq::empty());
        assert((rest + later) =~= seq![block.first] + (tail + more));
        assert((rest + later).map_values(ok) =~= seq![ok(block.first)] + (tail + more).map_values(
            ok,
        ));
    }
}

proof fn decode_nonempty(bytes: Seq<u8>, at: int, count: nat, previous: u32)
    requires
        count > 0,
        decode(bytes, at, count, previous, false) is Ok,
    ensures
        decode(bytes, at, count, previous, false)->Ok_0.0.len() > 0,
{
}

/// Iterating over blocks that all decode yields exactly their positions.
pub proof fn iteration_yields_positions(view: BlocksView)
    requires
        view.check_from(0) is Ok,
        forall|i: int|
            0 <= i < view.directory.blocks() ==> (#[trigger] view.directory.block(i)).count >= 1,
    ensures
        outcomes(IterState::start(view)) == view.positions_from(0).map_values(
            |position: u32| Ok::<u32, Error>(position),
        ),
{
    let state = IterState::start(view);
    let rest = decode(state.source, 0, 0, 0, false)->Ok_0.0;
    assert(seq![0u32] + rest =~= seq![0u32]);
    block_outcomes(state);
    assert(rest + view.positions_from(0) =~= view.positions_from(0));
}

} // verus!
