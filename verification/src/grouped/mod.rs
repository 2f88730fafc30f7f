//! Versioned logical segment groups; not server pages or scan storage.
//! Each coordinate has one immutable owner incarnation inside a segment.
//! Full Boolean matches, never partial term masks, may cross segment boundaries.

pub mod bitmap;
pub mod members;
pub mod merge;
pub mod query;
pub mod retire;

pub use crate::mask::{OffsetMask, PageMask};
pub use merge::{MergePlan, MAX_MERGE_SOURCES};
pub use query::{evaluate, Node, QueryScratch, QueryStats};
pub use retire::{retire, retire_roots};
pub use members::{encode_members, Member, Members, SegmentGroup};
pub use bitmap::{encode_bitmap, Bitmap, BitmapKind, PageOffsets, MAX_BITMAP_BYTES};

use crate::codec::bytes::{
    group_bytes, le_u16, le_u16_of_bytes, le_u32, le_u32_of_bytes, le_u64, le_u64_of_bytes, splice,
    u16_bytes, u32_bytes, u64_bytes, Reader, Writer,
};
use crate::error::{lift, Error, Result};
use crate::identity::{group_identity, Generation, HeapLayout, SegmentId};
use crate::mask::{count, mask_count_below, mask_has, member};
use crate::mutable::page::model::cut_short;
use crate::text::same_bytes;
use vstd::prelude::*;

verus! {

broadcast use {group_bytes, group_identity};

pub const VERSION: u16 = 1;

pub const GROUP_PAGES: usize = 256;

pub const HEADER_BYTES: usize = 72;

pub const MEMBERS: u8 = 3;

/// Identity within an already selected physical index relation.
/// The host never reuses a segment ID within a durable relation generation.
#[derive(Clone, Copy, Debug, Eq, PartialEq, Structural)]
pub struct GroupKey {
    relation: Generation,
    segment: SegmentId,
    base: u32,
    layout: HeapLayout,
}

impl GroupKey {
    #[verifier::type_invariant]
    closed spec fn inv(self) -> bool {
        self.base % 256 == 0
    }

    /// The key with the given parts.
    pub closed spec fn of(
        relation: Generation,
        segment: SegmentId,
        base: u32,
        layout: HeapLayout,
    ) -> GroupKey {
        GroupKey { relation, segment, base, layout }
    }

    pub closed spec fn spec_relation(self) -> Generation {
        self.relation
    }

    pub closed spec fn spec_segment(self) -> SegmentId {
        self.segment
    }

    pub closed spec fn spec_base(self) -> u32 {
        self.base
    }

    pub closed spec fn spec_layout(self) -> HeapLayout {
        self.layout
    }

    /// Constructs a 256-page-aligned group; the invalid final heap block is absent.
    ///
    /// # Errors
    /// Rejects an unaligned base; coordinates are checked independently.
    pub fn new(relation: Generation, segment: SegmentId, base: u32, layout: HeapLayout) -> (result:
        Result<Self>)
        ensures
            result == (if base % 256 != 0 {
                Err(Error::InvalidParameters)
            } else {
                Ok(GroupKey::of(relation, segment, base, layout))
            }),
    {
        if base % 256 != 0 {
            return Err(Error::InvalidParameters);
        }
        Ok(GroupKey { relation, segment, base, layout })
    }

    #[verifier::when_used_as_spec(spec_relation)]
    pub fn relation(self) -> (relation: Generation)
        ensures
            relation == self.relation(),
    {
        self.relation
    }

    #[verifier::when_used_as_spec(spec_segment)]
    pub fn segment(self) -> (segment: SegmentId)
        ensures
            segment == self.segment(),
    {
        self.segment
    }

    #[verifier::when_used_as_spec(spec_base)]
    pub fn base(self) -> (base: u32)
        ensures
            base == self.base(),
            base % 256 == 0,
    {
        proof {
            use_type_invariant(&self);
        }
        self.base
    }

    #[verifier::when_used_as_spec(spec_layout)]
    pub fn layout(self) -> (layout: HeapLayout)
        ensures
            layout == self.layout(),
    {
        self.layout
    }

    /// The heap block of a page of the group.
    pub fn block(self, page: u8) -> (result: Result<u32>)
        ensures
            result == self.block_of(page as int),
    {
        proof {
            use_type_invariant(&self);
        }
        let block: u32 = self.base + page as u32;
        if block == u32::MAX {
            return Err(Error::InvalidState);
        }
        Ok(block)
    }

    /// The heap block of a page of the group; the last block of all is no heap block.
    pub open spec fn block_of(self, page: int) -> Result<u32> {
        if self.base() + page == u32::MAX {
            Err(Error::InvalidState)
        } else {
            Ok((self.base() + page) as u32)
        }
    }

    pub broadcast proof fn of_parts(
        relation: Generation,
        segment: SegmentId,
        base: u32,
        layout: HeapLayout,
    )
        ensures
            (#[trigger] GroupKey::of(relation, segment, base, layout)).spec_relation() == relation,
            GroupKey::of(relation, segment, base, layout).spec_segment() == segment,
            GroupKey::of(relation, segment, base, layout).spec_base() == base,
            GroupKey::of(relation, segment, base, layout).spec_layout() == layout,
    {
    }

    /// A key is its parts.
    pub proof fn of_self(self)
        ensures
            GroupKey::of(self.relation(), self.segment(), self.base(), self.layout()) == self,
    {
    }
}

/// The start of a record: whose it is, its kind, its number of members and the
/// pages that it covers.
#[verifier::ext_equal]
pub struct HeaderModel {
    pub key: GroupKey,
    pub kind: u8,
    pub count: u32,
    pub mask: Seq<u64>,
}

/// A checked record header.
#[derive(Clone, Copy)]
pub struct Header {
    pub key: GroupKey,
    pub kind: u8,
    pub count: u32,
    pub mask: PageMask,
}

impl View for Header {
    type V = HeaderModel;

    open spec fn view(&self) -> HeaderModel {
        HeaderModel { key: self.key, kind: self.kind, count: self.count, mask: self.mask@ }
    }
}

/// The four bytes that start a record.
pub open spec fn group_magic() -> Seq<u8> {
    seq![0x50u8, 0x4Eu8, 0x47u8, 0x39u8]
}

/// The mask words of a record.
pub open spec fn header_mask(bytes: Seq<u8>) -> Seq<u64> {
    seq![le_u64(bytes, 40), le_u64(bytes, 48), le_u64(bytes, 56), le_u64(bytes, 64)]
}

/// The header of a record.
pub open spec fn header_at(bytes: Seq<u8>) -> Result<HeaderModel> {
    let base = le_u32(bytes, 12);
    let relation = le_u64(bytes, 16);
    let segment = le_u64(bytes, 24);
    let layout = le_u16(bytes, 32);
    let mask = header_mask(bytes);
    if bytes.len() < 4 {
        Err(cut_short(0))
    } else if bytes.take(4) != group_magic() {
        Err(Error::InvalidState)
    } else if bytes.len() < 6 {
        Err(cut_short(4))
    } else if le_u16(bytes, 4) != VERSION {
        Err(Error::InvalidState)
    } else if bytes.len() < 7 {
        Err(cut_short(6))
    } else if bytes[6] < 1 || bytes[6] > 3 {
        Err(Error::InvalidState)
    } else if bytes.len() < 8 {
        Err(cut_short(7))
    } else if bytes[7] != 0 {
        Err(Error::InvalidState)
    } else if bytes.len() < 12 {
        Err(cut_short(8))
    } else if le_u32(bytes, 8) != bytes.len() {
        Err(Error::InvalidState)
    } else if bytes.len() < 16 {
        Err(cut_short(12))
    } else if bytes.len() < 24 {
        Err(cut_short(16))
    } else if relation == 0 {
        Err(Error::InvalidState)
    } else if bytes.len() < 32 {
        Err(cut_short(24))
    } else if segment == 0 {
        Err(Error::InvalidState)
    } else if bytes.len() < 34 {
        Err(cut_short(32))
    } else if layout == 0 || layout > 512 {
        Err(Error::InvalidState)
    } else if bytes.len() < 36 {
        Err(cut_short(34))
    } else if bytes.len() < 40 {
        Err(cut_short(36))
    } else if bytes.len() < 48 {
        Err(cut_short(40))
    } else if bytes.len() < 56 {
        Err(cut_short(48))
    } else if bytes.len() < 64 {
        Err(cut_short(56))
    } else if bytes.len() < 72 {
        Err(cut_short(64))
    } else if base % 256 != 0 {
        Err(Error::InvalidParameters)
    } else if le_u16(bytes, 34) != count(mask) || (base == u32::MAX - 255 && member(mask, 255)) {
        Err(Error::InvalidState)
    } else {
        Ok(
            HeaderModel {
                key: GroupKey::of(
                    Generation::of(relation),
                    SegmentId::of(segment),
                    base,
                    HeapLayout::of(layout),
                ),
                kind: bytes[6],
                count: le_u32(bytes, 36),
                mask,
            },
        )
    }
}

/// The stored form of a header of a record of `length` bytes.
pub open spec fn header_code(header: HeaderModel, length: u32) -> Seq<u8> {
    group_magic() + u16_bytes(VERSION) + seq![header.kind] + seq![0u8] + u32_bytes(length)
        + u32_bytes(header.key.base()) + u64_bytes(header.key.relation().get()) + u64_bytes(
        header.key.segment().get(),
    ) + u16_bytes(header.key.layout().max_offset()) + u16_bytes(count(header.mask) as u16)
        + u32_bytes(header.count) + u64_bytes(header.mask[0]) + u64_bytes(header.mask[1])
        + u64_bytes(header.mask[2]) + u64_bytes(header.mask[3])
}

impl Header {
    pub(crate) fn read(bytes: &[u8]) -> (result: Result<Self>)
        ensures
            match header_at(bytes@) {
                Ok(model) => result matches Ok(header) && header@ == model,
                Err(error) => result matches Err(e) && e == error,
            },
    {
        let mut reader: Reader = Reader::new(bytes);
        let start: &[u8] = lift(reader.take(4))?;
        let magic: [u8; 4] = [0x50, 0x4E, 0x47, 0x39];
        assert(magic@ =~= group_magic());
        assert(start@ =~= bytes@.take(4));
        if !same_bytes(start, &magic) {
            return Err(Error::InvalidState);
        }
        if lift(reader.u16())? != VERSION {
            return Err(Error::InvalidState);
        }
        let kind: u8 = lift(reader.u8())?;
        if kind < 1 || kind > 3 {
            return Err(Error::InvalidState);
        }
        if lift(reader.u8())? != 0 {
            return Err(Error::InvalidState);
        }
        if lift(reader.u32())? as usize != bytes.len() {
            return Err(Error::InvalidState);
        }
        let base: u32 = lift(reader.u32())?;
        let relation: Generation = match Generation::new(lift(reader.u64())?) {
            Ok(relation) => relation,
            Err(_) => {
                return Err(Error::InvalidState);
            },
        };
        let segment: SegmentId = match SegmentId::new(lift(reader.u64())?) {
            Ok(segment) => segment,
            Err(_) => {
                return Err(Error::InvalidState);
            },
        };
        let layout: HeapLayout = match HeapLayout::new(lift(reader.u16())?) {
            Ok(layout) => layout,
            Err(_) => {
                return Err(Error::InvalidState);
            },
        };
        let pages: u16 = lift(reader.u16())?;
        let count: u32 = lift(reader.u32())?;
        let a: u64 = lift(reader.u64())?;
        let b: u64 = lift(reader.u64())?;
        let c: u64 = lift(reader.u64())?;
        let d: u64 = lift(reader.u64())?;
        let mask: PageMask = [a, b, c, d];
        assert(mask@ =~= header_mask(bytes@));
        let key: GroupKey = GroupKey::new(relation, segment, base, layout)?;
        if pages as usize != mask_count_below(&mask, 256) {
            return Err(Error::InvalidState);
        }
        if base == u32::MAX - 255 && mask_has(&mask, 255) {
            return Err(Error::InvalidState);
        }
        Ok(Header { key, kind, count, mask })
    }

    /// The stored form of the header.
    pub(crate) fn array(self, length: u32) -> (bytes: [u8; 72])
        ensures
            bytes@ == header_code(self@, length),
            bytes@.len() == 72,
    {
        let mut bytes: [u8; 72] = [0u8; 72];
        let ghost before = bytes@;
        let magic: [u8; 4] = [0x50, 0x4E, 0x47, 0x39];
        let pages: u16 = mask_count_below(&self.mask, 256) as u16;
        assert(magic@ =~= group_magic());
        assert(before =~= splice(before, 0, Seq::empty()));
        assert(Seq::<u8>::empty() + magic@ =~= magic@);
        let mut writer: Writer = Writer::new(&mut bytes);
        let a: crate::codec::Result<()> = writer.put(&magic);
        let b: crate::codec::Result<()> = writer.u16(VERSION);
        let c: crate::codec::Result<()> = writer.u8(self.kind);
        let d: crate::codec::Result<()> = writer.u8(0);
        let e: crate::codec::Result<()> = writer.u32(length);
        let f: crate::codec::Result<()> = writer.u32(self.key.base());
        let g: crate::codec::Result<()> = writer.u64(self.key.relation().get());
        let h: crate::codec::Result<()> = writer.u64(self.key.segment().get());
        let i: crate::codec::Result<()> = writer.u16(self.key.layout().max_offset());
        let j: crate::codec::Result<()> = writer.u16(pages);
        let k: crate::codec::Result<()> = writer.u32(self.count);
        let l: crate::codec::Result<()> = writer.u64(self.mask[0]);
        let m: crate::codec::Result<()> = writer.u64(self.mask[1]);
        let n: crate::codec::Result<()> = writer.u64(self.mask[2]);
        let o: crate::codec::Result<()> = writer.u64(self.mask[3]);
        assert(a is Ok && b is Ok && c is Ok && d is Ok && e is Ok && f is Ok && g is Ok);
        assert(h is Ok && i is Ok && j is Ok && k is Ok && l is Ok && m is Ok && n is Ok && o is Ok);
        assert(bytes@ =~= header_code(self@, length));
        bytes
    }
}

/// A stored header reads back, at the start of any record of the stored length.
pub proof fn header_round_trip(header: HeaderModel, bytes: Seq<u8>)
    requires
        72 <= bytes.len() <= u32::MAX,
        bytes.take(72) == header_code(header, bytes.len() as u32),
        1 <= header.kind <= 3,
        header.mask.len() == 4,
        header.key.relation().get() != 0,
        header.key.segment().get() != 0,
        1 <= header.key.layout().max_offset() <= 512,
        header.key.base() % 256 == 0,
        header.key.base() == u32::MAX - 255 ==> !member(header.mask, 255),
        HeapLayout::of(header.key.layout().max_offset()) == header.key.layout(),
    ensures
        header_at(bytes) == Ok::<HeaderModel, Error>(header),
{
    let code = header_code(header, bytes.len() as u32);
    let key = header.key;
    crate::mask::count_grows(header.mask, 0, 256);
    assert(bytes.take(4) =~= code.take(4));
    assert(code.take(4) =~= group_magic());
    assert(bytes.subrange(4, 6) =~= bytes.take(72).subrange(4, 6));
    assert(code.subrange(4, 6) =~= u16_bytes(VERSION));
    assert(bytes[6] == bytes.take(72)[6] && bytes[7] == bytes.take(72)[7]);
    assert(bytes.subrange(8, 12) =~= bytes.take(72).subrange(8, 12));
    assert(code.subrange(8, 12) =~= u32_bytes(bytes.len() as u32));
    assert(bytes.subrange(12, 16) =~= bytes.take(72).subrange(12, 16));
    assert(code.subrange(12, 16) =~= u32_bytes(key.base()));
    assert(bytes.subrange(16, 24) =~= bytes.take(72).subrange(16, 24));
    assert(code.subrange(16, 24) =~= u64_bytes(key.relation().get()));
    assert(bytes.subrange(24, 32) =~= bytes.take(72).subrange(24, 32));
    assert(code.subrange(24, 32) =~= u64_bytes(key.segment().get()));
    assert(bytes.subrange(32, 34) =~= bytes.take(72).subrange(32, 34));
    assert(code.subrange(32, 34) =~= u16_bytes(key.layout().max_offset()));
    assert(bytes.subrange(34, 36) =~= bytes.take(72).subrange(34, 36));
    assert(code.subrange(34, 36) =~= u16_bytes(count(header.mask) as u16));
    assert(bytes.subrange(36, 40) =~= bytes.take(72).subrange(36, 40));
    assert(code.subrange(36, 40) =~= u32_bytes(header.count));
    assert(bytes.subrange(40, 48) =~= bytes.take(72).subrange(40, 48));
    assert(code.subrange(40, 48) =~= u64_bytes(header.mask[0]));
    assert(bytes.subrange(48, 56) =~= bytes.take(72).subrange(48, 56));
    assert(code.subrange(48, 56) =~= u64_bytes(header.mask[1]));
    assert(bytes.subrange(56, 64) =~= bytes.take(72).subrange(56, 64));
    assert(code.subrange(56, 64) =~= u64_bytes(header.mask[2]));
    assert(bytes.subrange(64, 72) =~= bytes.take(72).subrange(64, 72));
    assert(code.subrange(64, 72) =~= u64_bytes(header.mask[3]));
    le_u16_of_bytes(bytes, 4, VERSION);
    le_u32_of_bytes(bytes, 8, bytes.len() as u32);
    le_u32_of_bytes(bytes, 12, key.base());
    le_u64_of_bytes(bytes, 16, key.relation().get());
    le_u64_of_bytes(bytes, 24, key.segment().get());
    le_u16_of_bytes(bytes, 32, key.layout().max_offset());
    le_u16_of_bytes(bytes, 34, count(header.mask) as u16);
    le_u32_of_bytes(bytes, 36, header.count);
    le_u64_of_bytes(bytes, 40, header.mask[0]);
    le_u64_of_bytes(bytes, 48, header.mask[1]);
    le_u64_of_bytes(bytes, 56, header.mask[2]);
    le_u64_of_bytes(bytes, 64, header.mask[3]);
    assert(header_mask(bytes) =~= header.mask);
    key.of_self();
}

} // verus!
