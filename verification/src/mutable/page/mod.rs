//! Checked, explicit little-endian payloads inside standard pages.
//! Page images are private copies; this module never borrows shared buffers.
//! Owner slots and dictionary offsets remain stable across posting compaction.

pub mod directory;
pub mod entries;
pub mod grouped;
pub mod grouped_model;
pub mod grouped_store;
pub mod laws;
pub mod laws_link;
pub mod laws_state;
pub mod model;
pub mod owners;
pub mod postings;
pub mod validate;

pub use directory::{DocumentDirectory, DIRECT_PREFIX_BYTES, MAX_DIRECT_FRAGMENTS};
pub use entries::{bucket_for, Terms};
pub use grouped::GroupNode;
pub use grouped_model::{
    CatalogEntry, GroupData, GroupDelta, GroupJournal, GroupPageKind, GroupRetired, GroupSnapshot,
    GroupState, CATALOG_ENTRIES, GROUP_DATA_BYTES, GROUP_DELTA_SEGMENTS, GROUP_RETIRED_SEGMENTS,
    MAX_CATALOG_LEVEL,
};
pub use postings::{OwnedPostings, Postings, SealedBuilder};

pub use model::{
    Image, Owner, OwnerChange, OwnerModel, OwnerRef, PageKind, PostingStream, RewriteJournal,
    RewritePhase, Term, TermModel, TermRef, BUCKETS, CAPACITY, FRAGMENT_BYTES, INLINE_BYTES,
    MAX_WAL_PAGES, NO_BLOCK,
};

use crate::analysis::PROFILE_ID;
use crate::codec::bytes::{
    get_u16, get_u32, get_u64, group_bytes, splice, u16_array, u16_bytes, u32_array, u32_bytes,
    u64_array, u64_bytes, Reader, Writer,
};
use crate::codec::records::Publication;
use crate::codec::{Error as CodecError, ErrorKind};
use crate::error::{lift, Error, Result};
use crate::identity::{group_identity, HeapLayout, Incarnation, RootTid};
use crate::mutable::document::{MAX_DOCUMENT_BYTES, MAX_DOCUMENT_TOKENS};
use crate::text::same_bytes;
use model::{
    corrupted, field_u16, field_u32, field_u64, fragment_image, free_image, fresh_image, is_block,
    is_pair, is_posting_pair, journal_code, metadata_bytes, owner_ref_at, page_header,
    postings_image, read_image, DIRECT_HEADER, FRAGMENT_HEADER, HEADER, META_HEADER, OWNER_BYTES,
    OWNER_HEADER, OWNER_SLOTS, POSTING_HEADER,
};
use vstd::prelude::*;

verus! {

broadcast use {group_bytes, group_identity};

pub(crate) fn corrupt(offset: usize) -> (error: Error)
    ensures
        error == corrupted(offset as int),
{
    Error::Codec(CodecError::new(offset, ErrorKind::InvalidValue))
}

pub(crate) fn block_valid(block: u32) -> (valid: bool)
    ensures
        valid == is_block(block),
{
    block != 0 && block != NO_BLOCK
}

pub(crate) fn posting_pair_valid(head: u32, tail: u32) -> (valid: bool)
    ensures
        valid == is_posting_pair(head, tail),
{
    (head == NO_BLOCK && tail == NO_BLOCK) || (block_valid(head) && block_valid(tail))
}

fn pair_valid(head: u32, tail: u32) -> (valid: bool)
    ensures
        valid == is_pair(head, tail),
{
    (head == NO_BLOCK && tail == NO_BLOCK) || (block_valid(head) && block_valid(tail) && tail
        >= head)
}

impl PageKind {
    fn of_tag(tag: u8) -> (kind: Option<PageKind>)
        ensures
            kind == PageKind::spec_of_tag(tag),
    {
        match tag {
            1 => Some(PageKind::Meta),
            2 => Some(PageKind::Owners),
            3 => Some(PageKind::Dictionary),
            4 => Some(PageKind::Postings),
            5 => Some(PageKind::Fragment),
            6 => Some(PageKind::Free),
            7 => Some(PageKind::SealedPostings),
            9 => Some(PageKind::DirectPostings),
            10 => Some(PageKind::Grouped),
            11 => Some(PageKind::DocumentDirectory),
            _ => None,
        }
    }

    fn tag(self) -> (tag: u8)
        ensures
            tag == self.spec_tag(),
    {
        match self {
            PageKind::Zero => 0,
            PageKind::Meta => 1,
            PageKind::Owners => 2,
            PageKind::Dictionary => 3,
            PageKind::Postings => 4,
            PageKind::Fragment => 5,
            PageKind::Free => 6,
            PageKind::SealedPostings => 7,
            PageKind::DirectPostings => 9,
            PageKind::Grouped => 10,
            PageKind::DocumentDirectory => 11,
        }
    }
}

impl OwnerRef {
    pub(crate) fn read(reader: &mut Reader<'_>) -> (result: Result<Self>)
        ensures
            final(reader).source() == old(reader).source(),
            match owner_ref_at(old(reader).source(), old(reader).offset() as int) {
                Ok(owner) => result == Ok::<OwnerRef, Error>(owner) && final(reader).advanced(
                    *old(reader),
                    16,
                ),
                Err(error) => result == Err::<OwnerRef, Error>(error),
            },
    {
        let page: u32 = lift(reader.u32())?;
        let slot: u16 = lift(reader.u16())?;
        let reserved: u16 = lift(reader.u16())?;
        let incarnation: Incarnation = match Incarnation::new(lift(reader.u64())?) {
            Ok(incarnation) => incarnation,
            Err(_) => {
                return Err(corrupt(reader.offset()));
            },
        };
        if !block_valid(page) || slot as usize >= OWNER_SLOTS || reserved != 0 {
            return Err(corrupt(reader.offset()));
        }
        Ok(OwnerRef { page, slot, incarnation })
    }

    pub(crate) fn write(self, writer: &mut Writer<'_>) -> (result: Result<()>)
        requires
            old(writer).offset + 16 <= old(writer).bytes@.len(),
        ensures
            final(final(writer).bytes)@ == final(old(writer).bytes)@,
            if self.valid() {
                result is Ok && final(writer).bytes@ == splice(
                    old(writer).bytes@,
                    old(writer).offset as int,
                    self.code(),
                ) && final(writer).offset == old(writer).offset + 16
            } else {
                result == Err::<(), Error>(corrupted(old(writer).offset as int))
                    && final(writer).bytes@ == old(writer).bytes@ && final(writer).offset == old(writer).offset
            },
            self.code().len() == 16,
    {
        if !block_valid(self.page) || self.slot as usize >= OWNER_SLOTS {
            return Err(corrupt(writer.len()));
        }
        let record: [u8; 16] = self.array();
        let length: usize = writer.bytes.len();
        assert(writer.offset + 16 <= length);
        lift(writer.put(&record))
    }

    /// The sixteen stored bytes.
    pub(crate) fn array(self) -> (bytes: [u8; 16])
        ensures
            bytes@ == self.code(),
            bytes@.len() == 16,
    {
        let mut bytes: [u8; 16] = [0u8; 16];
        let ghost before = bytes@;
        let mut writer: Writer = Writer::new(&mut bytes);
        assert(before =~= splice(before, 0, Seq::empty()));
        assert(Seq::<u8>::empty() + u32_bytes(self.page) =~= u32_bytes(self.page));
        let first: crate::codec::Result<()> = writer.u32(self.page);
        let second: crate::codec::Result<()> = writer.u16(self.slot);
        let third: crate::codec::Result<()> = writer.u16(0);
        let fourth: crate::codec::Result<()> = writer.u64(self.incarnation.get());
        assert(first is Ok && second is Ok && third is Ok && fourth is Ok);
        assert(bytes@ =~= self.code());
        bytes
    }
}

/// One bounded private page payload. Mutations never touch a host page directly.
pub struct Page {
    block: u32,
    kind: PageKind,
    len: usize,
    initialize: bool,
    bytes: [u8; CAPACITY],
}

impl View for Page {
    type V = Image;

    closed spec fn view(&self) -> Image {
        Image {
            block: self.block,
            kind: self.kind,
            initialize: self.initialize,
            bytes: self.bytes@.take(self.len as int),
        }
    }
}

impl Page {
    #[verifier::type_invariant]
    closed spec fn inv(self) -> bool {
        &&& self.len <= CAPACITY
        &&& self.kind == PageKind::Zero <==> self.len == 0
        &&& self.kind != PageKind::Zero ==> self.len >= HEADER
    }

    /// The page as it is kept by a host.
    pub(crate) fn kept(&self) -> (page: Self)
        ensures
            page@ == crate::mutable::store::stored(self@),
    {
        proof {
            use_type_invariant(self);
        }
        Page {
            block: self.block,
            kind: self.kind,
            len: self.len,
            initialize: false,
            bytes: self.bytes,
        }
    }

    /// Copies one host page. An empty payload stands for a physically all-zero
    /// allocation orphan only.
    ///
    /// # Errors
    /// Rejects invalid block identities, lengths, magic, tags and reserved fields.
    #[verifier::loop_isolation(false)]
    pub fn read_with(block: u32, payload: &[u8]) -> (result: Result<Self>)
        ensures
            match read_image(block, payload@) {
                Ok(image) => result matches Ok(page) && page@ == image,
                Err(error) => result matches Err(e) && e == error,
            },
    {
        if block == NO_BLOCK {
            return Err(corrupt(8));
        }
        let len: usize = payload.len();
        let mut bytes: [u8; CAPACITY] = [0u8; CAPACITY];
        if len == 0 {
            let page: Page = Page { block, kind: PageKind::Zero, len: 0, initialize: false, bytes };
            assert(page@.bytes =~= payload@);
            return Ok(page);
        }
        if len > CAPACITY {
            return Err(corrupt(0));
        }
        let mut i: usize = 0;
        while i < len
            invariant
                i <= len,
                forall|j: int| 0 <= j < i ==> bytes@[j] == payload@[j],
            decreases len - i,
        {
            bytes[i] = payload[i];
            i += 1;
        }
        let mut reader: Reader = Reader::new(payload);
        let start: &[u8] = lift(reader.take(4))?;
        let magic: [u8; 4] = [0x50, 0x49, 0x4E, 0x32];
        assert(magic@ =~= seq![0x50u8, 0x49u8, 0x4Eu8, 0x32u8]);
        if !same_bytes(start, &magic) {
            return Err(Error::Codec(CodecError::new(0, ErrorKind::BadMagic)));
        }
        if lift(reader.u16())? != 2 {
            return Err(Error::Codec(CodecError::new(4, ErrorKind::UnsupportedVersion)));
        }
        let kind: PageKind = match PageKind::of_tag(lift(reader.u8())?) {
            Some(kind) => kind,
            None => {
                return Err(Error::Codec(CodecError::new(6, ErrorKind::UnknownTag)));
            },
        };
        if lift(reader.u8())? != 0 {
            return Err(corrupt(7));
        }
        if lift(reader.u32())? != block {
            return Err(corrupt(7));
        }
        lift(reader.u32())?;
        let page: Page = Page { block, kind, len, initialize: false, bytes };
        assert(page@.bytes =~= payload@);
        page.check_next()?;
        Ok(page)
    }

    fn new(block: u32, kind: PageKind) -> (result: Result<Self>)
        ensures
            match fresh_image(block, kind) {
                Ok(image) => result matches Ok(page) && page@ == image,
                Err(error) => result matches Err(e) && e == error,
            },
    {
        if block == NO_BLOCK || (block == 0) != (kind == PageKind::Meta) {
            return Err(corrupt(8));
        }
        if kind == PageKind::Zero {
            return Err(corrupt(6));
        }
        let mut bytes: [u8; CAPACITY] = [0u8; CAPACITY];
        let ghost before = bytes@;
        let magic: [u8; 4] = [0x50, 0x49, 0x4E, 0x32];
        assert(magic@ =~= seq![0x50u8, 0x49u8, 0x4Eu8, 0x32u8]);
        assert(before =~= splice(before, 0, Seq::empty()));
        assert(Seq::<u8>::empty() + magic@ =~= magic@);
        let mut writer: Writer = Writer::new(&mut bytes);
        lift(writer.put(&magic))?;
        lift(writer.u16(2))?;
        lift(writer.u8(kind.tag()))?;
        lift(writer.u8(0))?;
        lift(writer.u32(block))?;
        lift(writer.u32(NO_BLOCK))?;
        let page: Page = Page { block, kind, len: HEADER, initialize: false, bytes };
        assert(page@.bytes =~= page_header(block, kind) + u32_bytes(NO_BLOCK));
        Ok(page)
    }

    /// Replaces used bytes or bytes behind them.
    #[verifier::loop_isolation(false)]
    fn patch(&mut self, at: usize, value: &[u8])
        requires
            at + value@.len() <= CAPACITY,
        ensures
            final(self)@ == old(self)@.patched(at as int, value@),
            final(self).bytes@ == splice(old(self).bytes@, at as int, value@),
            final(self).len == old(self).len,
    {
        let length: usize = value.len();
        let mut i: usize = 0;
        while i < length
            invariant
                i <= length,
                self.block == old(self).block,
                self.kind == old(self).kind,
                self.len == old(self).len,
                self.initialize == old(self).initialize,
                forall|j: int| 0 <= j < i ==> self.bytes@[at + j] == value@[j],
                forall|j: int|
                    0 <= j < CAPACITY && !(at <= j < at + i) ==> self.bytes@[j] == old(self).bytes@[j],
            decreases length - i,
        {
            proof {
                use_type_invariant(&*self);
            }
            self.bytes[at + i] = value[i];
            i += 1;
        }
        proof {
            use_type_invariant(&*self);
            assert forall|j: int| at <= j < at + length implies self.bytes@[j] == value@[j - at] by {
                assert(self.bytes@[at + (j - at)] == value@[j - at]);
            }
            assert(self.bytes@ =~= splice(old(self).bytes@, at as int, value@));
            assert(self@ =~= old(self)@.patched(at as int, value@));
        }
    }

    fn put_u16(&mut self, offset: usize, value: u16) -> (result: Result<()>)
        requires
            offset <= CAPACITY,
        ensures
            if offset + 2 > CAPACITY {
                result == Err::<(), Error>(corrupted(offset as int)) && *final(self) == *old(self)
            } else {
                result is Ok && final(self)@ == old(self)@.patched(offset as int, u16_bytes(value))
                    && final(self).bytes@ == splice(
                    old(self).bytes@,
                    offset as int,
                    u16_bytes(value),
                ) && final(self).len == old(self).len
            },
    {
        if offset + 2 > CAPACITY {
            return Err(corrupt(offset));
        }
        let field: [u8; 2] = u16_array(value);
        self.patch(offset, &field);
        Ok(())
    }

    fn put_u32(&mut self, offset: usize, value: u32) -> (result: Result<()>)
        requires
            offset <= CAPACITY,
        ensures
            if offset + 4 > CAPACITY {
                result == Err::<(), Error>(corrupted(offset as int)) && *final(self) == *old(self)
            } else {
                result is Ok && final(self)@ == old(self)@.patched(offset as int, u32_bytes(value))
                    && final(self).bytes@ == splice(
                    old(self).bytes@,
                    offset as int,
                    u32_bytes(value),
                ) && final(self).len == old(self).len
            },
    {
        if offset + 4 > CAPACITY {
            return Err(corrupt(offset));
        }
        let field: [u8; 4] = u32_array(value);
        self.patch(offset, &field);
        Ok(())
    }

    fn put_u64(&mut self, offset: usize, value: u64) -> (result: Result<()>)
        requires
            offset <= CAPACITY,
        ensures
            if offset + 8 > CAPACITY {
                result == Err::<(), Error>(corrupted(offset as int)) && *final(self) == *old(self)
            } else {
                result is Ok && final(self)@ == old(self)@.patched(offset as int, u64_bytes(value))
                    && final(self).bytes@ == splice(
                    old(self).bytes@,
                    offset as int,
                    u64_bytes(value),
                ) && final(self).len == old(self).len
            },
    {
        if offset + 8 > CAPACITY {
            return Err(corrupt(offset));
        }
        let field: [u8; 8] = u64_array(value);
        self.patch(offset, &field);
        Ok(())
    }

    fn u16(&self, offset: usize) -> (result: Result<u16>)
        ensures
            result == field_u16(self@.bytes, offset as int),
    {
        let bytes: &[u8] = self.bytes();
        if offset > bytes.len() {
            return Err(corrupt(offset));
        }
        if bytes.len() - offset < 2 {
            return Err(Error::Codec(CodecError::new(0, ErrorKind::Truncated)));
        }
        Ok(get_u16(bytes, offset))
    }

    fn u32(&self, offset: usize) -> (result: Result<u32>)
        ensures
            result == field_u32(self@.bytes, offset as int),
    {
        let bytes: &[u8] = self.bytes();
        if offset > bytes.len() {
            return Err(corrupt(offset));
        }
        if bytes.len() - offset < 4 {
            return Err(Error::Codec(CodecError::new(0, ErrorKind::Truncated)));
        }
        Ok(get_u32(bytes, offset))
    }

    fn u64(&self, offset: usize) -> (result: Result<u64>)
        ensures
            result == field_u64(self@.bytes, offset as int),
    {
        let bytes: &[u8] = self.bytes();
        if offset > bytes.len() {
            return Err(corrupt(offset));
        }
        if bytes.len() - offset < 8 {
            return Err(Error::Codec(CodecError::new(0, ErrorKind::Truncated)));
        }
        Ok(get_u64(bytes, offset))
    }

    fn require(&self, kind: PageKind) -> (result: Result<()>)
        ensures
            result == (if self@.kind != kind {
                Err(corrupted(6))
            } else {
                Ok(())
            }),
    {
        if self.kind != kind {
            return Err(corrupt(6));
        }
        Ok(())
    }

    pub fn initializes_storage(&self) -> (initialize: bool)
        ensures
            initialize == self@.initialize,
    {
        self.initialize
    }

    pub fn block(&self) -> (block: u32)
        ensures
            block == self@.block,
    {
        self.block
    }

    pub fn kind(&self) -> (kind: PageKind)
        ensures
            kind == self@.kind,
    {
        self.kind
    }

    pub fn bytes(&self) -> (bytes: &[u8])
        ensures
            bytes@ == self@.bytes,
            bytes@.len() <= CAPACITY,
            self@.kind == PageKind::Zero <==> bytes@.len() == 0,
            self@.kind != PageKind::Zero ==> bytes@.len() >= 16,
    {
        proof {
            use_type_invariant(self);
        }
        assert(self.bytes@.subrange(0, self.len as int) =~= self.bytes@.take(self.len as int));
        &self.bytes[0..self.len]
    }

    pub fn next(&self) -> (result: Result<u32>)
        ensures
            result == self@.next(),
    {
        self.u32(12)
    }

    /// Stores the link and then checks it; a refused link stays stored.
    pub fn set_next(&mut self, next: u32) -> (result: Result<()>)
        ensures
            final(self)@ == old(self)@.patched(12, u32_bytes(next)),
            result == final(self)@.check_next(),
    {
        self.put_u32(12, next)?;
        self.check_next()
    }

    fn check_next(&self) -> (result: Result<()>)
        ensures
            result == self@.check_next(),
    {
        let next: u32 = self.next()?;
        if next == NO_BLOCK {
            return Ok(());
        }
        if !block_valid(next) || next == self.block || self.kind == PageKind::Meta {
            return Err(corrupt(12));
        }
        if (self.kind == PageKind::Owners || self.kind == PageKind::Dictionary) && next
            <= self.block {
            return Err(corrupt(12));
        }
        Ok(())
    }

    /// Appends to the used bytes.
    fn extend(&mut self, value: &[u8])
        requires
            old(self)@.kind != PageKind::Zero,
            old(self)@.bytes.len() + value@.len() <= CAPACITY,
        ensures
            final(self)@ == (Image { bytes: old(self)@.bytes + value@, ..old(self)@ }),
    {
        proof {
            use_type_invariant(&*self);
        }
        let at: usize = self.len;
        self.patch(at, value);
        proof {
            use_type_invariant(&*self);
        }
        self.len = at + value.len();
        assert(self@.bytes =~= old(self)@.bytes + value@);
    }

    /// Inserts bytes in front of the used bytes from `at` on.
    #[verifier::loop_isolation(false)]
    fn insert(&mut self, at: usize, value: &[u8])
        requires
            old(self)@.kind != PageKind::Zero,
            at <= old(self)@.bytes.len(),
            old(self)@.bytes.len() + value@.len() <= CAPACITY,
        ensures
            final(self)@ == (Image {
                bytes: old(self)@.bytes.take(at as int) + value@ + old(self)@.bytes.skip(at as int),
                ..old(self)@
            }),
    {
        proof {
            use_type_invariant(&*self);
        }
        let width: usize = value.len();
        let end: usize = self.len;
        let mut i: usize = end;
        while i > at
            invariant
                at <= i <= end,
                self.block == old(self).block,
                self.kind == old(self).kind,
                self.len == old(self).len,
                self.initialize == old(self).initialize,
                forall|j: int| 0 <= j < i ==> self.bytes@[j] == old(self).bytes@[j],
                forall|j: int| i <= j < end ==> self.bytes@[j + width] == old(self).bytes@[j],
            decreases i,
        {
            proof {
                use_type_invariant(&*self);
            }
            i -= 1;
            let byte: u8 = self.bytes[i];
            self.bytes[i + width] = byte;
        }
        let ghost shifted = self.bytes@;
        proof {
            use_type_invariant(&*self);
        }
        self.len = end + width;
        self.patch(at, value);
        proof {
            use_type_invariant(&*self);
            let whole = old(self)@.bytes.take(at as int) + value@ + old(self)@.bytes.skip(
                at as int,
            );
            assert forall|j: int| at + width <= j < end + width implies self.bytes@[j]
                == whole[j] by {
                assert(shifted[(j - width) + width] == old(self).bytes@[j - width]);
            }
            assert(self@.bytes =~= whole);
        }
    }

    pub fn metadata(layout: HeapLayout) -> (result: Result<Self>)
        ensures
            result matches Ok(page) && page@ == (Image {
                block: 0,
                kind: PageKind::Meta,
                initialize: false,
                bytes: metadata_bytes(layout),
            }),
    {
        let mut page: Page = Page::new(0, PageKind::Meta)?;
        let ghost first = page@.bytes;
        let mut fields: [u8; 48] = [0u8; 48];
        let ghost before = fields@;
        assert(before =~= splice(before, 0, Seq::empty()));
        assert(Seq::<u8>::empty() + u32_bytes(PROFILE_ID) =~= u32_bytes(PROFILE_ID));
        let mut writer: Writer = Writer::new(&mut fields);
        lift(writer.u32(PROFILE_ID))?;
        lift(writer.u32(8192))?;
        lift(writer.u16(layout.max_offset()))?;
        lift(writer.u16(512))?;
        lift(writer.u32(0))?;
        lift(writer.u64(1))?;
        lift(writer.u32(NO_BLOCK))?;
        lift(writer.u32(NO_BLOCK))?;
        lift(writer.u32(NO_BLOCK))?;
        let ghost known = u32_bytes(PROFILE_ID) + u32_bytes(8192) + u16_bytes(layout.max_offset())
            + u16_bytes(512) + u32_bytes(0) + u64_bytes(1) + u32_bytes(NO_BLOCK) + u32_bytes(
            NO_BLOCK,
        ) + u32_bytes(NO_BLOCK);
        assert(known.len() == 36);
        assert(fields@ =~= known + Seq::new(12, |i: int| 0u8));
        page.extend(&fields);
        let empty: [u8; 4096] = [0xFFu8; 4096];
        assert(empty@ =~= Seq::new(4096, |i: int| 0xFFu8));
        page.extend(&empty);
        assert(page@.bytes =~= metadata_bytes(layout));
        Ok(page)
    }

    pub fn owners(block: u32) -> (result: Result<Self>)
        ensures
            match fresh_image(block, PageKind::Owners) {
                Ok(image) => result matches Ok(page) && page@ == (Image {
                    bytes: image.bytes + seq![0u8, 0u8, 0u8, 0u8],
                    ..image
                }),
                Err(error) => result matches Err(e) && e == error,
            },
    {
        let mut page: Page = Page::new(block, PageKind::Owners)?;
        let zeros: [u8; 4] = [0, 0, 0, 0];
        assert(zeros@ =~= seq![0u8, 0u8, 0u8, 0u8]);
        page.extend(&zeros);
        Ok(page)
    }

    pub fn dictionary(block: u32) -> (result: Result<Self>)
        ensures
            match fresh_image(block, PageKind::Dictionary) {
                Ok(image) => result matches Ok(page) && page@ == image,
                Err(error) => result matches Err(e) && e == error,
            },
    {
        Page::new(block, PageKind::Dictionary)
    }

    fn postings_of(block: u32, term: TermRef, kind: PageKind) -> (result: Result<Self>)
        requires
            kind != PageKind::Zero,
        ensures
            match postings_image(block, term, kind) {
                Ok(image) => result matches Ok(page) && page@ == image,
                Err(error) => result matches Err(e) && e == error,
            },
    {
        if !block_valid(term.page) || (term.offset as usize) < HEADER {
            return Err(corrupt(16));
        }
        let mut page: Page = Page::new(block, kind)?;
        let ghost first = page@.bytes;
        let number: [u8; 4] = u32_array(term.page);
        page.extend(&number);
        let place: [u8; 2] = u16_array(term.offset);
        page.extend(&place);
        let count: [u8; 2] = u16_array(0);
        page.extend(&count);
        Ok(page)
    }

    pub fn postings(block: u32, term: TermRef) -> (result: Result<Self>)
        ensures
            match postings_image(block, term, PageKind::Postings) {
                Ok(image) => result matches Ok(page) && page@ == image,
                Err(error) => result matches Err(e) && e == error,
            },
    {
        Page::postings_of(block, term, PageKind::Postings)
    }

    pub fn fragment(block: u32, owner: OwnerRef, next: u32, offset: u32, payload: &[u8]) -> (result:
        Result<Self>)
        ensures
            match fragment_image(block, owner, next, offset, payload@) {
                Ok(image) => result matches Ok(page) && page@ == image,
                Err(error) => result matches Err(e) && e == error,
            },
    {
        if payload.len() == 0 || payload.len() > FRAGMENT_BYTES {
            return Err(corrupt(FRAGMENT_HEADER));
        }
        let mut page: Page = Page::new(block, PageKind::Fragment)?;
        if !block_valid(owner.page) || owner.slot as usize >= OWNER_SLOTS {
            return Err(corrupt(0));
        }
        let record: [u8; 16] = owner.array();
        page.extend(&record);
        let place: [u8; 4] = u32_array(offset);
        page.extend(&place);
        page.extend(payload);
        assert(page@.patched(12, u32_bytes(next)).bytes =~= page_header(block, PageKind::Fragment)
            + u32_bytes(next) + owner.code() + u32_bytes(offset) + payload@);
        page.set_next(next)?;
        Ok(page)
    }

    pub fn free(block: u32, next: u32) -> (result: Result<Self>)
        ensures
            match free_image(block, next) {
                Ok(image) => result matches Ok(page) && page@ == image,
                Err(error) => result matches Err(e) && e == error,
            },
    {
        let mut page: Page = Page::new(block, PageKind::Free)?;
        assert(page@.patched(12, u32_bytes(next)).bytes =~= page_header(block, PageKind::Free)
            + u32_bytes(next));
        page.set_next(next)?;
        Ok(page)
    }

    pub fn free_from_zero(block: u32, next: u32) -> (result: Result<Self>)
        ensures
            match free_image(block, next) {
                Ok(image) => result matches Ok(page) && page@ == (Image {
                    initialize: true,
                    ..image
                }),
                Err(error) => result matches Err(e) && e == error,
            },
    {
        let mut page: Page = Page::free(block, next)?;
        proof {
            use_type_invariant(&page);
        }
        page.initialize = true;
        Ok(page)
    }

    /// Hands out the next incarnation and advances the counter.
    pub fn reserve_incarnation(&mut self) -> (result: Result<Incarnation>)
        ensures
            match old(self)@.reserved_incarnation() {
                Ok(incarnation) => result == Ok::<Incarnation, Error>(incarnation) && final(self)@
                    == old(self)@.patched(32, u64_bytes((incarnation.get() + 1) as u64)),
                Err(error) => result == Err::<Incarnation, Error>(error) && final(self)@ == old(self)@,
            },
    {
        self.require(PageKind::Meta)?;
        let value: u64 = self.u64(32)?;
        if value == u64::MAX {
            return Err(Error::Limit("incarnation space"));
        }
        let incarnation: Incarnation = match Incarnation::new(value) {
            Ok(incarnation) => incarnation,
            Err(_) => {
                return Err(corrupt(32));
            },
        };
        self.put_u64(32, value + 1)?;
        Ok(incarnation)
    }

    pub fn owner_chain(&self) -> (result: Result<(u32, u32)>)
        ensures
            result == self@.owner_chain(),
    {
        self.require(PageKind::Meta)?;
        self.pair_at(40)
    }

    fn pair_at(&self, offset: usize) -> (result: Result<(u32, u32)>)
        requires
            offset <= CAPACITY,
        ensures
            result == self@.pair_at(offset as int),
    {
        let head: u32 = self.u32(offset)?;
        let tail: u32 = self.u32(offset + 4)?;
        if !pair_valid(head, tail) {
            return Err(corrupt(offset));
        }
        Ok((head, tail))
    }

    pub fn set_owner_chain(&mut self, head: u32, tail: u32) -> (result: Result<()>)
        ensures
            if old(self)@.kind != PageKind::Meta {
                result == Err::<(), Error>(corrupted(6)) && final(self)@ == old(self)@
            } else if !is_pair(head, tail) {
                result == Err::<(), Error>(corrupted(40)) && final(self)@ == old(self)@
            } else {
                result is Ok && final(self)@ == old(self)@.patched(40, u32_bytes(head)).patched(
                    44,
                    u32_bytes(tail),
                )
            },
    {
        self.require(PageKind::Meta)?;
        if !pair_valid(head, tail) {
            return Err(corrupt(40));
        }
        self.put_u32(40, head)?;
        self.put_u32(44, tail)
    }

    pub fn bucket(&self, bucket: usize) -> (result: Result<(u32, u32)>)
        ensures
            result == self@.bucket(bucket as int),
    {
        self.require(PageKind::Meta)?;
        if bucket >= BUCKETS {
            return Err(corrupt(META_HEADER));
        }
        self.pair_at(META_HEADER + bucket * 8)
    }

    pub fn set_bucket(&mut self, bucket: usize, head: u32, tail: u32) -> (result: Result<()>)
        ensures
            if old(self)@.kind != PageKind::Meta {
                result == Err::<(), Error>(corrupted(6)) && final(self)@ == old(self)@
            } else if bucket >= BUCKETS || !is_pair(head, tail) {
                result == Err::<(), Error>(corrupted(64)) && final(self)@ == old(self)@
            } else {
                result is Ok && final(self)@ == old(self)@.patched(
                    64 + bucket * 8,
                    u32_bytes(head),
                ).patched(68 + bucket * 8, u32_bytes(tail))
            },
    {
        self.require(PageKind::Meta)?;
        if bucket >= BUCKETS || !pair_valid(head, tail) {
            return Err(corrupt(META_HEADER));
        }
        let offset: usize = META_HEADER + bucket * 8;
        self.put_u32(offset, head)?;
        self.put_u32(offset + 4, tail)
    }

    pub fn free_head(&self) -> (result: Result<u32>)
        ensures
            result == self@.free_head(),
    {
        self.require(PageKind::Meta)?;
        let value: u32 = self.u32(48)?;
        if value != NO_BLOCK && !block_valid(value) {
            return Err(corrupt(48));
        }
        Ok(value)
    }

    pub fn set_free_head(&mut self, block: u32) -> (result: Result<()>)
        ensures
            if old(self)@.kind != PageKind::Meta {
                result == Err::<(), Error>(corrupted(6)) && final(self)@ == old(self)@
            } else if block != NO_BLOCK && !is_block(block) {
                result == Err::<(), Error>(corrupted(48)) && final(self)@ == old(self)@
            } else {
                result is Ok && final(self)@ == old(self)@.patched(48, u32_bytes(block))
            },
    {
        self.require(PageKind::Meta)?;
        if block != NO_BLOCK && !block_valid(block) {
            return Err(corrupt(48));
        }
        self.put_u32(48, block)
    }

    pub fn rewrite_journal(&self) -> (result: Result<Option<RewriteJournal>>)
        ensures
            result == self@.rewrite_journal(),
    {
        self.require(PageKind::Meta)?;
        let head: u32 = self.u32(52)?;
        let tail: u32 = self.u32(56)?;
        let tag: u32 = self.u32(60)?;
        if tag == 0 && head == 0 && tail == 0 {
            return Ok(None);
        }
        let phase: RewritePhase = match tag {
            1 => RewritePhase::Building,
            2 => RewritePhase::Retiring,
            _ => {
                return Err(corrupt(60));
            },
        };
        if !block_valid(head) || !block_valid(tail) {
            return Err(corrupt(52));
        }
        Ok(Some(RewriteJournal { head, tail, phase }))
    }

    pub fn set_rewrite_journal(&mut self, journal: Option<RewriteJournal>) -> (result: Result<()>)
        ensures
            if old(self)@.kind != PageKind::Meta {
                result == Err::<(), Error>(corrupted(6)) && final(self)@ == old(self)@
            } else if journal matches Some(chain) && (!is_block(chain.head) || !is_block(
                chain.tail,
            )) {
                result == Err::<(), Error>(corrupted(52)) && final(self)@ == old(self)@
            } else {
                result is Ok && final(self)@ == old(self)@.patched(
                    52,
                    journal_code(journal).subrange(0, 4),
                ).patched(56, journal_code(journal).subrange(4, 8)).patched(
                    60,
                    journal_code(journal).subrange(8, 12),
                )
            },
    {
        self.require(PageKind::Meta)?;
        let (head, tail, phase): (u32, u32, u32) = match journal {
            Some(chain) => {
                if !block_valid(chain.head) || !block_valid(chain.tail) {
                    return Err(corrupt(52));
                }
                (
                    chain.head,
                    chain.tail,
                    match chain.phase {
                        RewritePhase::Building => 1,
                        RewritePhase::Retiring => 2,
                    },
                )
            },
            None => (0, 0, 0),
        };
        proof {
            let code = journal_code(journal);
            assert(code.subrange(0, 4) =~= u32_bytes(head));
            assert(code.subrange(4, 8) =~= u32_bytes(tail));
            assert(code.subrange(8, 12) =~= u32_bytes(phase));
        }
        self.put_u32(52, head)?;
        self.put_u32(56, tail)?;
        self.put_u32(60, phase)
    }

    pub fn owner_count(&self) -> (result: Result<u16>)
        ensures
            result == self@.owner_count(),
    {
        proof {
            use_type_invariant(self);
        }
        self.require(PageKind::Owners)?;
        let count: u16 = self.u16(16)?;
        if self.u16(18)? != 0 || OWNER_HEADER + count as usize * OWNER_BYTES > self.len {
            return Err(corrupt(16));
        }
        Ok(count)
    }

    pub fn owner(&self, slot: u16, layout: HeapLayout) -> (result: Result<Owner<'_>>)
        ensures
            match self@.owner(slot, layout) {
                Ok(model) => result matches Ok(owner) && owner@ == model,
                Err(error) => result matches Err(e) && e == error,
            },
    {
        let count: u16 = self.owner_count()?;
        if slot >= count {
            return Err(corrupt(16));
        }
        let at: usize = OWNER_HEADER + slot as usize * OWNER_BYTES;
        let bytes: &[u8] = self.bytes();
        let incarnation: Incarnation = match Incarnation::new(get_u64(bytes, at)) {
            Ok(incarnation) => incarnation,
            Err(_) => {
                return Err(corrupt(at));
            },
        };
        let root: RootTid = match RootTid::new(
            get_u32(bytes, at + 8),
            get_u16(bytes, at + 12),
            layout,
        ) {
            Ok(root) => root,
            Err(_) => {
                return Err(corrupt(at + 8));
            },
        };
        let publication: Publication = match Publication::of_tag(bytes[at + 14]) {
            Some(publication) => publication,
            None => {
                return Err(corrupt(at + 14));
            },
        };
        let flag: u8 = bytes[at + 15];
        let live: bool = flag == 1;
        if flag > 1 || (live && publication != Publication::Published) {
            return Err(corrupt(at + 15));
        }
        let tokens: u32 = get_u32(bytes, at + 16);
        let terms: u32 = get_u32(bytes, at + 20);
        let data_head: u32 = get_u32(bytes, at + 24);
        let data_bytes: u32 = get_u32(bytes, at + 28);
        let inline_offset: usize = get_u16(bytes, at + 32) as usize;
        let inline_len: usize = get_u16(bytes, at + 34) as usize;
        if get_u32(bytes, at + 36) != 0 || tokens > MAX_DOCUMENT_TOKENS || terms > tokens
            || data_bytes < 16 || data_bytes as usize > MAX_DOCUMENT_BYTES || (data_head != NO_BLOCK
            && !block_valid(data_head)) {
            return Err(corrupt(at + 16));
        }
        if inline_len == 0 && inline_offset != 0 {
            return Err(corrupt(at + 32));
        }
        if inline_len != 0 && (inline_len != data_bytes as usize || data_head != NO_BLOCK
            || inline_offset < OWNER_HEADER + count as usize * OWNER_BYTES || inline_offset
            + inline_len > bytes.len()) {
            return Err(corrupt(at + 32));
        }
        let inline: &[u8] = if inline_len == 0 {
            &bytes[0..0]
        } else {
            &bytes[inline_offset..inline_offset + inline_len]
        };
        if (publication == Publication::FragmentsWritten || live) && inline_len == 0 && data_head
            == NO_BLOCK {
            return Err(corrupt(at + 24));
        }
        if publication == Publication::Allocated && data_head != NO_BLOCK {
            return Err(corrupt(at + 24));
        }
        assert(inline_len == 0 ==> inline@ =~= Seq::empty());
        Ok(
            Owner {
                reference: OwnerRef { page: self.block, slot, incarnation },
                root,
                publication,
                live,
                tokens,
                terms,
                data_head,
                data_bytes,
                inline,
            },
        )
    }

    /// Applies one explicit publication or liveness change.
    /// Invalid transitions leave the page unchanged.
    pub fn change_owner(
        &mut self,
        reference: OwnerRef,
        change: OwnerChange,
        layout: HeapLayout,
    ) -> (result: Result<()>)
        ensures
            match old(self)@.changed_owner(reference, change, layout) {
                Ok(image) => result is Ok && final(self)@ == image,
                Err(error) => result == Err::<(), Error>(error) && final(self)@ == old(self)@,
            },
    {
        let owner: Owner<'_> = self.owner(reference.slot, layout)?;
        if owner.reference.page != reference.page || owner.reference.slot != reference.slot
            || owner.reference.incarnation != reference.incarnation {
            return Err(corrupt(16));
        }
        let (state, live, head): (u8, u8, u32) = match change {
            OwnerChange::PayloadReady(head) => {
                if owner.publication != Publication::Allocated {
                    return Err(Error::InvalidState);
                }
                if (owner.inline.len() == 0 && !block_valid(head)) || (owner.inline.len() != 0
                    && head != NO_BLOCK) {
                    return Err(corrupt(24));
                }
                (1, 0, head)
            },
            OwnerChange::Publish => {
                if owner.publication != Publication::FragmentsWritten {
                    return Err(Error::InvalidState);
                }
                (2, 1, owner.data_head)
            },
            OwnerChange::Remove => {
                if owner.publication != Publication::Published || !owner.live {
                    return Err(Error::InvalidState);
                }
                (2, 0, NO_BLOCK)
            },
            OwnerChange::Abandon => {
                if owner.publication != Publication::Allocated && owner.publication
                    != Publication::FragmentsWritten {
                    return Err(Error::InvalidState);
                }
                (3, 0, NO_BLOCK)
            },
        };
        proof {
            use_type_invariant(&*self);
        }
        let at: usize = OWNER_HEADER + reference.slot as usize * OWNER_BYTES;
        let flags: [u8; 2] = [state, live];
        assert(flags@ =~= seq![state, live]);
        self.patch(at + 14, &flags);
        self.put_u32(at + 24, head)
    }

    pub fn posting_term(&self) -> (result: Result<TermRef>)
        ensures
            result == self@.posting_term(),
    {
        match self.kind {
            PageKind::Postings => {
                if self.u16(22)? != 0 {
                    return Err(corrupt(22));
                }
            },
            PageKind::SealedPostings => {},
            PageKind::DirectPostings => {},
            _ => {
                return Err(corrupt(6));
            },
        }
        let page: u32 = self.u32(16)?;
        let offset: u16 = self.u16(20)?;
        Ok(TermRef { page, offset })
    }

    /// Returns the number of records in a checked direct page.
    pub fn posting_count(&self) -> (result: Result<u16>)
        ensures
            result == self@.posting_count(),
    {
        self.require(PageKind::DirectPostings)?;
        self.u16(22)
    }

    /// Bounds the ordered owner range of one direct page without decoding it.
    pub fn direct_endpoints(&self) -> (result: Result<(OwnerRef, OwnerRef)>)
        ensures
            result == self@.direct_endpoints(),
    {
        self.require(PageKind::DirectPostings)?;
        let bytes: &[u8] = self.bytes();
        if bytes.len() < POSTING_HEADER + 16 {
            return Err(corrupt(POSTING_HEADER));
        }
        if bytes.len() < DIRECT_HEADER {
            return Err(corrupt(POSTING_HEADER + 16));
        }
        let mut reader: Reader = Reader::new(&bytes[POSTING_HEADER..POSTING_HEADER + 16]);
        let first: OwnerRef = OwnerRef::read(&mut reader)?;
        let mut reader: Reader = Reader::new(&bytes[POSTING_HEADER + 16..DIRECT_HEADER]);
        let last: OwnerRef = OwnerRef::read(&mut reader)?;
        Ok((first, last))
    }

    /// Reads a local live coordinate; it never certifies snapshot visibility.
    pub fn direct_root(&self, slot: u16, layout: HeapLayout) -> (result: Result<Option<RootTid>>)
        ensures
            result == self@.direct_root(slot, layout),
    {
        self.require(PageKind::DirectPostings)?;
        if slot >= self.u16(22)? {
            return Err(corrupt(22));
        }
        let at: usize = DIRECT_HEADER + slot as usize * 8;
        let bytes: &[u8] = self.bytes();
        if at + 8 > bytes.len() {
            return Err(corrupt(at));
        }
        let block: u32 = get_u32(bytes, at);
        let offset: u16 = get_u16(bytes, at + 4);
        let live: u8 = bytes[at + 6];
        if live > 1 || bytes[at + 7] != 0 {
            return Err(corrupt(POSTING_HEADER));
        }
        let root: RootTid = match RootTid::new(block, offset, layout) {
            Ok(root) => root,
            Err(_) => {
                return Err(corrupt(POSTING_HEADER));
            },
        };
        Ok(if live == 1 {
            Some(root)
        } else {
            None
        })
    }

    /// Clears a copied coordinate before the host can recycle its heap slot.
    pub fn remove_direct_root(&mut self, slot: u16, layout: HeapLayout) -> (result: Result<()>)
        ensures
            match old(self)@.direct_root(slot, layout) {
                Ok(_) => result is Ok && final(self)@ == old(self)@.patched(
                    62 + slot * 8,
                    seq![0u8],
                ),
                Err(error) => result == Err::<(), Error>(error) && final(self)@ == old(self)@,
            },
    {
        self.direct_root(slot, layout)?;
        proof {
            use_type_invariant(&*self);
        }
        let at: usize = DIRECT_HEADER + slot as usize * 8 + 6;
        let cleared: [u8; 1] = [0];
        assert(cleared@ =~= seq![0u8]);
        self.patch(at, &cleared);
        Ok(())
    }

    /// Returns false without mutation when this page has no room for the owner.
    pub fn append_posting(&mut self, owner: OwnerRef) -> (result: Result<bool>)
        ensures
            if old(self)@.kind != PageKind::Postings {
                result == Err::<bool, Error>(corrupted(6)) && final(self)@ == old(self)@
            } else if old(self)@.bytes.len() + 16 > CAPACITY {
                result == Ok::<bool, Error>(false) && final(self)@ == old(self)@
            } else if !owner.valid() {
                result == Err::<bool, Error>(corrupted(0)) && final(self)@ == old(self)@
            } else {
                result == Ok::<bool, Error>(true) && final(self)@ == (Image {
                    bytes: old(self)@.bytes + owner.code(),
                    ..old(self)@
                })
            },
    {
        proof {
            use_type_invariant(&*self);
        }
        self.require(PageKind::Postings)?;
        if self.len + 16 > CAPACITY {
            return Ok(false);
        }
        if !block_valid(owner.page) || owner.slot as usize >= OWNER_SLOTS {
            return Err(corrupt(0));
        }
        let record: [u8; 16] = owner.array();
        self.extend(&record);
        Ok(true)
    }

    pub fn fragment_data(&self) -> (result: Result<(OwnerRef, u32, &[u8])>)
        ensures
            match self@.fragment_data() {
                Ok((owner, offset, payload)) => result matches Ok(data) && data.0 == owner && data.1
                    == offset && data.2@ == payload,
                Err(error) => result matches Err(e) && e == error,
            },
    {
        proof {
            use_type_invariant(self);
        }
        self.require(PageKind::Fragment)?;
        let bytes: &[u8] = self.bytes();
        let mut reader: Reader = Reader::new(&bytes[HEADER..self.len]);
        let owner: OwnerRef = OwnerRef::read(&mut reader)?;
        let offset: u32 = lift(reader.u32())?;
        let length: usize = reader.remaining();
        let payload: &[u8] = lift(reader.take(length))?;
        Ok((owner, offset, payload))
    }
}

} // verus!
