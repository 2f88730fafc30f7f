//! Reference streams of posting pages.

use super::model::{
    corrupted, delta_at, delta_code, field_u16, posting_outcomes, posting_step, postings_image,
    resumed_outcomes, Image, OwnerRef, PageKind, TermRef, CAPACITY, DIRECT_HEADER, OWNER_SLOTS,
    POSTING_HEADER,
};
use super::{block_valid, corrupt, Page};
use crate::codec::bytes::{
    group_bytes, splice, u16_array, u16_bytes, u32_bytes, var_bytes, var_bytes_len, Reader, Writer,
};
use crate::error::{lift, Error, Result};
use crate::identity::{group_identity, HeapLayout, Incarnation, RootTid};
use vstd::prelude::*;

verus! {

broadcast use {group_bytes, group_identity};

/// Encodes one compressed difference; page and slot order follows stable owner
/// allocation, not reusable posting blocks.
fn delta_array(owner: OwnerRef, previous: Option<OwnerRef>) -> (result: Result<([u8; 20], usize)>)
    ensures
        match delta_code(owner, previous) {
            Ok(code) => result matches Ok(delta) && 3 <= delta.1 <= 20 && delta.0@.take(
                delta.1 as int,
            ) == code && code.len() == delta.1,
            Err(error) => result matches Err(e) && e == error,
        },
{
    let (page, slot, incarnation): (u32, u16, u64) = match previous {
        Some(earlier) => {
            if owner.page < earlier.page || (owner.page == earlier.page && owner.slot
                <= earlier.slot) || owner.incarnation.get() <= earlier.incarnation.get() {
                return Err(Error::InvalidState);
            }
            (
                owner.page - earlier.page,
                if owner.page == earlier.page {
                    owner.slot - earlier.slot
                } else {
                    owner.slot
                },
                owner.incarnation.get() - earlier.incarnation.get(),
            )
        },
        None => (owner.page, owner.slot, owner.incarnation.get()),
    };
    if !block_valid(owner.page) || owner.slot as usize >= OWNER_SLOTS {
        return Err(Error::InvalidState);
    }
    let mut bytes: [u8; 20] = [0u8; 20];
    let ghost before = bytes@;
    proof {
        var_bytes_len(page as nat);
        var_bytes_len(slot as nat);
        var_bytes_len(incarnation as nat);
        assert(before =~= splice(before, 0, Seq::empty()));
        assert(Seq::<u8>::empty() + var_bytes(page as nat) =~= var_bytes(page as nat));
    }
    let mut writer: Writer = Writer::new(&mut bytes);
    lift(writer.var_u32(page))?;
    lift(writer.var_u32(slot as u32))?;
    lift(writer.var_u64(incarnation))?;
    let len: usize = writer.len();
    assert(bytes@.take(len as int) =~= var_bytes(page as nat) + var_bytes(slot as nat) + var_bytes(
        incarnation as nat,
    ));
    Ok((bytes, len))
}

fn read_delta(reader: &mut Reader<'_>, previous: Option<OwnerRef>) -> (result: Result<OwnerRef>)
    ensures
        final(reader).source() == old(reader).source(),
        match delta_at(old(reader).source(), old(reader).offset() as int, previous) {
            Ok((owner, len)) => result == Ok::<OwnerRef, Error>(owner) && final(reader).advanced(
                *old(reader),
                len as int,
            ),
            Err(error) => result == Err::<OwnerRef, Error>(error),
        },
{
    let start: usize = reader.offset();
    let page_delta: u32 = lift(reader.var_u32())?;
    let slot_delta: u32 = lift(reader.var_u32())?;
    let incarnation_delta: u64 = lift(reader.var_u64())?;
    let (page, slot, number): (u32, u32, u64) = match previous {
        Some(earlier) => {
            if incarnation_delta == 0 || (page_delta == 0 && slot_delta == 0) {
                return Err(corrupt(start));
            }
            if page_delta > u32::MAX - earlier.page {
                return Err(corrupt(start));
            }
            let slot: u32 = if page_delta == 0 {
                if slot_delta > u32::MAX - earlier.slot as u32 {
                    return Err(corrupt(start));
                }
                earlier.slot as u32 + slot_delta
            } else {
                slot_delta
            };
            if incarnation_delta > u64::MAX - earlier.incarnation.get() {
                return Err(corrupt(start));
            }
            (earlier.page + page_delta, slot, earlier.incarnation.get() + incarnation_delta)
        },
        None => (page_delta, slot_delta, incarnation_delta),
    };
    if !block_valid(page) || slot as usize >= OWNER_SLOTS {
        return Err(corrupt(start));
    }
    let incarnation: Incarnation = match Incarnation::new(number) {
        Ok(incarnation) => incarnation,
        Err(_) => {
            return Err(corrupt(start));
        },
    };
    Ok(OwnerRef { page, slot: slot as u16, incarnation })
}

fn read_reference(reader: &mut Reader<'_>, compressed: bool, previous: Option<OwnerRef>) -> (result:
    Result<OwnerRef>)
    ensures
        final(reader).source() == old(reader).source(),
        match posting_step(
            old(reader).source(),
            old(reader).offset() as int,
            compressed,
            previous,
        ) {
            Ok((owner, len)) => result == Ok::<OwnerRef, Error>(owner) && final(reader).advanced(
                *old(reader),
                len as int,
            ),
            Err(error) => result == Err::<OwnerRef, Error>(error),
        },
{
    if compressed {
        read_delta(reader, previous)
    } else {
        OwnerRef::read(reader)
    }
}

/// An iterator over the references of a page that stops at the first failure.
pub struct Postings<'a> {
    reader: Reader<'a>,
    compressed: bool,
    remaining: u16,
    previous: Option<OwnerRef>,
    failed: bool,
}

impl<'a> View for Postings<'a> {
    type V = Seq<Result<OwnerRef>>;

    /// The outcomes still to come.
    closed spec fn view(&self) -> Seq<Result<OwnerRef>> {
        if self.failed {
            Seq::empty()
        } else {
            posting_outcomes(
                self.reader.source(),
                self.reader.offset() as int,
                self.compressed,
                self.remaining as nat,
                self.previous,
            )
        }
    }
}

impl<'a> Postings<'a> {
    /// Yields the next reference, or the failure that ends the iteration.
    pub fn next(&mut self) -> (item: Option<Result<OwnerRef>>)
        ensures
            if old(self)@.len() == 0 {
                item is None && final(self)@ == old(self)@
            } else {
                item == Some(old(self)@[0]) && final(self)@ == old(self)@.drop_first()
            },
    {
        if self.failed {
            return None;
        }
        if self.remaining == 0 {
            if self.reader.remaining() == 0 {
                return None;
            }
            self.failed = true;
            assert(self@ =~= old(self)@.drop_first());
            return Some(Err(corrupt(self.reader.offset())));
        }
        let result: Result<OwnerRef> = read_reference(
            &mut self.reader,
            self.compressed,
            self.previous,
        );
        self.remaining -= 1;
        match result {
            Ok(owner) => {
                self.previous = Some(owner);
            },
            Err(_) => {
                self.failed = true;
            },
        }
        assert(self@ =~= old(self)@.drop_first());
        Some(result)
    }
}

impl Page {
    pub fn posting_refs(&self) -> (result: Result<Postings<'_>>)
        ensures
            match self@.posting_stream() {
                Ok(stream) => result matches Ok(postings) && postings@ == stream.outcomes(),
                Err(error) => result matches Err(e) && e == error,
            },
    {
        let (compressed, count, start): (bool, u16, usize) = self.posting_parts()?;
        let bytes: &[u8] = self.bytes();
        Ok(
            Postings {
                reader: Reader::new(&bytes[start..bytes.len()]),
                compressed,
                remaining: count,
                previous: None,
                failed: false,
            },
        )
    }

    fn posting_parts(&self) -> (result: Result<(bool, u16, usize)>)
        ensures
            match self@.posting_stream() {
                Ok(stream) => result matches Ok(parts) && parts.0 == stream.compressed && parts.1
                    == stream.count && Ok::<int, Error>(parts.2 as int) == self@.posting_start()
                    && parts.2 <= self@.bytes.len() <= CAPACITY && stream.bytes
                    == self@.bytes.subrange(parts.2 as int, self@.bytes.len() as int) && parts.1
                    <= CAPACITY,
                Err(error) => result matches Err(e) && e == error,
            },
    {
        self.posting_term()?;
        let len: usize = self.bytes().len();
        if self.kind() == PageKind::Postings {
            if (len - POSTING_HEADER) % 16 != 0 {
                return Err(corrupt(POSTING_HEADER));
            }
            return Ok((false, ((len - POSTING_HEADER) / 16) as u16, POSTING_HEADER));
        }
        let count: u16 = self.u16(22)?;
        if count == 0 || count as usize > (len - POSTING_HEADER) / 3 {
            return Err(corrupt(22));
        }
        let start: usize = self.posting_start()?;
        if start > len {
            return Err(corrupt(22));
        }
        Ok((true, count, start))
    }

    fn posting_start(&self) -> (result: Result<usize>)
        ensures
            match self@.posting_start() {
                Ok(start) => result matches Ok(at) && at == start,
                Err(error) => result matches Err(e) && e == error,
            },
    {
        if self.kind() == PageKind::DirectPostings {
            Ok(DIRECT_HEADER + self.u16(22)? as usize * 8)
        } else {
            Ok(POSTING_HEADER)
        }
    }

    /// Reads the validated stream count without decoding owner references.
    pub(crate) fn posting_records(&self) -> (result: Result<usize>)
        ensures
            match self@.posting_stream() {
                Ok(stream) => result matches Ok(count) && count == stream.count,
                Err(error) => result matches Err(e) && e == error,
            },
    {
        let (_, count, _): (bool, u16, usize) = self.posting_parts()?;
        Ok(count as usize)
    }
}

/// Owns encoded bytes and decoder offsets without a self-referential borrow.
pub struct OwnedPostings {
    page: Page,
    offset: usize,
    compressed: bool,
    remaining: u16,
    previous: Option<OwnerRef>,
    failed: bool,
}

/// A page and the outcomes of its references that are still to come.
#[verifier::ext_equal]
pub struct PostingCursor {
    pub image: Image,
    pub remaining: nat,
    pub pending: Seq<Result<OwnerRef>>,
}

impl View for OwnedPostings {
    type V = PostingCursor;

    closed spec fn view(&self) -> PostingCursor {
        PostingCursor {
            image: self.page@,
            remaining: self.remaining as nat,
            pending: if self.failed {
                Seq::empty()
            } else {
                resumed_outcomes(
                    self.page@.bytes,
                    self.offset as int,
                    self.compressed,
                    self.remaining as nat,
                    self.previous,
                )
            },
        }
    }
}

/// The outcomes of all references of a page, for a resuming decoder.
pub open spec fn resumed_page(image: Image) -> Result<PostingCursor> {
    match image.posting_stream() {
        Err(error) => Err(error),
        Ok(stream) => Ok(
            PostingCursor {
                image,
                remaining: stream.count as nat,
                pending: resumed_outcomes(
                    image.bytes,
                    image.posting_start()->Ok_0,
                    stream.compressed,
                    stream.count as nat,
                    None,
                ),
            },
        ),
    }
}

/// The coordinate that belongs to the reference handed out last.
pub open spec fn current_root(cursor: PostingCursor, layout: HeapLayout) -> Result<
    Option<Option<RootTid>>,
> {
    if cursor.image.kind != PageKind::DirectPostings {
        Ok(None)
    } else {
        match field_u16(cursor.image.bytes, 22) {
            Err(error) => Err(error),
            Ok(count) => if count < cursor.remaining + 1 {
                Err(Error::InvalidState)
            } else {
                match cursor.image.direct_root((count - cursor.remaining - 1) as u16, layout) {
                    Err(error) => Err(error),
                    Ok(root) => Ok(Some(root)),
                }
            },
        }
    }
}

impl OwnedPostings {
    #[verifier::type_invariant]
    closed spec fn inv(self) -> bool {
        &&& self.offset <= self.page@.bytes.len()
        &&& self.page@.bytes.len() <= CAPACITY
        &&& self.remaining <= CAPACITY
    }

    pub fn new(page: Page) -> (result: Result<Self>)
        ensures
            match resumed_page(page@) {
                Ok(cursor) => result matches Ok(postings) && postings@ == cursor,
                Err(error) => result matches Err(e) && e == error,
            },
    {
        let (compressed, remaining, offset): (bool, u16, usize) = page.posting_parts()?;
        Ok(OwnedPostings { page, offset, compressed, remaining, previous: None, failed: false })
    }

    pub fn page(&self) -> (page: &Page)
        ensures
            page@ == self@.image,
    {
        &self.page
    }

    pub fn current_direct(&self, layout: HeapLayout) -> (result: Result<Option<Option<RootTid>>>)
        ensures
            result == current_root(self@, layout),
    {
        proof {
            use_type_invariant(self);
        }
        if self.page.kind() != PageKind::DirectPostings {
            return Ok(None);
        }
        let count: u16 = self.page.u16(22)?;
        if count < self.remaining + 1 {
            return Err(Error::InvalidState);
        }
        Ok(Some(self.page.direct_root(count - (self.remaining + 1), layout)?))
    }

    /// Yields the next reference; the decoder resumes at its exact byte offset.
    pub fn next(&mut self) -> (item: Option<Result<OwnerRef>>)
        ensures
            final(self)@.image == old(self)@.image,
            if old(self)@.pending.len() == 0 {
                item is None && final(self)@ == old(self)@
            } else {
                item == Some(old(self)@.pending[0]) && final(self)@.pending
                    == old(self)@.pending.drop_first() && (item matches Some(Ok(_)) ==> final(self)@.remaining == old(self)@.remaining - 1)
            },
    {
        proof {
            use_type_invariant(&*self);
        }
        if self.failed {
            return None;
        }
        let bytes: &[u8] = self.page.bytes();
        if self.remaining == 0 {
            if self.offset == bytes.len() {
                return None;
            }
            self.failed = true;
            assert(self@.pending =~= old(self)@.pending.drop_first());
            return Some(Err(corrupt(0)));
        }
        let mut reader: Reader = Reader::new(&bytes[self.offset..bytes.len()]);
        let result: Result<OwnerRef> = read_reference(&mut reader, self.compressed, self.previous);
        let taken: usize = reader.offset();
        let remaining: u16 = self.remaining - 1;
        match result {
            Ok(owner) => {
                let offset: usize = self.offset + taken;
                self.offset = offset;
                self.remaining = remaining;
                self.previous = Some(owner);
            },
            Err(_) => {
                self.remaining = remaining;
                self.failed = true;
            },
        }
        assert(self@.pending =~= old(self)@.pending.drop_first());
        Some(result)
    }
}

/// Builds one compressed page without a heap allocation or a decoder rescan.
pub struct SealedBuilder {
    page: Page,
    previous: Option<OwnerRef>,
    count: u16,
}

/// A page under construction, its last reference and its number of references.
#[verifier::ext_equal]
pub struct SealedModel {
    pub image: Image,
    pub previous: Option<OwnerRef>,
    pub count: nat,
}

impl SealedModel {
    /// The construction after one more reference; nothing when the page is full.
    pub open spec fn pushed(self, owner: OwnerRef) -> Result<Option<SealedModel>> {
        if self.image.kind != PageKind::SealedPostings {
            Err(corrupted(6))
        } else {
            match delta_code(owner, self.previous) {
                Err(error) => Err(error),
                Ok(code) => if self.image.bytes.len() + code.len() > CAPACITY {
                    Ok(None)
                } else {
                    Ok(
                        Some(
                            SealedModel {
                                image: Image {
                                    bytes: splice(
                                        self.image.bytes + code,
                                        22,
                                        u16_bytes((self.count + 1) as u16),
                                    ),
                                    ..self.image
                                },
                                previous: Some(owner),
                                count: self.count + 1,
                            },
                        ),
                    )
                },
            }
        }
    }

    /// The construction after one more reference with its coordinate.
    pub open spec fn pushed_direct(self, owner: OwnerRef, root: RootTid) -> Result<
        Option<SealedModel>,
    > {
        if self.image.kind != PageKind::DirectPostings {
            Err(corrupted(6))
        } else {
            match delta_code(owner, self.previous) {
                Err(error) => Err(error),
                Ok(code) => if self.image.bytes.len() + code.len() + 8 > CAPACITY {
                    Ok(None)
                } else {
                    let at = 56 + self.count * 8;
                    let bytes = self.image.bytes.take(at as int) + root_code(root)
                        + self.image.bytes.skip(at as int) + code;
                    let first = if self.count == 0 {
                        splice(bytes, 24, owner.code())
                    } else {
                        bytes
                    };
                    Ok(
                        Some(
                            SealedModel {
                                image: Image {
                                    bytes: splice(
                                        splice(first, 40, owner.code()),
                                        22,
                                        u16_bytes((self.count + 1) as u16),
                                    ),
                                    ..self.image
                                },
                                previous: Some(owner),
                                count: self.count + 1,
                            },
                        ),
                    )
                },
            }
        }
    }
}

/// The stored form of a live coordinate.
pub open spec fn root_code(root: RootTid) -> Seq<u8> {
    u32_bytes(root.block()) + u16_bytes(root.offset()) + seq![1u8] + seq![0u8]
}

fn root_array(root: RootTid) -> (bytes: [u8; 8])
    ensures
        bytes@ == root_code(root),
{
    let mut bytes: [u8; 8] = [0u8; 8];
    let ghost before = bytes@;
    assert(before =~= splice(before, 0, Seq::empty()));
    assert(Seq::<u8>::empty() + u32_bytes(root.block()) =~= u32_bytes(root.block()));
    let mut writer: Writer = Writer::new(&mut bytes);
    let a: crate::codec::Result<()> = writer.u32(root.block());
    let b: crate::codec::Result<()> = writer.u16(root.offset());
    let c: crate::codec::Result<()> = writer.u8(1);
    let d: crate::codec::Result<()> = writer.u8(0);
    assert(a is Ok && b is Ok && c is Ok && d is Ok);
    assert(bytes@ =~= root_code(root));
    bytes
}

impl View for SealedBuilder {
    type V = SealedModel;

    closed spec fn view(&self) -> SealedModel {
        SealedModel {
            image: self.page@,
            previous: self.previous,
            count: self.count as nat,
        }
    }
}

impl SealedBuilder {
    /// Every reference takes at least three bytes, and a coordinate eight more.
    pub closed spec fn wf(self) -> bool {
        &&& self.page@.bytes.len() <= CAPACITY
        &&& self.page@.kind == PageKind::SealedPostings ==> self.page@.bytes.len() >= 24 + 3
            * self.count
        &&& self.page@.kind == PageKind::DirectPostings ==> self.page@.bytes.len() >= 56 + 11
            * self.count
        &&& self.page@.kind == PageKind::SealedPostings || self.page@.kind
            == PageKind::DirectPostings
    }

    pub fn new(block: u32, term: TermRef) -> (result: Result<Self>)
        ensures
            match postings_image(block, term, PageKind::SealedPostings) {
                Ok(image) => result matches Ok(builder) && builder.wf() && builder@ == (SealedModel {
                    image,
                    previous: None,
                    count: 0,
                }),
                Err(error) => result matches Err(e) && e == error,
            },
    {
        let page: Page = Page::postings_of(block, term, PageKind::SealedPostings)?;
        Ok(SealedBuilder { page, previous: None, count: 0 })
    }

    pub fn new_direct(block: u32, term: TermRef) -> (result: Result<Self>)
        ensures
            match postings_image(block, term, PageKind::DirectPostings) {
                Ok(image) => result matches Ok(builder) && builder.wf() && builder@ == (SealedModel {
                    image: Image { bytes: image.bytes + Seq::new(32, |i: int| 0u8), ..image },
                    previous: None,
                    count: 0,
                }),
                Err(error) => result matches Err(e) && e == error,
            },
    {
        let mut page: Page = Page::postings_of(block, term, PageKind::DirectPostings)?;
        let ends: [u8; 32] = [0u8; 32];
        assert(ends@ =~= Seq::new(32, |i: int| 0u8));
        page.extend(&ends);
        Ok(SealedBuilder { page, previous: None, count: 0 })
    }

    /// Builds parallel fixed coordinate and compressed identity streams.
    pub fn push_direct(&mut self, owner: OwnerRef, root: RootTid) -> (result: Result<bool>)
        requires
            old(self).wf(),
        ensures
            final(self).wf(),
            match old(self)@.pushed_direct(owner, root) {
                Ok(Some(model)) => result == Ok::<bool, Error>(true) && final(self)@ == model,
                Ok(None) => result == Ok::<bool, Error>(false) && final(self)@ == old(self)@,
                Err(error) => result == Err::<bool, Error>(error) && final(self)@ == old(self)@,
            },
    {
        self.page.require(PageKind::DirectPostings)?;
        let (bytes, len): ([u8; 20], usize) = delta_array(owner, self.previous)?;
        let used: usize = self.page.bytes().len();
        if used + len + 8 > CAPACITY {
            return Ok(false);
        }
        let at: usize = DIRECT_HEADER + self.count as usize * 8;
        let coordinate: [u8; 8] = root_array(root);
        let record: [u8; 16] = owner.array();
        let delta: &[u8] = &bytes[0..len];
        assert(delta@ =~= bytes@.take(len as int));
        let count: u16 = self.count + 1;
        let number: [u8; 2] = u16_array(count);
        let first: bool = self.count == 0;
        let ghost before = self.page@.bytes;
        self.page.insert(at, &coordinate);
        self.page.extend(delta);
        if first {
            self.page.patch(POSTING_HEADER, &record);
        }
        self.page.patch(POSTING_HEADER + 16, &record);
        self.page.patch(22, &number);
        self.count = count;
        self.previous = Some(owner);
        Ok(true)
    }

    /// Returns false without mutation when this page has no room for the owner.
    pub fn push(&mut self, owner: OwnerRef) -> (result: Result<bool>)
        requires
            old(self).wf(),
        ensures
            final(self).wf(),
            match old(self)@.pushed(owner) {
                Ok(Some(model)) => result == Ok::<bool, Error>(true) && final(self)@ == model,
                Ok(None) => result == Ok::<bool, Error>(false) && final(self)@ == old(self)@,
                Err(error) => result == Err::<bool, Error>(error) && final(self)@ == old(self)@,
            },
    {
        self.page.require(PageKind::SealedPostings)?;
        let (bytes, len): ([u8; 20], usize) = delta_array(owner, self.previous)?;
        let used: usize = self.page.bytes().len();
        if used + len > CAPACITY {
            return Ok(false);
        }
        let delta: &[u8] = &bytes[0..len];
        assert(delta@ =~= bytes@.take(len as int));
        let count: u16 = self.count + 1;
        let number: [u8; 2] = u16_array(count);
        self.page.extend(delta);
        self.page.patch(22, &number);
        self.count = count;
        self.previous = Some(owner);
        Ok(true)
    }

    pub fn finish(self) -> (result: Result<Page>)
        ensures
            if self@.count == 0 {
                result matches Err(e) && e == Error::InvalidState
            } else {
                result matches Ok(page) && page@ == self@.image
            },
    {
        if self.count == 0 {
            return Err(Error::InvalidState);
        }
        Ok(self.page)
    }
}

} // verus!
