//! What page bytes mean: every reader of a page as a function of its image.

use crate::analysis::PROFILE_ID;
use crate::codec::bytes::{
    extent, le_u16, le_u32, le_u64, splice, u16_bytes, u32_bytes, u64_bytes, var_bytes, var_u32_at,
    var_u64_at,
};
use crate::codec::records::Publication;
use crate::codec::{Error as CodecError, ErrorKind};
use crate::error::{Error, Result};
use crate::identity::{coordinate_error, HeapLayout, Incarnation, RootTid};
use crate::mutable::document::{MAX_DOCUMENT_BYTES, MAX_DOCUMENT_TOKENS, MAX_TERM_BYTES};
use crate::text::text_bytes;
use vstd::prelude::*;
use vstd::utf8::valid_utf8;

verus! {

pub const NO_BLOCK: u32 = u32::MAX;

pub const CAPACITY: usize = 8168;

pub const BUCKETS: usize = 512;

pub const MAX_WAL_PAGES: usize = 3;

pub const HEADER: usize = 16;

pub const META_HEADER: usize = 64;

pub const OWNER_HEADER: usize = 20;

pub const OWNER_BYTES: usize = 40;

/// The number of owner records that one page can hold.
pub const OWNER_SLOTS: usize = 203;

pub const DICTIONARY_ENTRY: usize = 32;

pub const POSTING_HEADER: usize = 24;

pub const DIRECT_HEADER: usize = 56;

pub const FRAGMENT_HEADER: usize = 36;

pub const FRAGMENT_BYTES: usize = 8132;

pub const INLINE_BYTES: usize = 8108;

#[derive(Clone, Copy, Debug, Eq, PartialEq, Structural)]
pub enum PageKind {
    Zero,
    Meta,
    Owners,
    Dictionary,
    Postings,
    SealedPostings,
    DirectPostings,
    Grouped,
    DocumentDirectory,
    Fragment,
    Free,
}

/// One unreachable chain retained until recovery or retirement completes.
#[derive(Clone, Copy, Debug, Eq, PartialEq, Structural)]
pub struct RewriteJournal {
    pub head: u32,
    pub tail: u32,
    pub phase: RewritePhase,
}

#[derive(Clone, Copy, Debug, Eq, PartialEq, Structural)]
pub enum RewritePhase {
    Building,
    Retiring,
}

/// An immutable owner slot, qualified by its never-reused incarnation.
#[derive(Clone, Copy, Debug, Eq, PartialEq, Structural)]
pub struct OwnerRef {
    pub page: u32,
    pub slot: u16,
    pub incarnation: Incarnation,
}

#[derive(Clone, Copy, Debug, Eq, PartialEq, Structural)]
pub struct TermRef {
    pub page: u32,
    pub offset: u16,
}

/// A document's entry in an owner page.
#[derive(Clone, Copy, Debug)]
pub struct Owner<'a> {
    pub reference: OwnerRef,
    pub root: RootTid,
    pub publication: Publication,
    pub live: bool,
    pub tokens: u32,
    pub terms: u32,
    pub data_head: u32,
    pub data_bytes: u32,
    pub inline: &'a [u8],
}

/// A term's entry in a dictionary page.
#[derive(Clone, Copy, Debug)]
pub struct Term<'a> {
    pub reference: TermRef,
    pub term: &'a str,
    pub first: OwnerRef,
    pub head: u32,
    pub tail: u32,
}

/// Explicit publication and liveness changes; removal cannot republish an owner.
#[derive(Clone, Copy, Debug, Eq, PartialEq, Structural)]
pub enum OwnerChange {
    PayloadReady(u32),
    Publish,
    Remove,
    Abandon,
}

/// The failure of a malformed page at byte `offset`.
pub open spec fn corrupted(offset: int) -> Error {
    Error::Codec(CodecError { offset: offset as usize, kind: ErrorKind::InvalidValue })
}

/// The codec failure of `kind` at byte `offset`.
pub open spec fn broken(offset: int, kind: ErrorKind) -> Error {
    Error::Codec(CodecError { offset: offset as usize, kind })
}

/// The failure of a record that ends before byte `offset`.
pub open spec fn cut_short(offset: int) -> Error {
    broken(offset, ErrorKind::Truncated)
}

/// Whether `block` can belong to a chain: neither the metadata page nor none.
pub open spec fn is_block(block: u32) -> bool {
    block != 0 && block != NO_BLOCK
}

/// Whether `head` and `tail` are both absent or both blocks.
pub open spec fn is_posting_pair(head: u32, tail: u32) -> bool {
    (head == NO_BLOCK && tail == NO_BLOCK) || (is_block(head) && is_block(tail))
}

/// Whether `head` and `tail` bound an ascending chain or are both absent.
pub open spec fn is_pair(head: u32, tail: u32) -> bool {
    (head == NO_BLOCK && tail == NO_BLOCK) || (is_block(head) && is_block(tail) && tail >= head)
}

impl PageKind {
    /// The stored tag.
    pub open spec fn spec_tag(self) -> u8 {
        match self {
            PageKind::Zero => 0,
            PageKind::Meta => 1,
            PageKind::Owners => 2,
            PageKind::Dictionary => 3,
            PageKind::Postings => 4,
            PageKind::Fragment => 5,
            PageKind::Free => 6,
            PageKind::SealedPostings => 7,
            PageKind::DirectPostings => 9,
            PageKind::Grouped => 10,
            PageKind::DocumentDirectory => 11,
        }
    }

    /// The kind with the given tag; no tag names an unused page.
    pub open spec fn spec_of_tag(tag: u8) -> Option<PageKind> {
        if tag == 1 {
            Some(PageKind::Meta)
        } else if tag == 2 {
            Some(PageKind::Owners)
        } else if tag == 3 {
            Some(PageKind::Dictionary)
        } else if tag == 4 {
            Some(PageKind::Postings)
        } else if tag == 5 {
            Some(PageKind::Fragment)
        } else if tag == 6 {
            Some(PageKind::Free)
        } else if tag == 7 {
            Some(PageKind::SealedPostings)
        } else if tag == 9 {
            Some(PageKind::DirectPostings)
        } else if tag == 10 {
            Some(PageKind::Grouped)
        } else if tag == 11 {
            Some(PageKind::DocumentDirectory)
        } else {
            None
        }
    }
}

impl OwnerRef {
    /// Whether the reference can name a slot of some owner page.
    pub open spec fn valid(self) -> bool {
        is_block(self.page) && self.slot < OWNER_SLOTS
    }

    /// The sixteen stored bytes.
    pub open spec fn code(self) -> Seq<u8> {
        u32_bytes(self.page) + u16_bytes(self.slot) + u16_bytes(0) + u64_bytes(
            self.incarnation.get(),
        )
    }

    /// Whether this reference comes after `earlier` by place and by incarnation.
    pub open spec fn follows(self, earlier: OwnerRef) -> bool {
        &&& self.page > earlier.page || (self.page == earlier.page && self.slot > earlier.slot)
        &&& self.incarnation.get() > earlier.incarnation.get()
    }
}

/// The owner reference stored at `at`.
pub open spec fn owner_ref_at(bytes: Seq<u8>, at: int) -> Result<OwnerRef> {
    match extent(bytes, at, 4) {
        Err(error) => Err(Error::Codec(error)),
        Ok(_) => match extent(bytes, at + 4, 2) {
            Err(error) => Err(Error::Codec(error)),
            Ok(_) => match extent(bytes, at + 6, 2) {
                Err(error) => Err(Error::Codec(error)),
                Ok(_) => match extent(bytes, at + 8, 8) {
                    Err(error) => Err(Error::Codec(error)),
                    Ok(_) => {
                        let owner = OwnerRef {
                            page: le_u32(bytes, at),
                            slot: le_u16(bytes, at + 4),
                            incarnation: Incarnation::of(le_u64(bytes, at + 8)),
                        };
                        if le_u64(bytes, at + 8) == 0 || !owner.valid() || le_u16(bytes, at + 6)
                            != 0 {
                            Err(corrupted(at + 16))
                        } else {
                            Ok(owner)
                        }
                    },
                },
            },
        },
    }
}

/// A page as its used bytes and what surrounds them.
#[verifier::ext_equal]
pub struct Image {
    pub block: u32,
    pub kind: PageKind,
    pub initialize: bool,
    pub bytes: Seq<u8>,
}

/// The first twelve bytes of a page.
pub open spec fn page_header(block: u32, kind: PageKind) -> Seq<u8> {
    seq![0x50u8, 0x49u8, 0x4Eu8, 0x32u8] + u16_bytes(2) + seq![kind.spec_tag()] + seq![0u8]
        + u32_bytes(block)
}

/// The 16-bit number at `offset` of a page.
pub open spec fn field_u16(bytes: Seq<u8>, offset: int) -> Result<u16> {
    if offset > bytes.len() {
        Err(corrupted(offset))
    } else if offset + 2 > bytes.len() {
        Err(cut_short(0))
    } else {
        Ok(le_u16(bytes, offset))
    }
}

/// The 32-bit number at `offset` of a page.
pub open spec fn field_u32(bytes: Seq<u8>, offset: int) -> Result<u32> {
    if offset > bytes.len() {
        Err(corrupted(offset))
    } else if offset + 4 > bytes.len() {
        Err(cut_short(0))
    } else {
        Ok(le_u32(bytes, offset))
    }
}

/// The 64-bit number at `offset` of a page.
pub open spec fn field_u64(bytes: Seq<u8>, offset: int) -> Result<u64> {
    if offset > bytes.len() {
        Err(corrupted(offset))
    } else if offset + 8 > bytes.len() {
        Err(cut_short(0))
    } else {
        Ok(le_u64(bytes, offset))
    }
}

/// The page that a host read of `payload` gives.
pub open spec fn read_image(block: u32, payload: Seq<u8>) -> Result<Image> {
    let kind = PageKind::spec_of_tag(payload[6]);
    if block == NO_BLOCK {
        Err(corrupted(8))
    } else if payload.len() == 0 {
        Ok(Image { block, kind: PageKind::Zero, initialize: false, bytes: payload })
    } else if payload.len() > CAPACITY {
        Err(corrupted(0))
    } else if payload.len() < 4 {
        Err(cut_short(0))
    } else if payload.take(4) != seq![0x50u8, 0x49u8, 0x4Eu8, 0x32u8] {
        Err(broken(0, ErrorKind::BadMagic))
    } else if payload.len() < 6 {
        Err(cut_short(4))
    } else if le_u16(payload, 4) != 2 {
        Err(broken(4, ErrorKind::UnsupportedVersion))
    } else if payload.len() < 7 {
        Err(cut_short(6))
    } else if kind is None {
        Err(broken(6, ErrorKind::UnknownTag))
    } else if payload.len() < 8 {
        Err(cut_short(7))
    } else if payload[7] != 0 {
        Err(corrupted(7))
    } else if payload.len() < 12 {
        Err(cut_short(8))
    } else if le_u32(payload, 8) != block {
        Err(corrupted(7))
    } else if payload.len() < 16 {
        Err(cut_short(12))
    } else {
        let image = Image { block, kind: kind->Some_0, initialize: false, bytes: payload };
        match image.check_next() {
            Err(error) => Err(error),
            Ok(_) => Ok(image),
        }
    }
}

/// A page of `kind` that holds only its header.
pub open spec fn fresh_image(block: u32, kind: PageKind) -> Result<Image> {
    if block == NO_BLOCK || (block == 0) != (kind == PageKind::Meta) {
        Err(corrupted(8))
    } else if kind == PageKind::Zero {
        Err(corrupted(6))
    } else {
        Ok(
            Image {
                block,
                kind,
                initialize: false,
                bytes: page_header(block, kind) + u32_bytes(NO_BLOCK),
            },
        )
    }
}

/// The metadata of an empty index.
pub open spec fn metadata_bytes(layout: HeapLayout) -> Seq<u8> {
    page_header(0, PageKind::Meta) + u32_bytes(NO_BLOCK) + u32_bytes(PROFILE_ID) + u32_bytes(8192)
        + u16_bytes(layout.max_offset()) + u16_bytes(512) + u32_bytes(0) + u64_bytes(1)
        + u32_bytes(NO_BLOCK) + u32_bytes(NO_BLOCK) + u32_bytes(NO_BLOCK) + Seq::new(
        12,
        |i: int| 0u8,
    ) + Seq::new(4096, |i: int| 0xFFu8)
}

/// An empty page of references of `term`.
pub open spec fn postings_image(block: u32, term: TermRef, kind: PageKind) -> Result<Image> {
    if !is_block(term.page) || term.offset < 16 {
        Err(corrupted(16))
    } else {
        match fresh_image(block, kind) {
            Err(error) => Err(error),
            Ok(image) => Ok(
                Image {
                    bytes: image.bytes + u32_bytes(term.page) + u16_bytes(term.offset) + u16_bytes(
                        0,
                    ),
                    ..image
                },
            ),
        }
    }
}

/// One piece of a document.
pub open spec fn fragment_image(
    block: u32,
    owner: OwnerRef,
    next: u32,
    offset: u32,
    payload: Seq<u8>,
) -> Result<Image> {
    if payload.len() == 0 || payload.len() > FRAGMENT_BYTES {
        Err(corrupted(36))
    } else {
        match fresh_image(block, PageKind::Fragment) {
            Err(error) => Err(error),
            Ok(image) => if !owner.valid() {
                Err(corrupted(0))
            } else {
                let linked = Image {
                    bytes: page_header(block, PageKind::Fragment) + u32_bytes(next) + owner.code()
                        + u32_bytes(offset) + payload,
                    ..image
                };
                match linked.check_next() {
                    Err(error) => Err(error),
                    Ok(_) => Ok(linked),
                }
            },
        }
    }
}

/// A reusable page that links to the next one.
pub open spec fn free_image(block: u32, next: u32) -> Result<Image> {
    match fresh_image(block, PageKind::Free) {
        Err(error) => Err(error),
        Ok(image) => {
            let linked = Image {
                bytes: page_header(block, PageKind::Free) + u32_bytes(next),
                ..image
            };
            match linked.check_next() {
                Err(error) => Err(error),
                Ok(_) => Ok(linked),
            }
        },
    }
}

/// The stored form of a journal: its ends and its phase, or three zeros.
pub open spec fn journal_code(journal: Option<RewriteJournal>) -> Seq<u8> {
    match journal {
        Some(chain) => u32_bytes(chain.head) + u32_bytes(chain.tail) + u32_bytes(
            match chain.phase {
                RewritePhase::Building => 1,
                RewritePhase::Retiring => 2,
            },
        ),
        None => u32_bytes(0) + u32_bytes(0) + u32_bytes(0),
    }
}

/// What an owner slot holds.
#[verifier::ext_equal]
pub struct OwnerModel {
    pub reference: OwnerRef,
    pub root: RootTid,
    pub publication: Publication,
    pub live: bool,
    pub tokens: u32,
    pub terms: u32,
    pub data_head: u32,
    pub data_bytes: u32,
    pub inline: Seq<u8>,
}

impl<'a> View for Owner<'a> {
    type V = OwnerModel;

    open spec fn view(&self) -> OwnerModel {
        OwnerModel {
            reference: self.reference,
            root: self.root,
            publication: self.publication,
            live: self.live,
            tokens: self.tokens,
            terms: self.terms,
            data_head: self.data_head,
            data_bytes: self.data_bytes,
            inline: self.inline@,
        }
    }
}

/// The publication, liveness and payload head that a change leads to.
pub open spec fn owner_step(owner: OwnerModel, change: OwnerChange) -> Result<
    (Publication, bool, u32),
> {
    match change {
        OwnerChange::PayloadReady(head) => if owner.publication != Publication::Allocated {
            Err(Error::InvalidState)
        } else if (owner.inline.len() == 0 && !is_block(head)) || (owner.inline.len() != 0 && head
            != NO_BLOCK) {
            Err(corrupted(24))
        } else {
            Ok((Publication::FragmentsWritten, false, head))
        },
        OwnerChange::Publish => if owner.publication != Publication::FragmentsWritten {
            Err(Error::InvalidState)
        } else {
            Ok((Publication::Published, true, owner.data_head))
        },
        OwnerChange::Remove => if owner.publication != Publication::Published || !owner.live {
            Err(Error::InvalidState)
        } else {
            Ok((Publication::Published, false, NO_BLOCK))
        },
        OwnerChange::Abandon => if owner.publication != Publication::Allocated
            && owner.publication != Publication::FragmentsWritten {
            Err(Error::InvalidState)
        } else {
            Ok((Publication::Abandoned, false, NO_BLOCK))
        },
    }
}

/// The owner record of a new document.
pub open spec fn owner_record(
    incarnation: Incarnation,
    root: RootTid,
    tokens: u32,
    terms: u32,
    data_bytes: u32,
    inline_offset: u16,
    inline_len: u16,
) -> Seq<u8> {
    u64_bytes(incarnation.get()) + u32_bytes(root.block()) + u16_bytes(root.offset()) + seq![0u8]
        + seq![0u8] + u32_bytes(tokens) + u32_bytes(terms) + u32_bytes(NO_BLOCK) + u32_bytes(
        data_bytes,
    ) + u16_bytes(inline_offset) + u16_bytes(inline_len) + u32_bytes(0)
}

/// Owner bytes whose first `slots` records point `OWNER_BYTES` further on.
pub open spec fn relocated(bytes: Seq<u8>, slots: nat) -> Result<Seq<u8>>
    decreases slots,
{
    if slots == 0 {
        Ok(bytes)
    } else {
        let at = 20 + (slots - 1) * 40 + 32;
        match relocated(bytes, (slots - 1) as nat) {
            Err(error) => Err(error),
            Ok(moved) => {
                let offset = le_u16(moved, at);
                if offset == 0 {
                    Ok(moved)
                } else if offset + 40 > u16::MAX {
                    Err(corrupted(at))
                } else {
                    Ok(splice(moved, at, u16_bytes((offset + 40) as u16)))
                }
            },
        }
    }
}

/// What a dictionary entry holds; the term as its bytes.
#[verifier::ext_equal]
pub struct TermModel {
    pub reference: TermRef,
    pub term: Seq<u8>,
    pub first: OwnerRef,
    pub head: u32,
    pub tail: u32,
}

impl<'a> View for Term<'a> {
    type V = TermModel;

    open spec fn view(&self) -> TermModel {
        TermModel {
            reference: self.reference,
            term: text_bytes(self.term),
            first: self.first,
            head: self.head,
            tail: self.tail,
        }
    }
}

/// The dictionary entry at `at` of the entries, and where it ends.
pub open spec fn term_at(page: u32, entries: Seq<u8>, at: int) -> Result<(TermModel, int)> {
    let len = le_u16(entries, at) as int;
    let head = le_u32(entries, at + 4);
    let tail = le_u32(entries, at + 8);
    let place = at + 16;
    if at + 2 > entries.len() {
        Err(cut_short(at))
    } else if len == 0 || len > MAX_TERM_BYTES {
        Err(corrupted(place))
    } else if at + 4 > entries.len() {
        Err(cut_short(at + 2))
    } else if le_u16(entries, at + 2) != 0 {
        Err(corrupted(place))
    } else if at + 8 > entries.len() {
        Err(cut_short(at + 4))
    } else if at + 12 > entries.len() {
        Err(cut_short(at + 8))
    } else {
        match owner_ref_at(entries, at + 12) {
            Err(error) => Err(error),
            Ok(first) => if !is_posting_pair(head, tail) {
                Err(corrupted(place + 4))
            } else if at + 32 > entries.len() {
                Err(cut_short(at + 28))
            } else if le_u32(entries, at + 28) != 0 {
                Err(corrupted(place + 4))
            } else if at + 32 + len > entries.len() {
                Err(cut_short(at + 32))
            } else if !valid_utf8(entries.subrange(at + 32, at + 32 + len)) {
                Err(corrupted(place + 32))
            } else {
                Ok(
                    (
                        TermModel {
                            reference: TermRef { page, offset: place as u16 },
                            term: entries.subrange(at + 32, at + 32 + len),
                            first,
                            head,
                            tail,
                        },
                        at + 32 + len,
                    ),
                )
            },
        }
    }
}

/// The stored form of a new dictionary entry.
pub open spec fn term_code(term: Seq<u8>, first: OwnerRef) -> Seq<u8> {
    u16_bytes(term.len() as u16) + u16_bytes(0) + u32_bytes(NO_BLOCK) + u32_bytes(NO_BLOCK)
        + first.code() + u32_bytes(0) + term
}

/// The routing hash of a term.
pub open spec fn term_hash(term: Seq<u8>) -> u64
    decreases term.len(),
{
    if term.len() == 0 {
        0xcbf2_9ce4_8422_2325
    } else {
        (term_hash(term.drop_last()) ^ (term.last() as u64)).wrapping_mul(0x100_0000_01b3)
    }
}

/// The bucket that a term is routed to.
pub open spec fn term_bucket(term: Seq<u8>) -> int {
    (term_hash(term) % 512) as int
}

/// The dictionary entries from `at` on, up to the first failure.
pub open spec fn term_outcomes(page: u32, entries: Seq<u8>, at: int) -> Seq<Result<TermModel>>
    decreases entries.len() - at,
{
    if at >= entries.len() {
        Seq::empty()
    } else {
        match term_at(page, entries, at) {
            Err(error) => seq![Err(error)],
            Ok((term, end)) => if end <= at {
                Seq::empty()
            } else {
                seq![Ok(term)] + term_outcomes(page, entries, end)
            },
        }
    }
}

/// The compressed difference of `owner` from `previous`.
pub open spec fn delta_code(owner: OwnerRef, previous: Option<OwnerRef>) -> Result<Seq<u8>> {
    if (previous matches Some(earlier) && !owner.follows(earlier)) || !owner.valid() {
        Err(Error::InvalidState)
    } else {
        Ok(
            match previous {
                Some(earlier) => var_bytes((owner.page - earlier.page) as nat) + var_bytes(
                    if owner.page == earlier.page {
                        (owner.slot - earlier.slot) as nat
                    } else {
                        owner.slot as nat
                    },
                ) + var_bytes((owner.incarnation.get() - earlier.incarnation.get()) as nat),
                None => var_bytes(owner.page as nat) + var_bytes(owner.slot as nat) + var_bytes(
                    owner.incarnation.get() as nat,
                ),
            },
        )
    }
}

/// The owner whose difference from `previous` stands at `at`, and its length.
pub open spec fn delta_at(bytes: Seq<u8>, at: int, previous: Option<OwnerRef>) -> Result<
    (OwnerRef, nat),
> {
    match var_u32_at(bytes, at) {
        Err(error) => Err(Error::Codec(error)),
        Ok((page_delta, page_len)) => match var_u32_at(bytes, at + page_len) {
            Err(error) => Err(Error::Codec(error)),
            Ok((slot_delta, slot_len)) => match var_u64_at(bytes, at + page_len + slot_len) {
                Err(error) => Err(Error::Codec(error)),
                Ok((incarnation_delta, incarnation_len)) => {
                    let len = page_len + slot_len + incarnation_len;
                    let (page, slot, incarnation) = match previous {
                        Some(earlier) => (
                            earlier.page + page_delta,
                            if page_delta == 0 {
                                earlier.slot + slot_delta
                            } else {
                                slot_delta as int
                            },
                            earlier.incarnation.get() + incarnation_delta,
                        ),
                        None => (page_delta as int, slot_delta as int, incarnation_delta as int),
                    };
                    if previous is Some && (incarnation_delta == 0 || (page_delta == 0 && slot_delta
                        == 0)) {
                        Err(corrupted(at))
                    } else if page == 0 || page >= NO_BLOCK || slot >= OWNER_SLOTS || incarnation
                        == 0 || incarnation > u64::MAX {
                        Err(corrupted(at))
                    } else {
                        Ok(
                            (
                                OwnerRef {
                                    page: page as u32,
                                    slot: slot as u16,
                                    incarnation: Incarnation::of(incarnation as u64),
                                },
                                len,
                            ),
                        )
                    }
                },
            },
        },
    }
}

/// The references of a posting stream from `at` on, up to the first failure.
/// Bytes behind the last reference are a failure too.
pub open spec fn posting_outcomes(
    bytes: Seq<u8>,
    at: int,
    compressed: bool,
    remaining: nat,
    previous: Option<OwnerRef>,
) -> Seq<Result<OwnerRef>>
    decreases remaining,
{
    if remaining == 0 {
        if at >= bytes.len() {
            Seq::empty()
        } else {
            seq![Err(corrupted(at))]
        }
    } else {
        match posting_step(bytes, at, compressed, previous) {
            Err(error) => seq![Err(error)],
            Ok((owner, len)) => seq![Ok(owner)] + posting_outcomes(
                bytes,
                at + len,
                compressed,
                (remaining - 1) as nat,
                Some(owner),
            ),
        }
    }
}

/// The references of a posting stream from `at` on, where each failure counts
/// its place from the reference that failed.
pub open spec fn resumed_outcomes(
    bytes: Seq<u8>,
    at: int,
    compressed: bool,
    remaining: nat,
    previous: Option<OwnerRef>,
) -> Seq<Result<OwnerRef>>
    decreases remaining,
{
    if remaining == 0 {
        if at >= bytes.len() {
            Seq::empty()
        } else {
            seq![Err(corrupted(0))]
        }
    } else {
        match posting_step(bytes.subrange(at, bytes.len() as int), 0, compressed, previous) {
            Err(error) => seq![Err(error)],
            Ok((owner, len)) => seq![Ok(owner)] + resumed_outcomes(
                bytes,
                at + len,
                compressed,
                (remaining - 1) as nat,
                Some(owner),
            ),
        }
    }
}

/// One reference of a posting stream and its length.
pub open spec fn posting_step(
    bytes: Seq<u8>,
    at: int,
    compressed: bool,
    previous: Option<OwnerRef>,
) -> Result<(OwnerRef, nat)> {
    if compressed {
        delta_at(bytes, at, previous)
    } else {
        match owner_ref_at(bytes, at) {
            Err(error) => Err(error),
            Ok(owner) => Ok((owner, 16)),
        }
    }
}

/// How the references of a page are stored: compression, number and stream.
#[verifier::ext_equal]
pub struct PostingStream {
    pub compressed: bool,
    pub count: u16,
    pub bytes: Seq<u8>,
}

impl PostingStream {
    pub open spec fn outcomes(self) -> Seq<Result<OwnerRef>> {
        posting_outcomes(self.bytes, 0, self.compressed, self.count as nat, None)
    }
}

/// The first fault among references from `index` on: a failure, or one that
/// does not follow its predecessor.
pub open spec fn postings_checked(
    outcomes: Seq<Result<OwnerRef>>,
    index: int,
    previous: Option<OwnerRef>,
) -> Result<()>
    decreases outcomes.len() - index,
{
    if index >= outcomes.len() {
        Ok(())
    } else {
        match outcomes[index] {
            Err(error) => Err(error),
            Ok(reference) => if previous matches Some(earlier) && !reference.follows(earlier) {
                Err(corrupted(24))
            } else {
                postings_checked(outcomes, index + 1, Some(reference))
            },
        }
    }
}

/// The first failure among dictionary entries from `index` on.
pub open spec fn terms_checked(outcomes: Seq<Result<TermModel>>, index: int) -> Result<()>
    decreases outcomes.len() - index,
{
    if index >= outcomes.len() {
        Ok(())
    } else {
        match outcomes[index] {
            Err(error) => Err(error),
            Ok(_) => terms_checked(outcomes, index + 1),
        }
    }
}

/// The entry with the given reference among the outcomes from `index` on.
pub open spec fn term_found(
    outcomes: Seq<Result<TermModel>>,
    index: int,
    reference: TermRef,
) -> Result<TermModel>
    decreases outcomes.len() - index,
{
    if index >= outcomes.len() {
        Err(corrupted(reference.offset as int))
    } else {
        match outcomes[index] {
            Err(error) => Err(error),
            Ok(term) => if term.reference == reference {
                Ok(term)
            } else {
                term_found(outcomes, index + 1, reference)
            },
        }
    }
}

impl Image {
    /// Bytes replaced at `at`; everything else as before.
    pub open spec fn patched(self, at: int, value: Seq<u8>) -> Image {
        Image { bytes: splice(self.bytes, at, value), ..self }
    }

    pub open spec fn next(self) -> Result<u32> {
        field_u32(self.bytes, 12)
    }

    /// Whether the link to the next page is acceptable.
    pub open spec fn check_next(self) -> Result<()> {
        match self.next() {
            Err(error) => Err(error),
            Ok(next) => if next == NO_BLOCK {
                Ok(())
            } else if !is_block(next) || next == self.block || self.kind == PageKind::Meta {
                Err(corrupted(12))
            } else if (self.kind == PageKind::Owners || self.kind == PageKind::Dictionary) && next
                <= self.block {
                Err(corrupted(12))
            } else {
                Ok(())
            },
        }
    }

    /// The pair of blocks at `offset`, which must bound an ascending chain.
    pub open spec fn pair_at(self, offset: int) -> Result<(u32, u32)> {
        match field_u32(self.bytes, offset) {
            Err(error) => Err(error),
            Ok(head) => match field_u32(self.bytes, offset + 4) {
                Err(error) => Err(error),
                Ok(tail) => if is_pair(head, tail) {
                    Ok((head, tail))
                } else {
                    Err(corrupted(offset))
                },
            },
        }
    }

    pub open spec fn owner_chain(self) -> Result<(u32, u32)> {
        if self.kind != PageKind::Meta {
            Err(corrupted(6))
        } else {
            self.pair_at(40)
        }
    }

    pub open spec fn bucket(self, bucket: int) -> Result<(u32, u32)> {
        if self.kind != PageKind::Meta {
            Err(corrupted(6))
        } else if bucket >= BUCKETS {
            Err(corrupted(64))
        } else {
            self.pair_at(64 + bucket * 8)
        }
    }

    pub open spec fn free_head(self) -> Result<u32> {
        if self.kind != PageKind::Meta {
            Err(corrupted(6))
        } else {
            match field_u32(self.bytes, 48) {
                Err(error) => Err(error),
                Ok(block) => if block != NO_BLOCK && !is_block(block) {
                    Err(corrupted(48))
                } else {
                    Ok(block)
                },
            }
        }
    }

    pub open spec fn rewrite_journal(self) -> Result<Option<RewriteJournal>> {
        if self.kind != PageKind::Meta {
            Err(corrupted(6))
        } else {
            match field_u32(self.bytes, 52) {
                Err(error) => Err(error),
                Ok(head) => match field_u32(self.bytes, 56) {
                    Err(error) => Err(error),
                    Ok(tail) => match field_u32(self.bytes, 60) {
                        Err(error) => Err(error),
                        Ok(phase) => if phase == 0 && head == 0 && tail == 0 {
                            Ok(None)
                        } else if phase != 1 && phase != 2 {
                            Err(corrupted(60))
                        } else if !is_block(head) || !is_block(tail) {
                            Err(corrupted(52))
                        } else {
                            Ok(
                                Some(
                                    RewriteJournal {
                                        head,
                                        tail,
                                        phase: if phase == 1 {
                                            RewritePhase::Building
                                        } else {
                                            RewritePhase::Retiring
                                        },
                                    },
                                ),
                            )
                        },
                    },
                },
            }
        }
    }

    pub open spec fn owner_count(self) -> Result<u16> {
        if self.kind != PageKind::Owners {
            Err(corrupted(6))
        } else {
            match field_u16(self.bytes, 16) {
                Err(error) => Err(error),
                Ok(count) => match field_u16(self.bytes, 18) {
                    Err(error) => Err(error),
                    Ok(reserved) => if reserved != 0 || 20 + count * 40 > self.bytes.len() {
                        Err(corrupted(16))
                    } else {
                        Ok(count)
                    },
                },
            }
        }
    }

    /// What the owner slot holds, or the first thing wrong with it.
    pub open spec fn owner(self, slot: u16, layout: HeapLayout) -> Result<OwnerModel> {
        match self.owner_count() {
            Err(error) => Err(error),
            Ok(count) => {
                let at = 20 + slot * 40;
                let bytes = self.bytes;
                let publication = Publication::spec_of_tag(bytes[at + 14]);
                let live = bytes[at + 15] == 1;
                let tokens = le_u32(bytes, at + 16);
                let terms = le_u32(bytes, at + 20);
                let data_head = le_u32(bytes, at + 24);
                let data_bytes = le_u32(bytes, at + 28);
                let inline_offset = le_u16(bytes, at + 32);
                let inline_len = le_u16(bytes, at + 34);
                if slot >= count {
                    Err(corrupted(16))
                } else if le_u64(bytes, at) == 0 {
                    Err(corrupted(at))
                } else if coordinate_error(le_u32(bytes, at + 8), le_u16(bytes, at + 12), layout)
                    is Some {
                    Err(corrupted(at + 8))
                } else if publication is None {
                    Err(corrupted(at + 14))
                } else if bytes[at + 15] > 1 || (live && publication != Some(
                    Publication::Published,
                )) {
                    Err(corrupted(at + 15))
                } else if le_u32(bytes, at + 36) != 0 || tokens > MAX_DOCUMENT_TOKENS || terms
                    > tokens || data_bytes < 16 || data_bytes > MAX_DOCUMENT_BYTES || (data_head
                    != NO_BLOCK && !is_block(data_head)) {
                    Err(corrupted(at + 16))
                } else if inline_len == 0 && inline_offset != 0 {
                    Err(corrupted(at + 32))
                } else if inline_len != 0 && (inline_len != data_bytes || data_head != NO_BLOCK
                    || inline_offset < 20 + count * 40 || inline_offset + inline_len
                    > bytes.len()) {
                    Err(corrupted(at + 32))
                } else if (publication == Some(Publication::FragmentsWritten) || live) && inline_len
                    == 0 && data_head == NO_BLOCK {
                    Err(corrupted(at + 24))
                } else if publication == Some(Publication::Allocated) && data_head != NO_BLOCK {
                    Err(corrupted(at + 24))
                } else {
                    Ok(
                        OwnerModel {
                            reference: OwnerRef {
                                page: self.block,
                                slot,
                                incarnation: Incarnation::of(le_u64(bytes, at)),
                            },
                            root: RootTid::of(le_u32(bytes, at + 8), le_u16(bytes, at + 12)),
                            publication: publication->Some_0,
                            live,
                            tokens,
                            terms,
                            data_head,
                            data_bytes,
                            inline: if inline_len == 0 {
                                Seq::empty()
                            } else {
                                bytes.subrange(
                                    inline_offset as int,
                                    inline_offset + inline_len,
                                )
                            },
                        },
                    )
                }
            },
        }
    }

    /// The incarnation that the metadata hands out next.
    pub open spec fn reserved_incarnation(self) -> Result<Incarnation> {
        if self.kind != PageKind::Meta {
            Err(corrupted(6))
        } else {
            match field_u64(self.bytes, 32) {
                Err(error) => Err(error),
                Ok(value) => if value == u64::MAX {
                    Err(Error::Limit("incarnation space"))
                } else if value == 0 {
                    Err(corrupted(32))
                } else {
                    Ok(Incarnation::of(value))
                },
            }
        }
    }

    /// The page after a publication or liveness change of the named owner.
    pub open spec fn changed_owner(
        self,
        reference: OwnerRef,
        change: OwnerChange,
        layout: HeapLayout,
    ) -> Result<Image> {
        match self.owner(reference.slot, layout) {
            Err(error) => Err(error),
            Ok(owner) => if owner.reference != reference {
                Err(corrupted(16))
            } else {
                match owner_step(owner, change) {
                    Err(error) => Err(error),
                    Ok((publication, live, head)) => {
                        let at = 20 + reference.slot * 40;
                        Ok(
                            self.patched(
                                at + 14,
                                seq![
                                    publication.spec_tag(),
                                    if live {
                                        1u8
                                    } else {
                                        0u8
                                    },
                                ],
                            ).patched(at + 24, u32_bytes(head)),
                        )
                    },
                }
            },
        }
    }

    /// The page with one more owner, or nothing when it is full.
    pub open spec fn appended_owner(
        self,
        incarnation: Incarnation,
        root: RootTid,
        tokens: u32,
        terms: u32,
        payload: Seq<u8>,
    ) -> Result<Option<(OwnerRef, Image)>> {
        match self.owner_count() {
            Err(error) => Err(error),
            Ok(count) => {
                let inline = if payload.len() <= INLINE_BYTES {
                    payload
                } else {
                    Seq::empty()
                };
                let at = 20 + count * 40;
                let place = self.bytes.len() + 40;
                if tokens > MAX_DOCUMENT_TOKENS || terms > tokens || payload.len() < 16
                    || payload.len() > MAX_DOCUMENT_BYTES {
                    Err(Error::InvalidDocument)
                } else if place + inline.len() > CAPACITY {
                    Ok(None)
                } else {
                    match relocated(self.bytes, count as nat) {
                        Err(error) => Err(error),
                        Ok(moved) => {
                            let record = owner_record(
                                incarnation,
                                root,
                                tokens,
                                terms,
                                payload.len() as u32,
                                if inline.len() == 0 {
                                    0
                                } else {
                                    place as u16
                                },
                                inline.len() as u16,
                            );
                            let bytes = moved.take(at) + record + moved.skip(at) + inline;
                            Ok(
                                Some(
                                    (
                                        OwnerRef { page: self.block, slot: count, incarnation },
                                        Image {
                                            bytes: splice(
                                                bytes,
                                                16,
                                                u16_bytes((count + 1) as u16),
                                            ),
                                            ..self
                                        },
                                    ),
                                ),
                            )
                        },
                    }
                }
            },
        }
    }

    /// The bytes of the dictionary entries.
    pub open spec fn entries(self) -> Seq<u8> {
        self.bytes.subrange(16, self.bytes.len() as int)
    }

    /// The dictionary entries, up to the first failure.
    pub open spec fn terms(self) -> Result<Seq<Result<TermModel>>> {
        if self.kind != PageKind::Dictionary {
            Err(corrupted(6))
        } else {
            Ok(term_outcomes(self.block, self.entries(), 0))
        }
    }

    pub open spec fn term(self, reference: TermRef) -> Result<TermModel> {
        if reference.page != self.block {
            Err(corrupted(8))
        } else {
            match self.terms() {
                Err(error) => Err(error),
                Ok(outcomes) => term_found(outcomes, 0, reference),
            }
        }
    }

    pub open spec fn holds_postings(self) -> bool {
        self.kind == PageKind::Postings || self.kind == PageKind::SealedPostings || self.kind
            == PageKind::DirectPostings
    }

    /// The term whose references the page lists.
    pub open spec fn posting_term(self) -> Result<TermRef> {
        if !self.holds_postings() {
            Err(corrupted(6))
        } else if self.kind == PageKind::Postings && field_u16(self.bytes, 22) is Err {
            Err(field_u16(self.bytes, 22)->Err_0)
        } else if self.kind == PageKind::Postings && le_u16(self.bytes, 22) != 0 {
            Err(corrupted(22))
        } else {
            match field_u32(self.bytes, 16) {
                Err(error) => Err(error),
                Ok(page) => match field_u16(self.bytes, 20) {
                    Err(error) => Err(error),
                    Ok(offset) => Ok(TermRef { page, offset }),
                },
            }
        }
    }

    /// The stream of references.
    pub open spec fn posting_stream(self) -> Result<PostingStream> {
        let len = self.bytes.len();
        match self.posting_term() {
            Err(error) => Err(error),
            Ok(_) => if self.kind == PageKind::Postings {
                if (len - 24) % 16 != 0 {
                    Err(corrupted(24))
                } else {
                    Ok(
                        PostingStream {
                            compressed: false,
                            count: ((len - 24) / 16) as u16,
                            bytes: self.bytes.subrange(24, len as int),
                        },
                    )
                }
            } else {
                match field_u16(self.bytes, 22) {
                    Err(error) => Err(error),
                    Ok(count) => {
                        let start = if self.kind == PageKind::DirectPostings {
                            56 + count * 8
                        } else {
                            24
                        };
                        if count == 0 || count > (len - 24) / 3 {
                            Err(corrupted(22))
                        } else if start > len {
                            Err(corrupted(22))
                        } else {
                            Ok(
                                PostingStream {
                                    compressed: true,
                                    count,
                                    bytes: self.bytes.subrange(start, len as int),
                                },
                            )
                        }
                    },
                }
            },
        }
    }

    /// Where the references start.
    pub open spec fn posting_start(self) -> Result<int> {
        if self.kind != PageKind::DirectPostings {
            Ok(24)
        } else {
            match field_u16(self.bytes, 22) {
                Err(error) => Err(error),
                Ok(count) => Ok(56 + count * 8),
            }
        }
    }

    pub open spec fn posting_count(self) -> Result<u16> {
        if self.kind != PageKind::DirectPostings {
            Err(corrupted(6))
        } else {
            field_u16(self.bytes, 22)
        }
    }

    /// The first and the last reference that a direct page names in its header.
    pub open spec fn direct_endpoints(self) -> Result<(OwnerRef, OwnerRef)> {
        if self.kind != PageKind::DirectPostings {
            Err(corrupted(6))
        } else if self.bytes.len() < 40 {
            Err(corrupted(24))
        } else if self.bytes.len() < 56 {
            Err(corrupted(40))
        } else {
            match owner_ref_at(self.bytes.subrange(24, 40), 0) {
                Err(error) => Err(error),
                Ok(first) => match owner_ref_at(self.bytes.subrange(40, 56), 0) {
                    Err(error) => Err(error),
                    Ok(last) => Ok((first, last)),
                },
            }
        }
    }

    /// The coordinate of a direct record, if it is still live.
    pub open spec fn direct_root(self, slot: u16, layout: HeapLayout) -> Result<Option<RootTid>> {
        match self.posting_count() {
            Err(error) => Err(error),
            Ok(count) => {
                let at = 56 + slot * 8;
                let block = le_u32(self.bytes, at);
                let offset = le_u16(self.bytes, at + 4);
                if slot >= count {
                    Err(corrupted(22))
                } else if at + 8 > self.bytes.len() {
                    Err(corrupted(at))
                } else if self.bytes[at + 6] > 1 || self.bytes[at + 7] != 0 {
                    Err(corrupted(24))
                } else if coordinate_error(block, offset, layout) is Some {
                    Err(corrupted(24))
                } else if self.bytes[at + 6] == 1 {
                    Ok(Some(RootTid::of(block, offset)))
                } else {
                    Ok(None)
                }
            },
        }
    }

    /// The owner, the place in the document and the bytes of a fragment.
    pub open spec fn fragment_data(self) -> Result<(OwnerRef, u32, Seq<u8>)> {
        let body = self.entries();
        if self.kind != PageKind::Fragment {
            Err(corrupted(6))
        } else {
            match owner_ref_at(body, 0) {
                Err(error) => Err(error),
                Ok(owner) => if body.len() < 20 {
                    Err(cut_short(16))
                } else {
                    Ok((owner, le_u32(body, 16), body.subrange(20, body.len() as int)))
                },
            }
        }
    }

    /// The first bucket from `bucket` on that cannot be one.
    pub open spec fn check_buckets(self, bucket: int) -> Result<()>
        decreases BUCKETS - bucket,
    {
        if bucket >= BUCKETS {
            Ok(())
        } else {
            match self.bucket(bucket) {
                Err(error) => Err(error),
                Ok(_) => self.check_buckets(bucket + 1),
            }
        }
    }

    /// The first fault of the metadata page.
    pub open spec fn check_meta(self, layout: HeapLayout) -> Result<()> {
        let bytes = self.bytes;
        if !(bytes.len() == 4160 || bytes.len() == 4232 || bytes.len() == 5664) || le_u32(bytes, 16)
            != PROFILE_ID || le_u32(bytes, 20) != 8192 || le_u16(bytes, 24) != layout.max_offset()
            || le_u16(bytes, 26) != BUCKETS || le_u32(bytes, 28) != 0 || le_u64(bytes, 32) == 0 {
            Err(corrupted(16))
        } else if self.owner_chain() is Err {
            Err(self.owner_chain()->Err_0)
        } else if self.free_head() is Err {
            Err(self.free_head()->Err_0)
        } else if self.rewrite_journal() is Err {
            Err(self.rewrite_journal()->Err_0)
        } else if self.grouped_state() is Err {
            Err(self.grouped_state()->Err_0)
        } else {
            self.check_buckets(0)
        }
    }

    /// The first fault of the owner slots from `slot` on, where inline payloads
    /// must fill the page from `payload` on without gaps.
    pub open spec fn check_owners(self, slot: int, payload: int, layout: HeapLayout) -> Result<()>
        decreases self.owner_count()->Ok_0 - slot,
    {
        match self.owner_count() {
            Err(error) => Err(error),
            Ok(count) => if slot >= count {
                if payload != self.bytes.len() {
                    Err(corrupted(payload))
                } else {
                    Ok(())
                }
            } else {
                match self.owner(slot as u16, layout) {
                    Err(error) => Err(error),
                    Ok(owner) => if owner.inline.len() == 0 {
                        self.check_owners(slot + 1, payload, layout)
                    } else if le_u16(self.bytes, 52 + slot * 40) != payload {
                        Err(corrupted(52 + slot * 40))
                    } else {
                        self.check_owners(
                            slot + 1,
                            payload + owner.inline.len(),
                            layout,
                        )
                    },
                }
            },
        }
    }

    /// The first direct record from `slot` on that cannot be one.
    pub open spec fn check_roots(self, slot: int, layout: HeapLayout) -> Result<()>
        decreases le_u16(self.bytes, 22) - slot,
    {
        if slot >= le_u16(self.bytes, 22) {
            Ok(())
        } else {
            match self.direct_root(slot as u16, layout) {
                Err(error) => Err(error),
                Ok(_) => self.check_roots(slot + 1, layout),
            }
        }
    }

    /// The first fault of a page of references.
    pub open spec fn check_postings(self, layout: HeapLayout) -> Result<()> {
        match self.posting_term() {
            Err(error) => Err(error),
            Ok(term) => if !is_block(term.page) || term.offset < 16 {
                Err(corrupted(16))
            } else {
                match self.posting_stream() {
                    Err(error) => Err(error),
                    Ok(stream) => match postings_checked(stream.outcomes(), 0, None) {
                        Err(error) => Err(error),
                        Ok(_) => if self.kind != PageKind::DirectPostings {
                            Ok(())
                        } else {
                            match self.direct_endpoints() {
                                Err(error) => Err(error),
                                Ok((first, last)) => if stream.outcomes()[0] != Ok::<
                                    OwnerRef,
                                    Error,
                                >(first) || stream.outcomes().last() != Ok::<OwnerRef, Error>(
                                    last,
                                ) {
                                    Err(corrupted(24))
                                } else {
                                    self.check_roots(0, layout)
                                },
                            }
                        },
                    },
                }
            },
        }
    }

    /// The first fault of the page, if it has one.
    pub open spec fn check(self, layout: HeapLayout) -> Result<()> {
        if self.kind == PageKind::Zero {
            Ok(())
        } else if self.check_next() is Err {
            self.check_next()
        } else if (self.block == 0) != (self.kind == PageKind::Meta) {
            Err(corrupted(8))
        } else {
            match self.kind {
                PageKind::Zero => Ok(()),
                PageKind::Meta => self.check_meta(layout),
                PageKind::Grouped => self.check_grouped(),
                PageKind::Owners => match self.owner_count() {
                    Err(error) => Err(error),
                    Ok(count) => self.check_owners(0, 20 + count * 40, layout),
                },
                PageKind::Dictionary => terms_checked(self.terms()->Ok_0, 0),
                PageKind::Postings => self.check_postings(layout),
                PageKind::SealedPostings => self.check_postings(layout),
                PageKind::DirectPostings => self.check_postings(layout),
                PageKind::DocumentDirectory => match self.document_directory_data() {
                    Err(error) => Err(error),
                    Ok(_) => Ok(()),
                },
                PageKind::Fragment => match self.fragment_data() {
                    Err(error) => Err(error),
                    Ok((_, offset, payload)) => if payload.len() == 0 || offset + payload.len()
                        > MAX_DOCUMENT_BYTES {
                        Err(corrupted(32))
                    } else {
                        Ok(())
                    },
                },
                PageKind::Free => if self.bytes.len() != HEADER {
                    Err(corrupted(16))
                } else {
                    Ok(())
                },
            }
        }
    }
}

} // verus!
