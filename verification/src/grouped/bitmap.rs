//! Borrowed bitmap records with independently addressable offset payloads.
//! Opening validates the directory, not offset contents in unvisited pages.

use super::{
    header_at, header_code, header_round_trip, GroupKey, Header, HeaderModel, OffsetMask, PageMask,
    HEADER_BYTES,
};
use crate::codec::bytes::{
    get_u16, group_bytes, le_u16, le_u16_of_bytes, splice, splice_join, u16_bytes, Writer,
};
use crate::error::{Error, Result};
use crate::identity::{group_identity, HeapLayout};
use crate::mask::{
    byte_member, byte_nonzero, count, count_below, count_grows, mask_bytes, mask_bytes_bits,
    mask_count_below, mask_from_bytes, mask_has, mask_insert, mask_top, member, members_range, none,
    same_bits, tail_clear, take_byte, top_below, top_bounds, with_member, with_member_holds, Pages,
};
use vstd::prelude::*;

verus! {

broadcast use {group_bytes, group_identity};

pub const MAX_BITMAP_BYTES: usize = 17_480;

#[derive(Clone, Copy, Debug, Eq, PartialEq, Structural)]
pub enum BitmapKind {
    Posting,
    Liveness,
}

impl BitmapKind {
    /// The stored tag.
    pub open spec fn tag(self) -> u8 {
        match self {
            BitmapKind::Posting => 1,
            BitmapKind::Liveness => 2,
        }
    }
}

/// One present heap page; bit zero represents heap offset one.
#[derive(Clone, Copy, Debug)]
pub struct PageOffsets {
    pub page: u8,
    pub offsets: OffsetMask,
}

/// Where the payload of directory entry `index` starts.
pub open spec fn entry_start(bytes: Seq<u8>, index: int) -> int {
    le_u16(bytes, 72 + 4 * index) as int
}

/// The size of the payload of directory entry `index`.
pub open spec fn entry_len(bytes: Seq<u8>, index: int) -> int {
    bytes[74 + 4 * index] as int
}

/// The sizes of the first `count` payloads together.
pub open spec fn payload_end(bytes: Seq<u8>, count: int) -> int
    decreases count,
{
    if count <= 0 {
        0
    } else {
        payload_end(bytes, count - 1) + entry_len(bytes, count - 1)
    }
}

/// Whether directory entry `index` continues the payloads before it.
pub open spec fn entry_packed(bytes: Seq<u8>, width: int, index: int) -> bool {
    &&& entry_start(bytes, index) == payload_end(bytes, index)
    &&& 1 <= entry_len(bytes, index) <= width
    &&& bytes[75 + 4 * index] == 0
}

/// Whether the first `count` directory entries are packed.
pub open spec fn entries_packed(bytes: Seq<u8>, width: int, count: int) -> bool {
    forall|k: int| 0 <= k < count ==> #[trigger] entry_packed(bytes, width, k)
}

/// The number of bytes that hold one bit for each offset of a layout.
pub open spec fn layout_width(layout: HeapLayout) -> int {
    (layout.max_offset() + 7) / 8
}

/// The header of a bitmap record with a sound directory.
pub open spec fn bitmap_at(bytes: Seq<u8>) -> Result<HeaderModel> {
    if bytes.len() > MAX_BITMAP_BYTES {
        Err(Error::Limit("bitmap group bytes"))
    } else {
        match header_at(bytes) {
            Err(error) => Err(error),
            Ok(header) => {
                let pages = count(header.mask) as int;
                let body = 72 + 4 * pages;
                if (header.kind != 1 && header.kind != 2) || header.count != 0 || body
                    > bytes.len() || !entries_packed(
                    bytes,
                    layout_width(header.key.layout()),
                    pages,
                ) || payload_end(bytes, pages) != bytes.len() - body {
                    Err(Error::InvalidState)
                } else {
                    Ok(header)
                }
            },
        }
    }
}

/// A bitmap record.
#[verifier::ext_equal]
pub struct BitmapModel {
    pub header: HeaderModel,
    pub bytes: Seq<u8>,
}

impl BitmapModel {
    pub open spec fn wf(self) -> bool {
        bitmap_at(self.bytes) == Ok::<HeaderModel, Error>(self.header) && self.header.mask.len()
            == 4
    }

    pub open spec fn kind(self) -> BitmapKind {
        if self.header.kind == 1 {
            BitmapKind::Posting
        } else {
            BitmapKind::Liveness
        }
    }

    /// Where the payload of a page stands and its size.
    pub open spec fn span(self, page: int) -> Option<(int, int)> {
        if !member(self.header.mask, page) {
            None
        } else {
            let rank = count_below(self.header.mask, page) as int;
            Some(
                (
                    72 + 4 * count(self.header.mask) + entry_start(self.bytes, rank),
                    entry_len(self.bytes, rank),
                ),
            )
        }
    }

    /// The payload of a page; none for an absent page.
    pub open spec fn payload(self, page: int) -> Seq<u8> {
        match self.span(page) {
            None => Seq::empty(),
            Some((start, len)) => self.bytes.subrange(start, start + len),
        }
    }

    /// Whether the payload of a page is canonical for the layout: no bits
    /// beyond the domain, and for postings no empty last byte.
    pub open spec fn payload_valid(self, page: int) -> bool {
        let payload = self.payload(page);
        let domain = self.header.key.layout().max_offset() as int;
        payload.len() > 0 ==> {
            &&& self.kind() == BitmapKind::Posting ==> payload.last() != 0
            &&& payload.len() * 8 > domain ==> payload.last() >> ((domain % 8) as u8) == 0
        }
    }

    /// Whether the record marks offset bit `index` of a page.
    pub open spec fn holds(self, page: int, index: int) -> bool {
        byte_member(self.payload(page), index)
    }
}

/// A checked directory with lazily validated offset payloads.
/// Liveness retains its original directory and widths after bits are cleared.
#[derive(Clone, Copy)]
pub struct Bitmap<'a> {
    bytes: &'a [u8],
    header: Header,
}

impl<'a> View for Bitmap<'a> {
    type V = BitmapModel;

    closed spec fn view(&self) -> BitmapModel {
        BitmapModel { header: self.header@, bytes: self.bytes@ }
    }
}

proof fn payload_end_grows(bytes: Seq<u8>, width: int, low: int, high: int)
    requires
        0 <= low <= high,
        entries_packed(bytes, width, high),
    ensures
        payload_end(bytes, low) <= payload_end(bytes, high),
        low < high ==> payload_end(bytes, low) + entry_len(bytes, low) <= payload_end(bytes, high),
    decreases high - low,
{
    if low < high {
        assert(entry_packed(bytes, width, high - 1));
        payload_end_grows(bytes, width, low, high - 1);
    }
}

/// The payload of every present page lies inside the record.
pub proof fn span_inside(model: BitmapModel, page: int)
    requires
        model.wf(),
        member(model.header.mask, page),
    ensures
        model.span(page) matches Some((start, len)) && 72 <= start && 1 <= len <= 64 && start + len
            <= model.bytes.len(),
        len_within(model, page),
{
    let mask = model.header.mask;
    let pages = count(mask) as int;
    let rank = count_below(mask, page) as int;
    let width = layout_width(model.header.key.layout());
    count_grows(mask, page, 256);
    payload_end_grows(model.bytes, width, rank, pages);
    assert(entry_packed(model.bytes, width, rank));
    header_layout(model.bytes);
}

/// Whether the payload of a page fits the layout.
pub open spec fn len_within(model: BitmapModel, page: int) -> bool {
    model.payload(page).len() <= layout_width(model.header.key.layout()) <= 64
}

proof fn header_layout(bytes: Seq<u8>)
    requires
        header_at(bytes) is Ok,
    ensures
        1 <= header_at(bytes)->Ok_0.key.layout().max_offset() <= 512,
{
    broadcast use GroupKey::of_parts;

}

impl<'a> Bitmap<'a> {
    #[verifier::type_invariant]
    closed spec fn inv(self) -> bool {
        self@.wf()
    }

    /// Opens a bounded record without allocation or decoding any offset payload.
    ///
    /// # Errors
    /// Rejects unknown versions, invalid identities, nonpacked directories,
    /// reserved fields, invalid widths, truncated input and trailing bytes.
    #[verifier::loop_isolation(false)]
    pub fn open(bytes: &'a [u8]) -> (result: Result<Self>)
        ensures
            match bitmap_at(bytes@) {
                Ok(header) => result matches Ok(bitmap) && bitmap@ == (BitmapModel {
                    header,
                    bytes: bytes@,
                }) && bitmap@.wf(),
                Err(error) => result matches Err(e) && e == error,
            },
    {
        if bytes.len() > MAX_BITMAP_BYTES {
            return Err(Error::Limit("bitmap group bytes"));
        }
        let header: Header = Header::read(bytes)?;
        if (header.kind != 1 && header.kind != 2) || header.count != 0 {
            return Err(Error::InvalidState);
        }
        let pages: usize = mask_count_below(&header.mask, 256);
        let body: usize = HEADER_BYTES + pages * 4;
        if body > bytes.len() {
            return Err(Error::InvalidState);
        }
        let width: usize = (header.key.layout().max_offset() as usize + 7) / 8;
        let mut end: usize = 0;
        let mut index: usize = 0;
        while index < pages
            invariant
                index <= pages,
                end == payload_end(bytes@, index as int),
                end <= index * 64,
                entries_packed(bytes@, width as int, index as int),
            decreases pages - index,
        {
            let at: usize = HEADER_BYTES + index * 4;
            let start: usize = get_u16(bytes, at) as usize;
            let len: usize = bytes[at + 2] as usize;
            if start != end || len == 0 || len > width || bytes[at + 3] != 0 {
                assert(!entry_packed(bytes@, width as int, index as int));
                return Err(Error::InvalidState);
            }
            assert(entry_packed(bytes@, width as int, index as int));
            end += len;
            index += 1;
        }
        if end != bytes.len() - body {
            return Err(Error::InvalidState);
        }
        Ok(Bitmap { bytes, header })
    }

    pub fn key(&self) -> (key: GroupKey)
        ensures
            key == self@.header.key,
    {
        self.header.key
    }

    pub fn kind(&self) -> (kind: BitmapKind)
        ensures
            kind == self@.kind(),
    {
        if self.header.kind == 1 {
            BitmapKind::Posting
        } else {
            BitmapKind::Liveness
        }
    }

    pub fn pages(&self) -> (mask: &PageMask)
        ensures
            mask@ == self@.header.mask,
            self@.wf(),
    {
        proof {
            use_type_invariant(self);
        }
        &self.header.mask
    }

    /// Decodes only one selected page into initialized, fixed-size scratch.
    ///
    /// # Errors
    /// Rejects out-of-domain tail bits and noncanonical posting payloads.
    /// An absent page is empty; a retired liveness page may also be empty.
    pub fn offsets(&self, page: u8) -> (result: Result<OffsetMask>)
        ensures
            if self@.payload_valid(page as int) {
                result matches Ok(mask) && same_bits(mask@, self@.payload(page as int))
            } else {
                result matches Err(e) && e == Error::InvalidState
            },
            self@.wf(),
    {
        proof {
            use_type_invariant(self);
        }
        match self.span(page) {
            None => {
                let empty: [u8; 0] = [];
                assert(empty@ =~= Seq::<u8>::empty());
                Ok(mask_from_bytes(&empty))
            },
            Some((start, len)) => {
                let payload: &[u8] = &self.bytes[start..start + len];
                let last: u8 = payload[len - 1];
                let domain: usize = self.header.key.layout().max_offset() as usize;
                if self.kind() == BitmapKind::Posting && last == 0 {
                    return Err(Error::InvalidState);
                }
                if len * 8 > domain {
                    let tail: u8 = (domain % 8) as u8;
                    if last >> tail != 0 {
                        return Err(Error::InvalidState);
                    }
                }
                Ok(mask_from_bytes(payload))
            },
        }
    }

    pub fn payload_bytes(&self, page: u8) -> (size: usize)
        ensures
            size == self@.payload(page as int).len(),
            size <= 64,
    {
        proof {
            use_type_invariant(self);
        }
        match self.span(page) {
            None => 0,
            Some((_, len)) => len,
        }
    }

    /// Checks every payload for build verification and maintenance, not pruning.
    ///
    /// # Errors
    /// Returns the first offset payload error.
    #[verifier::loop_isolation(false)]
    pub fn validate_all(&self) -> (result: Result<()>)
        ensures
            result is Ok <==> (forall|page: int|
                #[trigger] member(self@.header.mask, page) ==> self@.payload_valid(page)),
            result matches Err(e) ==> e == Error::InvalidState,
    {
        proof {
            use_type_invariant(self);
            members_range(self@.header.mask, 0);
        }
        let mut pages: Pages = Pages::new(self.header.mask);
        let ghost all = pages@;
        let ghost mut done: int = 0;
        assert(all.skip(0) =~= all);
        loop
            invariant
                0 <= done <= all.len(),
                pages@ == all.skip(done),
                forall|k: int| 0 <= k < done ==> self@.payload_valid(#[trigger] all[k]),
            decreases pages@.len(),
        {
            proof {
                if done < all.len() {
                    assert(pages@[0] == all[done]);
                    assert(pages@.drop_first() =~= all.skip(done + 1));
                }
            }
            match pages.next() {
                None => {
                    proof {
                        assert forall|page: int| #[trigger] member(self@.header.mask, page) implies self@.payload_valid(
                        page) by {
                            assert(all.contains(page));
                            let k = choose|k: int| 0 <= k < all.len() && all[k] == page;
                            assert(self@.payload_valid(all[k]));
                        }
                    }
                    return Ok(());
                },
                Some(page) => {
                    self.offsets(page)?;
                    proof {
                        done = done + 1;
                    }
                },
            }
        }
    }

    /// Finds where the payload of a page stands.
    pub(crate) fn span(&self, page: u8) -> (span: Option<(usize, usize)>)
        ensures
            match self@.span(page as int) {
                None => span is None,
                Some((start, len)) => span matches Some(found) && found.0 == start && found.1 == len
                    && 72 <= start && 1 <= len <= 64 && start + len <= self@.bytes.len(),
            },
            self@.wf(),
    {
        proof {
            use_type_invariant(self);
        }
        if !mask_has(&self.header.mask, page as usize) {
            return None;
        }
        proof {
            span_inside(self@, page as int);
            count_grows(self@.header.mask, page as int, 256);
        }
        let pages: usize = mask_count_below(&self.header.mask, 256);
        let rank: usize = mask_count_below(&self.header.mask, page as usize);
        let at: usize = HEADER_BYTES + rank * 4;
        let start: usize = get_u16(self.bytes, at) as usize;
        let len: usize = self.bytes[at + 2] as usize;
        Some((HEADER_BYTES + pages * 4 + start, len))
    }
}

/// The number of bytes that a page's offsets take.
pub open spec fn offsets_len(offsets: Seq<u64>) -> int {
    (top_below(offsets, 512) + 7) / 8
}

/// Whether a page's offsets can be stored: some, and none beyond the layout.
pub open spec fn offsets_fit(key: GroupKey, offsets: Seq<u64>) -> bool {
    0 < top_below(offsets, 512) <= key.layout().max_offset()
}

pub(crate) fn bitmap_len(key: GroupKey, offsets: &OffsetMask) -> (result: Result<usize>)
    ensures
        if offsets_fit(key, offsets@) {
            result == Ok::<usize, Error>(offsets_len(offsets@) as usize) && 1 <= offsets_len(
                offsets@,
            ) <= layout_width(key.layout()) <= 64
        } else {
            result == Err::<usize, Error>(Error::InvalidState)
        },
{
    let bits: usize = mask_top(offsets);
    let domain: u16 = key.layout().max_offset();
    if bits == 0 || bits > domain as usize {
        return Err(Error::InvalidState);
    }
    Ok((bits + 7) / 8)
}

/// Whether pages can be stored as one record: strictly ascending, each a heap
/// block with offsets that fit.
pub open spec fn page_storable(key: GroupKey, pages: Seq<PageOffsets>, index: int) -> bool {
    &&& index > 0 ==> pages[index - 1].page < pages[index].page
    &&& key.block_of(pages[index].page as int) is Ok
    &&& offsets_fit(key, pages[index].offsets@)
}

pub open spec fn pages_storable(key: GroupKey, pages: Seq<PageOffsets>, count: int) -> bool {
    forall|i: int| 0 <= i < count ==> #[trigger] page_storable(key, pages, i)
}

/// The mask of the first `count` pages.
pub open spec fn pages_mask(pages: Seq<PageOffsets>, count: int) -> Seq<u64>
    decreases count,
{
    if count <= 0 {
        none(4)
    } else {
        with_member(pages_mask(pages, count - 1), pages[count - 1].page as int)
    }
}

/// The payloads of the first `count` pages.
pub open spec fn pages_body(pages: Seq<PageOffsets>, count: int) -> Seq<u8>
    decreases count,
{
    if count <= 0 {
        Seq::empty()
    } else {
        pages_body(pages, count - 1) + mask_bytes(
            pages[count - 1].offsets@,
            offsets_len(pages[count - 1].offsets@),
        )
    }
}

/// The directory of the first `count` pages.
pub open spec fn pages_directory(pages: Seq<PageOffsets>, count: int) -> Seq<u8>
    decreases count,
{
    if count <= 0 {
        Seq::empty()
    } else {
        pages_directory(pages, count - 1) + u16_bytes(
            pages_body(pages, count - 1).len() as u16,
        ) + seq![offsets_len(pages[count - 1].offsets@) as u8] + seq![0u8]
    }
}

/// The size of the record of some pages.
pub open spec fn pages_size(pages: Seq<PageOffsets>) -> int {
    (72 + 4 * pages.len() + pages_body(pages, pages.len() as int).len()) as int
}

/// The record of some pages.
pub open spec fn bitmap_code(key: GroupKey, kind: BitmapKind, pages: Seq<PageOffsets>) -> Seq<u8> {
    let count = pages.len() as int;
    header_code(
        HeaderModel { key, kind: kind.tag(), count: 0, mask: pages_mask(pages, count) },
        pages_size(pages) as u32,
    ) + pages_directory(pages, count) + pages_body(pages, count)
}

/// What storable pages come to: their directory, payloads and mask.
pub proof fn pages_bounds(key: GroupKey, pages: Seq<PageOffsets>, count: int)
    requires
        0 <= count <= pages.len(),
        pages_storable(key, pages, count),
        key.layout().max_offset() <= 512,
    ensures
        pages_directory(pages, count).len() == 4 * count,
        count <= pages_body(pages, count).len() <= 64 * count,
        count <= 256,
        count > 0 ==> count <= pages[count - 1].page + 1,
        pages_mask(pages, count).len() == 4,
        forall|i: int|
            #![trigger member(pages_mask(pages, count), i)]
            member(pages_mask(pages, count), i) <==> exists|k: int|
                0 <= k < count && #[trigger] pages[k].page == i,
        crate::mask::count(pages_mask(pages, count)) == count,
    decreases count,
{
    if count > 0 {
        pages_bounds(key, pages, count - 1);
        let mask = pages_mask(pages, count - 1);
        let page = pages[count - 1].page as int;
        assert(page_storable(key, pages, count - 1));
        if count > 1 {
            assert(page_storable(key, pages, count - 2));
        }
        assert forall|k: int| 0 <= k < count - 1 implies #[trigger] pages[k].page < page by {
            ascending_pages(key, pages, count, k, count - 1);
        }
        assert(!member(mask, page));
        assert forall|i: int|
            #![trigger member(pages_mask(pages, count), i)]
            member(pages_mask(pages, count), i) <==> exists|k: int|
                0 <= k < count && #[trigger] pages[k].page == i by {
            with_member_holds(mask, page, i);
            if member(mask, i) {
                let k = choose|k: int| 0 <= k < count - 1 && #[trigger] pages[k].page == i;
                assert(pages[k].page == i);
            }
            if i == page {
                assert(pages[count - 1].page == i);
            }
        }
        count_with_member(mask, page, 256);
    } else {
        crate::mask::empty_mask(none(4));
        count_none(256);
        assert forall|i: int|
            #![trigger member(pages_mask(pages, 0), i)]
            !member(pages_mask(pages, 0), i) by {
            if 0 <= i < 256 {
                crate::mask::mask_logic(none(4), none(4), i);
            }
        }
    }
}

proof fn count_none(below: int)
    requires
        0 <= below <= 256,
    ensures
        count_below(none(4), below) == 0,
    decreases below,
{
    if below > 0 {
        count_none(below - 1);
        crate::mask::mask_logic(none(4), none(4), below - 1);
    }
}

proof fn count_with_member(mask: Seq<u64>, page: int, below: int)
    requires
        mask.len() == 4,
        0 <= page < 256,
        !member(mask, page),
        0 <= below <= 256,
    ensures
        count_below(with_member(mask, page), below) == count_below(mask, below) + (if page < below {
            1int
        } else {
            0
        }),
    decreases below,
{
    if below > 0 {
        count_with_member(mask, page, below - 1);
        with_member_holds(mask, page, below - 1);
    }
}

/// Storable pages ascend strictly.
pub proof fn ascending_pages(
    key: GroupKey,
    pages: Seq<PageOffsets>,
    count: int,
    low: int,
    high: int,
)
    requires
        pages_storable(key, pages, count),
        0 <= low < high < count,
    ensures
        pages[low].page < pages[high].page,
    decreases high - low,
{
    assert(page_storable(key, pages, high));
    if low < high - 1 {
        ascending_pages(key, pages, count, low, high - 1);
    }
}

/// Encodes sorted nonempty pages into caller-owned storage without allocation.
/// Invalid input and insufficient capacity are rejected before any write.
///
/// # Errors
/// Rejects duplicates, empty page masks, invalid tail bits and capacity limits.
#[verifier::loop_isolation(false)]
pub fn encode_bitmap(key: GroupKey, kind: BitmapKind, pages: &[PageOffsets], output: &mut [u8]) -> (
    result: Result<usize>)
    ensures
        if !pages_storable(key, pages@, pages@.len() as int) {
            result == Err::<usize, Error>(Error::InvalidState) && final(output)@ == old(output)@
        } else if pages_size(pages@) > old(output)@.len() {
            result == Err::<usize, Error>(Error::Limit("bitmap group output")) && final(output)@
                == old(output)@
        } else {
            result == Ok::<usize, Error>(pages_size(pages@) as usize) && final(output)@ == splice(
                old(output)@,
                0,
                bitmap_code(key, kind, pages@),
            ) && bitmap_code(key, kind, pages@).len() == pages_size(pages@)
        },
{
    let total: usize = pages.len();
    let mut mask: PageMask = [0u64; 4];
    let mut length: usize = HEADER_BYTES;
    let mut index: usize = 0;
    assert(mask@ =~= none(4));
    let domain: u16 = key.layout().max_offset();
    while index < total
        invariant
            index <= total,
            pages_storable(key, pages@, index as int),
            mask@ == pages_mask(pages@, index as int),
            length == 72 + 4 * index + pages_body(pages@, index as int).len(),
            index <= 256,
            length <= 72 + 68 * index,
        decreases total - index,
    {
        let page: PageOffsets = pages[index];
        if index > 0 && pages[index - 1].page >= page.page {
            assert(!page_storable(key, pages@, index as int));
            return Err(Error::InvalidState);
        }
        let block: Result<u32> = key.block(page.page);
        if block.is_err() {
            assert(!page_storable(key, pages@, index as int));
            return Err(Error::InvalidState);
        }
        let len: usize = match bitmap_len(key, &page.offsets) {
            Ok(len) => len,
            Err(_) => {
                assert(!page_storable(key, pages@, index as int));
                return Err(Error::InvalidState);
            },
        };
        assert(page_storable(key, pages@, index as int));
        proof {
            pages_bounds(key, pages@, index + 1);
        }
        mask_insert(&mut mask, page.page as usize);
        length = length + 4 + len;
        index += 1;
    }
    if length > output.len() {
        return Err(Error::Limit("bitmap group output"));
    }
    proof {
        pages_bounds(key, pages@, total as int);
    }
    let tag: u8 = match kind {
        BitmapKind::Posting => 1,
        BitmapKind::Liveness => 2,
    };
    let header: [u8; 72] = (Header { key, kind: tag, count: 0, mask }).array(length as u32);
    let ghost before = output@;
    assert(before =~= splice(before, 0, Seq::empty()));
    assert(Seq::<u8>::empty() + header@ =~= header@);
    let mut writer: Writer = Writer::new(output);
    let a: crate::codec::Result<()> = writer.put(&header);
    assert(a is Ok);
    write_directory(key, pages, &mut writer);
    write_payloads(key, pages, &mut writer);
    assert(header@ + pages_directory(pages@, total as int) + pages_body(pages@, total as int)
        =~= bitmap_code(key, kind, pages@));
    Ok(length)
}

#[verifier::loop_isolation(false)]
fn write_directory(key: GroupKey, pages: &[PageOffsets], writer: &mut Writer<'_>)
    requires
        pages_storable(key, pages@, pages@.len() as int),
        old(writer).offset + 4 * pages@.len() <= old(writer).bytes@.len(),
    ensures
        final(writer).bytes@ == splice(
            old(writer).bytes@,
            old(writer).offset as int,
            pages_directory(pages@, pages@.len() as int),
        ),
        final(writer).offset == old(writer).offset + 4 * pages@.len(),
        final(final(writer).bytes)@ == final(old(writer).bytes)@,
{
    let ghost before = writer.bytes@;
    let at: usize = writer.offset;
    let room: usize = writer.bytes.len();
    let domain: u16 = key.layout().max_offset();
    let mut start: usize = 0;
    let mut index: usize = 0;
    assert(before =~= splice(before, at as int, pages_directory(pages@, 0)));
    while index < pages.len()
        invariant
            index <= pages@.len(),
            start == pages_body(pages@, index as int).len(),
            start <= 64 * index,
            writer.offset == at + 4 * index,
            writer.bytes@ == splice(before, at as int, pages_directory(pages@, index as int)),
            final(writer.bytes)@ == final(old(writer).bytes)@,
        decreases pages@.len() - index,
    {
        proof {
            pages_bounds(key, pages@, index as int);
            pages_bounds(key, pages@, index + 1);
            assert(page_storable(key, pages@, index as int));
        }
        let len: usize = match bitmap_len(key, &pages[index].offsets) {
            Ok(len) => len,
            Err(_) => {
                assert(false);
                0
            },
        };
        let ghost part = pages_directory(pages@, index as int);
        let ghost a = u16_bytes(start as u16);
        let ghost b = seq![len as u8];
        let c: crate::codec::Result<()> = writer.u16(start as u16);
        let d: crate::codec::Result<()> = writer.u8(len as u8);
        let e: crate::codec::Result<()> = writer.u8(0);
        assert(c is Ok && d is Ok && e is Ok);
        proof {
            splice_join(before, at as int, part, a);
            splice_join(before, at as int, part + a, b);
            splice_join(before, at as int, part + a + b, seq![0u8]);
        }
        start += len;
        index += 1;
    }
}

#[verifier::loop_isolation(false)]
fn write_payloads(key: GroupKey, pages: &[PageOffsets], writer: &mut Writer<'_>)
    requires
        pages_storable(key, pages@, pages@.len() as int),
        old(writer).offset + pages_body(pages@, pages@.len() as int).len()
            <= old(writer).bytes@.len(),
    ensures
        final(writer).bytes@ == splice(
            old(writer).bytes@,
            old(writer).offset as int,
            pages_body(pages@, pages@.len() as int),
        ),
        final(writer).offset == old(writer).offset + pages_body(
            pages@,
            pages@.len() as int,
        ).len(),
        final(final(writer).bytes)@ == final(old(writer).bytes)@,
{
    let ghost before = writer.bytes@;
    let at: usize = writer.offset;
    let room: usize = writer.bytes.len();
    let domain: u16 = key.layout().max_offset();
    let mut index: usize = 0;
    assert(before =~= splice(before, at as int, pages_body(pages@, 0)));
    while index < pages.len()
        invariant
            index <= pages@.len(),
            writer.offset == at + pages_body(pages@, index as int).len(),
            writer.bytes@ == splice(before, at as int, pages_body(pages@, index as int)),
            final(writer.bytes)@ == final(old(writer).bytes)@,
        decreases pages@.len() - index,
    {
        proof {
            assert(page_storable(key, pages@, index as int));
            body_grows(pages@, index + 1, pages@.len() as int);
        }
        let words: OffsetMask = pages[index].offsets;
        let len: usize = match bitmap_len(key, &words) {
            Ok(len) => len,
            Err(_) => {
                assert(false);
                0
            },
        };
        let ghost part = pages_body(pages@, index as int);
        let mut i: usize = 0;
        assert(part + mask_bytes(words@, 0) =~= part);
        while i < len
            invariant
                i <= len,
                writer.offset == at + part.len() + i,
                writer.bytes@ == splice(before, at as int, part + mask_bytes(words@, i as int)),
                final(writer.bytes)@ == final(old(writer).bytes)@,
            decreases len - i,
        {
            let byte: u8 = take_byte(&words, i);
            let a: crate::codec::Result<()> = writer.u8(byte);
            assert(a is Ok);
            proof {
                splice_join(before, at as int, part + mask_bytes(words@, i as int), seq![byte]);
                assert(part + mask_bytes(words@, i as int) + seq![byte] =~= part + mask_bytes(
                    words@,
                    i + 1,
                ));
            }
            i += 1;
        }
        index += 1;
    }
}

proof fn body_grows(pages: Seq<PageOffsets>, low: int, high: int)
    requires
        0 <= low <= high,
    ensures
        pages_body(pages, low).len() <= pages_body(pages, high).len(),
        pages_body(pages, high).take(pages_body(pages, low).len() as int) == pages_body(pages, low),
    decreases high - low,
{
    if low < high {
        body_grows(pages, low, high - 1);
        assert(pages_body(pages, high).take(pages_body(pages, low).len() as int) =~= pages_body(
            pages,
            high - 1,
        ).take(pages_body(pages, low).len() as int));
    } else {
        assert(pages_body(pages, high).take(pages_body(pages, low).len() as int) =~= pages_body(
            pages,
            low,
        ));
    }
}

/// Whether every number in a key is one that its type can hold.
pub open spec fn key_typed(key: GroupKey) -> bool {
    &&& key.relation().get() != 0
    &&& key.segment().get() != 0
    &&& 1 <= key.layout().max_offset() <= 512
    &&& HeapLayout::of(key.layout().max_offset()) == key.layout()
    &&& key.base() % 256 == 0
}

proof fn page_rank(key: GroupKey, pages: Seq<PageOffsets>, count: int, index: int)
    requires
        0 <= index < count <= pages.len(),
        pages_storable(key, pages, count),
        key.layout().max_offset() <= 512,
    ensures
        count_below(pages_mask(pages, count), pages[index].page as int) == index,
    decreases count,
{
    pages_bounds(key, pages, count - 1);
    assert(page_storable(key, pages, count - 1));
    let mask = pages_mask(pages, count - 1);
    let last = pages[count - 1].page as int;
    assert forall|k: int| 0 <= k < count - 1 implies #[trigger] pages[k].page < last by {
        ascending_pages(key, pages, count, k, count - 1);
    }
    assert(!member(mask, last));
    count_with_member(mask, last, pages[index].page as int);
    if index < count - 1 {
        page_rank(key, pages, count - 1, index);
    } else {
        count_grows(mask, last, 256);
        count_rest(mask, last, 256);
    }
}

/// Where nothing is a member, counting stands still.
proof fn count_rest(mask: Seq<u64>, low: int, high: int)
    requires
        0 <= low <= high,
        forall|i: int| #![trigger member(mask, i)] low <= i < high ==> !member(mask, i),
    ensures
        count_below(mask, low) == count_below(mask, high),
    decreases high - low,
{
    if low < high {
        count_rest(mask, low, high - 1);
        assert(!member(mask, high - 1));
    }
}

proof fn directory_entry(key: GroupKey, pages: Seq<PageOffsets>, count: int, index: int)
    requires
        0 <= index < count <= pages.len(),
        pages_storable(key, pages, count),
        key.layout().max_offset() <= 512,
    ensures
        pages_directory(pages, count).len() == 4 * count,
        pages_directory(pages, count).subrange(4 * index, 4 * index + 4) == u16_bytes(
            pages_body(pages, index).len() as u16,
        ) + seq![offsets_len(pages[index].offsets@) as u8] + seq![0u8],
    decreases count,
{
    pages_bounds(key, pages, count);
    pages_bounds(key, pages, count - 1);
    let code = pages_directory(pages, count);
    let short = pages_directory(pages, count - 1);
    if index < count - 1 {
        directory_entry(key, pages, count - 1, index);
        assert(code.subrange(4 * index, 4 * index + 4) =~= short.subrange(
            4 * index,
            4 * index + 4,
        ));
    } else {
        assert(code.subrange(4 * index, 4 * index + 4) =~= u16_bytes(
            pages_body(pages, index).len() as u16,
        ) + seq![offsets_len(pages[index].offsets@) as u8] + seq![0u8]);
    }
}

proof fn coded_entry(key: GroupKey, kind: BitmapKind, pages: Seq<PageOffsets>, index: int)
    requires
        0 <= index < pages.len(),
        pages_storable(key, pages, pages.len() as int),
        key.layout().max_offset() <= 512,
    ensures
        ({
            let bytes = bitmap_code(key, kind, pages);
            &&& entry_start(bytes, index) == pages_body(pages, index).len()
            &&& entry_len(bytes, index) == offsets_len(pages[index].offsets@)
            &&& bytes[75 + 4 * index] == 0
            &&& 1 <= offsets_len(pages[index].offsets@) <= layout_width(key.layout())
        }),
{
    let count = pages.len() as int;
    let bytes = bitmap_code(key, kind, pages);
    let at = 72 + 4 * index;
    pages_bounds(key, pages, count);
    pages_bounds(key, pages, index);
    directory_entry(key, pages, count, index);
    assert(page_storable(key, pages, index));
    let entry = pages_directory(pages, count).subrange(4 * index, 4 * index + 4);
    assert(bytes.subrange(at, at + 4) =~= entry);
    assert(bytes.subrange(at, at + 2) =~= entry.subrange(0, 2));
    assert(entry.subrange(0, 2) =~= u16_bytes(pages_body(pages, index).len() as u16));
    le_u16_of_bytes(bytes, at, pages_body(pages, index).len() as u16);
    assert(bytes[at + 2] == bytes.subrange(at, at + 4)[2]);
    assert(bytes[at + 3] == bytes.subrange(at, at + 4)[3]);
}

proof fn coded_payload_end(key: GroupKey, kind: BitmapKind, pages: Seq<PageOffsets>, index: int)
    requires
        0 <= index <= pages.len(),
        pages_storable(key, pages, pages.len() as int),
        key.layout().max_offset() <= 512,
    ensures
        payload_end(bitmap_code(key, kind, pages), index) == pages_body(pages, index).len(),
    decreases index,
{
    if index > 0 {
        coded_payload_end(key, kind, pages, index - 1);
        coded_entry(key, kind, pages, index - 1);
    }
}

/// What is encoded opens: the record has the key, the kind and the pages given.
pub proof fn bitmap_opens(key: GroupKey, kind: BitmapKind, pages: Seq<PageOffsets>)
    requires
        key_typed(key),
        pages_storable(key, pages, pages.len() as int),
    ensures
        bitmap_at(bitmap_code(key, kind, pages)) == Ok::<HeaderModel, Error>(
            HeaderModel {
                key,
                kind: kind.tag(),
                count: 0,
                mask: pages_mask(pages, pages.len() as int),
            },
        ),
        bitmap_code(key, kind, pages).len() == pages_size(pages) <= MAX_BITMAP_BYTES,
{
    let total = pages.len() as int;
    let bytes = bitmap_code(key, kind, pages);
    let header = HeaderModel { key, kind: kind.tag(), count: 0, mask: pages_mask(pages, total) };
    let width = layout_width(key.layout());
    pages_bounds(key, pages, total);
    assert(bytes.take(72) =~= header_code(header, bytes.len() as u32));
    if key.base() == u32::MAX - 255 && member(header.mask, 255) {
        let k = choose|k: int| 0 <= k < total && #[trigger] pages[k].page == 255;
        assert(page_storable(key, pages, k));
    }
    header_round_trip(header, bytes);
    assert forall|k: int| 0 <= k < total implies #[trigger] entry_packed(bytes, width, k) by {
        coded_entry(key, kind, pages, k);
        coded_payload_end(key, kind, pages, k);
    }
    assert(entries_packed(bytes, width, total));
    coded_payload_end(key, kind, pages, total);
}

/// What is encoded reads back: the payload of each page is valid and marks
/// exactly the offsets given, and no other page is present.
pub proof fn bitmap_round_trip(
    key: GroupKey,
    kind: BitmapKind,
    pages: Seq<PageOffsets>,
    index: int,
    offset: int,
)
    requires
        key_typed(key),
        pages_storable(key, pages, pages.len() as int),
        0 <= index < pages.len(),
        0 <= offset < 512,
    ensures
        ({
            let bytes = bitmap_code(key, kind, pages);
            let model = BitmapModel { header: bitmap_at(bytes)->Ok_0, bytes };
            let page = pages[index].page as int;
            &&& model.payload(page) == mask_bytes(
                pages[index].offsets@,
                offsets_len(pages[index].offsets@),
            )
            &&& model.payload_valid(page)
            &&& model.holds(page, offset) == member(pages[index].offsets@, offset)
        }),
{
    let total = pages.len() as int;
    let bytes = bitmap_code(key, kind, pages);
    let model = BitmapModel { header: bitmap_at(bytes)->Ok_0, bytes };
    let page = pages[index].page as int;
    let words = pages[index].offsets@;
    let len = offsets_len(words);
    let top = top_below(words, 512);
    let domain = key.layout().max_offset() as int;
    bitmap_opens(key, kind, pages);
    pages_bounds(key, pages, total);
    page_rank(key, pages, total, index);
    coded_entry(key, kind, pages, index);
    body_grows(pages, index + 1, total);
    body_grows(pages, index, total);
    assert(page_storable(key, pages, index));
    assert(pages[index].page == page);
    assert(member(model.header.mask, page));
    let body = pages_body(pages, total);
    let start = 72 + 4 * total + pages_body(pages, index).len();
    assert(bytes.subrange(start, start + len) =~= body.take(
        pages_body(pages, index + 1).len() as int,
    ).subrange(pages_body(pages, index).len() as int, pages_body(pages, index + 1).len() as int));
    assert(pages_body(pages, index + 1).subrange(
        pages_body(pages, index).len() as int,
        pages_body(pages, index + 1).len() as int,
    ) =~= mask_bytes(words, len));
    let payload = model.payload(page);
    assert(payload == mask_bytes(words, len));
    top_bounds(words, 512);
    if offset < 8 * len {
        mask_bytes_bits(words, len, offset);
    }
    mask_bytes_bits(words, len, top - 1);
    assert((top - 1) / 8 == len - 1);
    byte_nonzero(payload.last(), ((top - 1) % 8) as u8);
    if len * 8 > domain {
        let tail = (domain % 8) as u8;
        assert(len - 1 == domain / 8);
        assert forall|j: int| tail <= j < 8 implies !#[trigger] crate::mask::byte_bit(
            payload.last(),
            j,
        ) by {
            let i = 8 * (len - 1) + j;
            mask_bytes_bits(words, len, i);
            assert(i / 8 == len - 1 && i % 8 == j);
        }
        tail_clear(payload.last(), tail);
    }
}

} // verus!
