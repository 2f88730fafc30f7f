//! What a leaf of the catalog says of a record: where its pages are, or the
//! sparse postings themselves.

use crate::codec::bytes::{
    get_u32, get_u64, group_bytes, le_u32, le_u32_of_bytes, le_u64, splice, u32_bytes, u64_bytes, Writer,
};
use crate::error::{Error, Result};
use crate::grouped::bitmap::PageOffsets;
use crate::identity::HeapLayout;
use crate::mask::{
    mask_insert, mask_is_empty, mask_next, masks_equal, member, members, members_range, none,
    with_member, with_member_holds, OffsetMask, PageMask,
};
use crate::mutable::page::grouped_model::EntryModel;
use crate::mutable::page::{CatalogEntry, NO_BLOCK};
use vstd::prelude::*;

verus! {

broadcast use group_bytes;

pub const BITMAP_BYTES: usize = 17_480;

pub const MEMBER_BYTES: usize = 2_097_224;

/// How many postings fit into a leaf entry.
pub const INLINE_POSTINGS: usize = 18;

/// The bytes of the postings that fit into a leaf entry.
pub const INLINE_BYTES: usize = 54;

/// The location or the sparse content of a record.
#[derive(Clone, Copy, Debug)]
pub struct Value {
    pub len: u32,
    pub blocks: [u32; 3],
    pub pages: PageMask,
    pub members: u32,
    pub member_bytes: u32,
    pub count: u32,
    pub inline: Option<[u8; INLINE_BYTES]>,
}

/// A value with its arrays as sequences.
#[verifier::ext_equal]
pub struct ValueModel {
    pub len: u32,
    pub blocks: Seq<u32>,
    pub pages: Seq<u64>,
    pub members: u32,
    pub member_bytes: u32,
    pub count: u32,
    pub inline: Option<Seq<u8>>,
}

impl View for Value {
    type V = ValueModel;

    open spec fn view(&self) -> ValueModel {
        ValueModel {
            len: self.len,
            blocks: self.blocks@,
            pages: self.pages@,
            members: self.members,
            member_bytes: self.member_bytes,
            count: self.count,
            inline: match self.inline {
                Some(inline) => Some(inline@),
                None => None,
            },
        }
    }
}

/// A heap page and its offsets.
pub open spec fn page_model(page: PageOffsets) -> (u8, Seq<u64>) {
    (page.page, page.offsets@)
}

/// Heap pages and their offsets.
pub open spec fn page_models(pages: Seq<PageOffsets>) -> Seq<(u8, Seq<u64>)> {
    Seq::new(pages.len(), |i: int| page_model(pages[i]))
}

/// The coordinate at `index`: nine bits of offset below the page.
pub open spec fn coordinate_at(bytes: Seq<u8>, index: int) -> int {
    bytes[index * 3] + 0x100 * bytes[index * 3 + 1] + 0x1_0000 * bytes[index * 3 + 2]
}

/// The heap page of a coordinate.
pub open spec fn coordinate_page(coordinate: int) -> u8 {
    ((coordinate / 512) % 256) as u8
}

/// Whether a coordinate lies inside the layout and behind the one before it.
pub open spec fn coordinate_valid(bytes: Seq<u8>, index: int, max_offset: int) -> bool {
    &&& coordinate_at(bytes, index) % 512 + 1 <= max_offset
    &&& index > 0 ==> coordinate_at(bytes, index - 1) < coordinate_at(bytes, index)
}

/// The pages after one more coordinate.
pub open spec fn with_coordinate(pages: Seq<(u8, Seq<u64>)>, coordinate: int) -> Seq<
    (u8, Seq<u64>),
> {
    let page = coordinate_page(coordinate);
    if pages.len() > 0 && pages.last().0 == page {
        pages.drop_last().push((page, with_member(pages.last().1, coordinate % 512)))
    } else {
        pages.push((page, with_member(none(8), coordinate % 512)))
    }
}

/// The pages of the first `count` coordinates.
pub open spec fn coordinate_pages(bytes: Seq<u8>, count: int) -> Seq<(u8, Seq<u64>)>
    decreases count,
{
    if count <= 0 {
        Seq::empty()
    } else {
        with_coordinate(coordinate_pages(bytes, count - 1), coordinate_at(bytes, count - 1))
    }
}

/// The mask of the pages of the first `count` coordinates.
pub open spec fn coordinate_mask(bytes: Seq<u8>, count: int) -> Seq<u64>
    decreases count,
{
    if count <= 0 {
        none(4)
    } else {
        with_member(
            coordinate_mask(bytes, count - 1),
            coordinate_page(coordinate_at(bytes, count - 1)) as int,
        )
    }
}

impl ValueModel {
    /// The bytes of sparse postings, in either form.
    pub open spec fn inline_bytes(self) -> Seq<u8> {
        match self.inline {
            Some(bytes) => bytes,
            None => u32_bytes(self.blocks[0]) + u32_bytes(self.blocks[1]) + u32_bytes(
                self.blocks[2],
            ) + u32_bytes(self.members) + u32_bytes(self.member_bytes) + Seq::new(
                34,
                |i: int| 0u8,
            ),
        }
    }

    /// Whether the sparse postings are sound for a layout.
    pub open spec fn inline_valid(self, max_offset: int) -> bool {
        let bytes = self.inline_bytes();
        let limit: int = if self.inline is Some {
            18
        } else {
            6
        };
        &&& self.len == 0
        &&& 0 < self.count <= limit
        &&& forall|i: int| self.count * 3 <= i < 54 ==> (#[trigger] bytes[i]) == 0
        &&& forall|i: int| 0 <= i < self.count ==> #[trigger] coordinate_valid(bytes, i, max_offset)
        &&& self.inline is None ==> coordinate_mask(bytes, self.count as int) == self.pages
    }

    /// The pages of the sparse postings.
    pub open spec fn inline_pages(self, max_offset: int) -> Result<Seq<(u8, Seq<u64>)>> {
        if self.inline_valid(max_offset) {
            Ok(coordinate_pages(self.inline_bytes(), self.count as int))
        } else {
            Err(Error::InvalidState)
        }
    }

    /// The stored form.
    pub open spec fn code(self) -> Seq<u8> {
        match self.inline {
            Some(inline) => u32_bytes(self.len) + inline + seq![0u8, 0u8] + u32_bytes(self.count),
            None => u32_bytes(self.len) + u32_bytes(self.blocks[0]) + u32_bytes(self.blocks[1])
                + u32_bytes(self.blocks[2]) + u64_bytes(self.pages[0]) + u64_bytes(self.pages[1])
                + u64_bytes(self.pages[2]) + u64_bytes(self.pages[3]) + u32_bytes(self.members)
                + u32_bytes(self.member_bytes) + u32_bytes(self.count) + u32_bytes(0),
        }
    }

    /// Whether the blocks are those of a record of the given size.
    pub open spec fn blocks_valid(self) -> bool {
        let used = (self.len + 8111) / 8112;
        forall|i: int|
            0 <= i < 3 ==> if i < used {
                &&& (#[trigger] self.blocks[i]) != 0
                &&& self.blocks[i] != NO_BLOCK
                &&& forall|j: int| 0 <= j < i ==> self.blocks[j] != self.blocks[i]
            } else {
                self.blocks[i] == NO_BLOCK
            }
    }

    /// Whether the value locates a record: of liveness with its members, or of
    /// postings.
    pub open spec fn located(self, liveness: bool) -> bool {
        &&& 72 <= self.len <= BITMAP_BYTES
        &&& self.blocks_valid()
        &&& if liveness {
            &&& self.members != 0
            &&& self.members != NO_BLOCK
            &&& 0 < self.count <= 131072
            &&& self.member_bytes == 72 + self.count * 16
            &&& !self.blocks.contains(self.members)
        } else {
            self.members == NO_BLOCK && self.member_bytes == 0 && self.count == 0
        }
        &&& self.pages != none(4)
    }
}

/// The fields of an entry that holds no inline postings.
pub open spec fn plain_value(value: Seq<u8>) -> ValueModel {
    ValueModel {
        len: le_u32(value, 0),
        blocks: seq![le_u32(value, 4), le_u32(value, 8), le_u32(value, 12)],
        pages: seq![le_u64(value, 16), le_u64(value, 24), le_u64(value, 32), le_u64(value, 40)],
        members: le_u32(value, 48),
        member_bytes: le_u32(value, 52),
        count: le_u32(value, 56),
        inline: None,
    }
}

/// The fields of an entry that holds inline postings.
pub open spec fn sparse_value(value: Seq<u8>) -> ValueModel {
    let inline = value.subrange(4, 58);
    let count = le_u32(value, 60);
    ValueModel {
        len: 0,
        blocks: seq![NO_BLOCK, NO_BLOCK, NO_BLOCK],
        pages: coordinate_mask(inline, count as int),
        members: NO_BLOCK,
        member_bytes: 0,
        count,
        inline: Some(inline),
    }
}

/// The value that an entry holds.
pub open spec fn value_at(entry: EntryModel) -> Result<ValueModel> {
    if le_u32(entry.value, 0) == 0 && le_u32(entry.value, 60) != 0 {
        let value = sparse_value(entry.value);
        if entry.key[0] == 0 || entry.value[58] != 0 || entry.value[59] != 0
            || !value.inline_valid(512) {
            Err(Error::InvalidState)
        } else {
            Ok(value)
        }
    } else {
        let value = plain_value(entry.value);
        if le_u32(entry.value, 60) != 0 {
            Err(Error::InvalidState)
        } else if value.len == 0 {
            if entry.key[0] == 0 || !value.inline_valid(512) {
                Err(Error::InvalidState)
            } else {
                Ok(value)
            }
        } else if !value.located(entry.key[0] == 0) {
            Err(Error::InvalidState)
        } else {
            Ok(value)
        }
    }
}

/// Reads the coordinate at `index`.
fn read_coordinate(bytes: &[u8; INLINE_BYTES], index: usize) -> (coordinate: u32)
    requires
        index < 18,
    ensures
        coordinate == coordinate_at(bytes@, index as int),
        coordinate < 0x100_0000,
{
    bytes[index * 3] as u32 + 0x100 * (bytes[index * 3 + 1] as u32) + 0x1_0000 * (bytes[index * 3
        + 2] as u32)
}

impl Value {
    /// The bytes of sparse postings, in either form.
    fn inline_bytes(&self) -> (bytes: [u8; INLINE_BYTES])
        ensures
            bytes@ == self@.inline_bytes(),
    {
        match self.inline {
            Some(bytes) => bytes,
            None => {
                let mut bytes: [u8; INLINE_BYTES] = [0u8; INLINE_BYTES];
                let ghost before = bytes@;
                assert(before =~= splice(before, 0, Seq::empty()));
                assert(Seq::<u8>::empty() + u32_bytes(self.blocks[0]) =~= u32_bytes(
                    self.blocks[0],
                ));
                let mut writer: Writer<'_> = Writer::new(&mut bytes);
                let a: crate::codec::Result<()> = writer.u32(self.blocks[0]);
                let b: crate::codec::Result<()> = writer.u32(self.blocks[1]);
                let c: crate::codec::Result<()> = writer.u32(self.blocks[2]);
                let d: crate::codec::Result<()> = writer.u32(self.members);
                let e: crate::codec::Result<()> = writer.u32(self.member_bytes);
                assert(a is Ok && b is Ok && c is Ok && d is Ok && e is Ok);
                assert(bytes@ =~= self@.inline_bytes());
                bytes
            },
        }
    }

    /// Decodes sparse postings.
    ///
    /// # Errors
    /// Rejects counts out of range, bytes behind the postings, offsets outside
    /// the layout, and postings out of order or outside the page mask.
    #[verifier::loop_isolation(false)]
    pub fn inline_pages(&self, max_offset: u16) -> (result: Result<Vec<PageOffsets>>)
        ensures
            match self@.inline_pages(max_offset as int) {
                Ok(pages) => result matches Ok(decoded) && page_models(decoded@) == pages,
                Err(error) => result matches Err(e) && e == error,
            },
    {
        let limit: u32 = match self.inline {
            Some(_) => 18,
            None => 6,
        };
        if self.len != 0 || self.count == 0 || self.count > limit {
            return Err(Error::InvalidState);
        }
        let count: usize = self.count as usize;
        let bytes: [u8; INLINE_BYTES] = self.inline_bytes();
        let mut rest: usize = count * 3;
        while rest < INLINE_BYTES
            invariant
                count * 3 <= rest <= 54,
                forall|i: int| count * 3 <= i < rest ==> (#[trigger] bytes@[i]) == 0,
            decreases 54 - rest,
        {
            if bytes[rest] != 0 {
                return Err(Error::InvalidState);
            }
            rest += 1;
        }
        let mut pages: Vec<PageOffsets> = Vec::new();
        let mut mask: PageMask = [0u64; 4];
        let mut index: usize = 0;
        let mut previous: Option<u32> = None;
        assert(mask@ =~= none(4));
        assert(page_models(pages@) =~= coordinate_pages(bytes@, 0));
        while index < count
            invariant
                index <= count,
                previous == if index == 0 {
                    None
                } else {
                    Some(coordinate_at(bytes@, index - 1) as u32)
                },
                forall|i: int|
                    0 <= i < index ==> #[trigger] coordinate_valid(bytes@, i, max_offset as int),
                page_models(pages@) == coordinate_pages(bytes@, index as int),
                mask@ == coordinate_mask(bytes@, index as int),
            decreases count - index,
        {
            let coordinate: u32 = read_coordinate(&bytes, index);
            let page: u8 = ((coordinate / 512) % 256) as u8;
            let bit: usize = (coordinate % 512) as usize;
            let ghost early = page_models(pages@);
            if bit + 1 > max_offset as usize {
                assert(!coordinate_valid(bytes@, index as int, max_offset as int));
                return Err(Error::InvalidState);
            }
            if let Some(last) = previous {
                if last >= coordinate {
                    assert(!coordinate_valid(bytes@, index as int, max_offset as int));
                    return Err(Error::InvalidState);
                }
            }
            assert(coordinate_valid(bytes@, index as int, max_offset as int));
            previous = Some(coordinate);
            mask_insert(&mut mask, page as usize);
            let used: usize = pages.len();
            let open: bool = if used == 0 {
                false
            } else {
                pages[used - 1].page == page
            };
            if open {
                let mut last: PageOffsets = pages[used - 1];
                assert(early.last() == page_model(last));
                mask_insert(&mut last.offsets, bit);
                pages.set(used - 1, last);
                assert(page_models(pages@) =~= with_coordinate(early, coordinate as int));
            } else {
                let mut offsets: OffsetMask = [0u64; 8];
                assert(offsets@ =~= none(8));
                mask_insert(&mut offsets, bit);
                if used > 0 {
                    assert(early.last() == page_model(pages@[used - 1]));
                }
                pages.push(PageOffsets { page, offsets });
                assert(page_models(pages@) =~= with_coordinate(early, coordinate as int));
            }
            index += 1;
        }
        if self.inline.is_none() && !same_masks(&mask, &self.pages) {
            return Err(Error::InvalidState);
        }
        Ok(pages)
    }

    /// The catalog entry of the value.
    pub fn entry(&self, key: [u64; 2]) -> (entry: CatalogEntry)
        ensures
            entry.key == key,
            entry.value@ == self@.code(),
    {
        let mut value: [u8; 64] = [0u8; 64];
        let ghost before = value@;
        assert(before =~= splice(before, 0, Seq::empty()));
        assert(Seq::<u8>::empty() + u32_bytes(self.len) =~= u32_bytes(self.len));
        match self.inline {
            Some(inline) => {
                let gap: [u8; 2] = [0, 0];
                assert(gap@ =~= seq![0u8, 0u8]);
                let mut writer: Writer<'_> = Writer::new(&mut value);
                let a: crate::codec::Result<()> = writer.u32(self.len);
                let b: crate::codec::Result<()> = writer.put(&inline);
                let c: crate::codec::Result<()> = writer.put(&gap);
                let d: crate::codec::Result<()> = writer.u32(self.count);
                assert(a is Ok && b is Ok && c is Ok && d is Ok);
                assert(value@ =~= self@.code());
            },
            None => {
                let mut writer: Writer<'_> = Writer::new(&mut value);
                let a: crate::codec::Result<()> = writer.u32(self.len);
                let b: crate::codec::Result<()> = writer.u32(self.blocks[0]);
                let c: crate::codec::Result<()> = writer.u32(self.blocks[1]);
                let d: crate::codec::Result<()> = writer.u32(self.blocks[2]);
                let e: crate::codec::Result<()> = writer.u64(self.pages[0]);
                let f: crate::codec::Result<()> = writer.u64(self.pages[1]);
                let g: crate::codec::Result<()> = writer.u64(self.pages[2]);
                let h: crate::codec::Result<()> = writer.u64(self.pages[3]);
                let i: crate::codec::Result<()> = writer.u32(self.members);
                let j: crate::codec::Result<()> = writer.u32(self.member_bytes);
                let k: crate::codec::Result<()> = writer.u32(self.count);
                let l: crate::codec::Result<()> = writer.u32(0);
                assert(a is Ok && b is Ok && c is Ok && d is Ok && e is Ok && f is Ok);
                assert(g is Ok && h is Ok && i is Ok && j is Ok && k is Ok && l is Ok);
                assert(value@ =~= self@.code());
            },
        }
        CatalogEntry { key, value }
    }

    /// # Errors
    /// Rejects locations and sparse postings that no record can have.
    pub fn read(entry: &CatalogEntry) -> (result: Result<Self>)
        ensures
            match value_at(entry@) {
                Ok(model) => result matches Ok(value) && value@ == model,
                Err(error) => result matches Err(e) && e == error,
            },
    {
        if get_u32(&entry.value, 0) == 0 && get_u32(&entry.value, 60) != 0 {
            return Value::read_sparse(entry);
        }
        let value: Value = Value::read_plain(&entry.value);
        if get_u32(&entry.value, 60) != 0 {
            return Err(Error::InvalidState);
        }
        if value.len == 0 {
            if entry.key[0] == 0 {
                return Err(Error::InvalidState);
            }
            value.inline_pages(512)?;
            return Ok(value);
        }
        if !value.is_located(entry.key[0] == 0) {
            return Err(Error::InvalidState);
        }
        Ok(value)
    }

    /// The fields of an entry that holds no inline postings.
    fn read_plain(value: &[u8; 64]) -> (plain: Self)
        ensures
            plain@ == plain_value(value@),
    {
        let plain: Value = Value {
            len: get_u32(value, 0),
            blocks: [get_u32(value, 4), get_u32(value, 8), get_u32(value, 12)],
            pages: [get_u64(value, 16), get_u64(value, 24), get_u64(value, 32), get_u64(value, 40)],
            members: get_u32(value, 48),
            member_bytes: get_u32(value, 52),
            count: get_u32(value, 56),
            inline: None,
        };
        assert(plain@ =~= plain_value(value@));
        plain
    }

    /// Whether the value locates a record.
    fn is_located(&self, liveness: bool) -> (located: bool)
        ensures
            located == self@.located(liveness),
    {
        if self.len < 72 || self.len > BITMAP_BYTES as u32 {
            return false;
        }
        let used: u32 = (self.len + 8111) / 8112;
        let (a, b, c): (u32, u32, u32) = (self.blocks[0], self.blocks[1], self.blocks[2]);
        let first: bool = a != 0 && a != NO_BLOCK;
        let second: bool = if used > 1 {
            b != 0 && b != NO_BLOCK && a != b
        } else {
            b == NO_BLOCK
        };
        let third: bool = if used > 2 {
            c != 0 && c != NO_BLOCK && a != c && b != c
        } else {
            c == NO_BLOCK
        };
        assert((first && second && third) == self@.blocks_valid()) by {
            let blocks = self@.blocks;
            assert(blocks[0] == a && blocks[1] == b && blocks[2] == c);
            assert(1 <= used <= 3);
        }
        if !first || !second || !third {
            return false;
        }
        if liveness {
            if self.members == 0 || self.members == NO_BLOCK || self.count == 0 || self.count
                > 131072 || self.member_bytes != 72 + self.count * 16 || a == self.members || b
                == self.members || c == self.members {
                assert(a == self.members ==> self@.blocks[0] == self.members);
                assert(b == self.members ==> self@.blocks[1] == self.members);
                assert(c == self.members ==> self@.blocks[2] == self.members);
                return false;
            }
        } else if self.members != NO_BLOCK || self.member_bytes != 0 || self.count != 0 {
            return false;
        }
        let empty: bool = mask_is_empty(&self.pages);
        assert(empty == (self.pages@ == none(4))) by {
            if empty {
                assert(self.pages@ =~= none(4));
            }
        }
        !empty
    }

    /// The fields of an entry that holds inline postings.
    #[verifier::loop_isolation(false)]
    fn read_sparse(entry: &CatalogEntry) -> (result: Result<Self>)
        requires
            le_u32(entry.value@, 60) != 0,
        ensures
            ({
                let model = sparse_value(entry.value@);
                if entry.key@[0] == 0 || entry.value@[58] != 0 || entry.value@[59] != 0
                    || !model.inline_valid(512) {
                    result matches Err(e) && e == Error::InvalidState
                } else {
                    result matches Ok(value) && value@ == model
                }
            }),
    {
        if entry.key[0] == 0 || entry.value[58] != 0 || entry.value[59] != 0 {
            return Err(Error::InvalidState);
        }
        let mut inline: [u8; INLINE_BYTES] = [0u8; INLINE_BYTES];
        let mut i: usize = 0;
        while i < INLINE_BYTES
            invariant
                i <= 54,
                forall|j: int| 0 <= j < i ==> #[trigger] inline@[j] == entry.value@[4 + j],
            decreases 54 - i,
        {
            inline[i] = entry.value[4 + i];
            i += 1;
        }
        assert(inline@ =~= entry.value@.subrange(4, 58));
        let count: u32 = get_u32(&entry.value, 60);
        let mut value: Value = Value {
            len: 0,
            blocks: [NO_BLOCK, NO_BLOCK, NO_BLOCK],
            pages: [0u64; 4],
            members: NO_BLOCK,
            member_bytes: 0,
            count,
            inline: Some(inline),
        };
        let ghost model = sparse_value(entry.value@);
        assert(value@.inline_bytes() == model.inline_bytes());
        assert(value@.inline_valid(512) == model.inline_valid(512));
        value.inline_pages(512)?;
        let mut mask: PageMask = [0u64; 4];
        assert(mask@ =~= none(4));
        let mut index: usize = 0;
        while index < count as usize
            invariant
                index <= count <= 18,
                mask@ == coordinate_mask(inline@, index as int),
            decreases count - index,
        {
            let coordinate: u32 = read_coordinate(&inline, index);
            mask_insert(&mut mask, ((coordinate / 512) % 256) as usize);
            index += 1;
        }
        value.pages = mask;
        assert(value@ =~= model);
        Ok(value)
    }
}

/// Compares two page masks.
pub(crate) fn same_masks(left: &PageMask, right: &PageMask) -> (same: bool)
    ensures
        same == (left@ == right@),
{
    let same: bool = left[0] == right[0] && left[1] == right[1] && left[2] == right[2] && left[3]
        == right[3];
    assert(same ==> left@ =~= right@);
    same
}

/// The coordinates after the members of one page, as long as they fit the
/// layout and the entry; nothing when they no longer fit the entry.
pub open spec fn members_noted(
    coordinates: Seq<int>,
    page: u8,
    offsets: Seq<int>,
    max_offset: int,
) -> Result<Option<Seq<int>>>
    decreases offsets.len(),
{
    if offsets.len() == 0 {
        Ok(Some(coordinates))
    } else if offsets[0] + 1 > max_offset {
        Err(Error::InvalidState)
    } else if coordinates.len() == 18 {
        Ok(None)
    } else {
        members_noted(
            coordinates.push(page * 512 + offsets[0]),
            page,
            offsets.drop_first(),
            max_offset,
        )
    }
}

/// The coordinates of pages from `index` on, behind those noted before.
pub open spec fn pages_noted(
    coordinates: Seq<int>,
    pages: Seq<PageOffsets>,
    index: int,
    max_offset: int,
) -> Result<Option<Seq<int>>>
    decreases pages.len() - index,
{
    if index >= pages.len() {
        Ok(Some(coordinates))
    } else if index > 0 && pages[index - 1].page >= pages[index].page {
        Err(Error::InvalidState)
    } else {
        match members_noted(
            coordinates,
            pages[index].page,
            members(pages[index].offsets@, 0),
            max_offset,
        ) {
            Err(error) => Err(error),
            Ok(None) => Ok(None),
            Ok(Some(coordinates)) => pages_noted(coordinates, pages, index + 1, max_offset),
        }
    }
}

/// The stored form of coordinates.
pub open spec fn coordinates_code(coordinates: Seq<int>) -> Seq<u8> {
    Seq::new(
        54,
        |i: int|
            if i / 3 < coordinates.len() {
                let coordinate = coordinates[i / 3];
                if i % 3 == 0 {
                    (coordinate % 0x100) as u8
                } else if i % 3 == 1 {
                    (coordinate / 0x100 % 0x100) as u8
                } else {
                    (coordinate / 0x1_0000) as u8
                }
            } else {
                0
            },
    )
}

/// The value of sparse postings.
pub open spec fn sparse_postings(coordinates: Seq<int>) -> ValueModel {
    let inline = coordinates_code(coordinates);
    ValueModel {
        len: 0,
        blocks: seq![NO_BLOCK, NO_BLOCK, NO_BLOCK],
        pages: coordinate_mask(inline, coordinates.len() as int),
        members: NO_BLOCK,
        member_bytes: 0,
        count: coordinates.len() as u32,
        inline: Some(inline),
    }
}

/// Sparse postings as a value; nothing when there are too many for an entry.
pub open spec fn inlined(key: Seq<u64>, pages: Seq<PageOffsets>, max_offset: int) -> Result<
    Option<ValueModel>,
> {
    if key[0] == 0 || pages.len() == 0 {
        Err(Error::InvalidState)
    } else {
        match pages_noted(Seq::empty(), pages, 0, max_offset) {
            Err(error) => Err(error),
            Ok(None) => Ok(None),
            Ok(Some(coordinates)) => if coordinates.len() == 0 {
                Err(Error::InvalidState)
            } else {
                Ok(Some(sparse_postings(coordinates)))
            },
        }
    }
}

/// Whether coordinates ascend inside the page and offset ranges.
pub open spec fn coordinates_ascend(coordinates: Seq<int>, max_offset: int) -> bool {
    &&& coordinates.len() <= 18
    &&& forall|i: int|
        0 <= i < coordinates.len() ==> 0 <= #[trigger] coordinates[i] < 0x2_0000
            && coordinates[i] % 512 + 1 <= max_offset
    &&& forall|i: int, j: int|
        0 <= i < j < coordinates.len() ==> coordinates[i] < coordinates[j]
}

/// Coordinates read back from their stored form.
pub proof fn coordinates_read_back(coordinates: Seq<int>, index: int, max_offset: int)
    requires
        coordinates_ascend(coordinates, max_offset),
        0 <= index < coordinates.len(),
    ensures
        coordinate_at(coordinates_code(coordinates), index) == coordinates[index],
{
    let code = coordinates_code(coordinates);
    let coordinate = coordinates[index];
    assert((index * 3) / 3 == index && (index * 3) % 3 == 0);
    assert((index * 3 + 1) / 3 == index && (index * 3 + 1) % 3 == 1);
    assert((index * 3 + 2) / 3 == index && (index * 3 + 2) % 3 == 2);
    assert(0 <= coordinate < 0x2_0000);
}

/// Sparse postings that were noted are sound.
proof fn noted_valid(coordinates: Seq<int>, max_offset: int)
    requires
        coordinates_ascend(coordinates, max_offset),
        coordinates.len() > 0,
    ensures
        sparse_postings(coordinates).inline_valid(max_offset),
{
    let value = sparse_postings(coordinates);
    let bytes = value.inline_bytes();
    assert forall|i: int| value.count * 3 <= i < 54 implies (#[trigger] bytes[i]) == 0 by {
        assert(i / 3 >= coordinates.len());
    }
    assert forall|i: int| 0 <= i < value.count implies #[trigger] coordinate_valid(
        bytes,
        i,
        max_offset,
    ) by {
        coordinates_read_back(coordinates, i, max_offset);
        if i > 0 {
            coordinates_read_back(coordinates, i - 1, max_offset);
        }
    }
}

/// Notes the offsets of one page; nothing when the entry is full.
#[verifier::loop_isolation(false)]
fn note_page(
    coordinates: &mut Vec<u32>,
    page: u8,
    offsets: &OffsetMask,
    max_offset: u16,
) -> (result: Result<bool>)
    requires
        coordinates_ascend(old(coordinates)@.map_values(|c: u32| c as int), max_offset as int),
        forall|i: int| 0 <= i < old(coordinates)@.len() ==> (#[trigger] old(coordinates)@[i])
            < page * 512,
    ensures
        coordinates_ascend(final(coordinates)@.map_values(|c: u32| c as int), max_offset as int),
        forall|i: int| 0 <= i < final(coordinates)@.len() ==> (#[trigger] final(coordinates)@[i])
            < page * 512 + 512,
        match members_noted(
            old(coordinates)@.map_values(|c: u32| c as int),
            page,
            members(offsets@, 0),
            max_offset as int,
        ) {
            Err(error) => result == Err::<bool, Error>(error),
            Ok(None) => result == Ok::<bool, Error>(false),
            Ok(Some(noted)) => result == Ok::<bool, Error>(true) && final(coordinates)@.map_values(|c: u32| c as int) == noted,
        },
{
    let ghost widen = |c: u32| c as int;
    let ghost total = members_noted(
        coordinates@.map_values(widen),
        page,
        members(offsets@, 0),
        max_offset as int,
    );
    let mut from: usize = 0;
    loop
        invariant
            from <= 512,
            coordinates_ascend(coordinates@.map_values(widen), max_offset as int),
            forall|i: int| 0 <= i < coordinates@.len() ==> (#[trigger] coordinates@[i]) < page * 512
                + from,
            total == members_noted(
                coordinates@.map_values(widen),
                page,
                members(offsets@, from as int),
                max_offset as int,
            ),
        decreases 512 - from,
    {
        let next: usize = match mask_next(offsets, from) {
            Some(next) => next,
            None => {
                return Ok(true);
            },
        };
        let ghost all = members(offsets@, from as int);
        assert(all[0] == next);
        assert(all.drop_first() =~= members(offsets@, next + 1));
        if next + 1 > max_offset as usize {
            return Err(Error::InvalidState);
        }
        if coordinates.len() == 18 {
            return Ok(false);
        }
        let ghost early = coordinates@.map_values(widen);
        let coordinate: u32 = page as u32 * 512 + next as u32;
        coordinates.push(coordinate);
        proof {
            let now = coordinates@.map_values(widen);
            assert(now =~= early.push(page * 512 + next));
            assert((page * 512 + next) % 512 == next) by (nonlinear_arith)
                requires
                    next < 512,
            ;
            assert forall|i: int, j: int| 0 <= i < j < now.len() implies now[i] < now[j] by {
                if j == early.len() {
                    assert(coordinates@[i] < page * 512 + from);
                } else {
                    assert(early[i] < early[j]);
                }
            }
            assert forall|i: int| 0 <= i < now.len() implies 0 <= #[trigger] now[i] < 0x2_0000
                && now[i] % 512 + 1 <= max_offset by {
                if i < early.len() {
                    assert(now[i] == early[i]);
                }
            }
        }
        from = next + 1;
    }
}

/// Encodes coordinates.
#[verifier::loop_isolation(false)]
fn encode_coordinates(coordinates: &Vec<u32>) -> (bytes: [u8; INLINE_BYTES])
    requires
        coordinates@.len() <= 18,
        forall|i: int| 0 <= i < coordinates@.len() ==> (#[trigger] coordinates@[i]) < 0x2_0000,
    ensures
        bytes@ == coordinates_code(coordinates@.map_values(|c: u32| c as int)),
{
    let ghost code = coordinates_code(coordinates@.map_values(|c: u32| c as int));
    let mut bytes: [u8; INLINE_BYTES] = [0u8; INLINE_BYTES];
    let mut index: usize = 0;
    while index < coordinates.len()
        invariant
            index <= coordinates@.len(),
            forall|i: int| 0 <= i < index * 3 ==> #[trigger] bytes@[i] == code[i],
            forall|i: int| index * 3 <= i < 54 ==> (#[trigger] bytes@[i]) == 0,
        decreases coordinates@.len() - index,
    {
        let coordinate: u32 = coordinates[index];
        bytes[index * 3] = (coordinate % 0x100) as u8;
        bytes[index * 3 + 1] = (coordinate / 0x100 % 0x100) as u8;
        bytes[index * 3 + 2] = (coordinate / 0x1_0000) as u8;
        proof {
            assert((index * 3) / 3 == index && (index * 3) % 3 == 0);
            assert((index * 3 + 1) / 3 == index && (index * 3 + 1) % 3 == 1);
            assert((index * 3 + 2) / 3 == index && (index * 3 + 2) % 3 == 2);
        }
        index += 1;
    }
    assert(bytes@ =~= code) by {
        assert forall|i: int| 0 <= i < 54 implies bytes@[i] == code[i] by {
            if i >= index * 3 {
                assert(i / 3 >= index);
            }
        }
    }
    bytes
}

/// Embeds sparse postings in a catalog leaf, which saves a page for each term;
/// nothing when there are too many.
///
/// # Errors
/// Rejects the key of liveness, pages out of order, offsets outside the layout
/// and postings without any offset.
#[verifier::loop_isolation(false)]
pub fn inline_postings(key: [u64; 2], pages: &[PageOffsets], layout: HeapLayout) -> (result: Result<
    Option<CatalogEntry>,
>)
    ensures
        match inlined(key@, pages@, layout.max_offset() as int) {
            Err(error) => result matches Err(e) && e == error,
            Ok(None) => result matches Ok(None),
            Ok(Some(value)) => result matches Ok(Some(entry)) && entry.key == key && entry.value@
                == value.code(),
        },
{
    if key[0] == 0 || pages.len() == 0 {
        return Err(Error::InvalidState);
    }
    let max_offset: u16 = layout.max_offset();
    let ghost widen = |c: u32| c as int;
    let ghost total = pages_noted(Seq::empty(), pages@, 0, max_offset as int);
    let mut coordinates: Vec<u32> = Vec::new();
    assert(coordinates@.map_values(widen) =~= Seq::<int>::empty());
    let mut index: usize = 0;
    while index < pages.len()
        invariant
            index <= pages@.len(),
            coordinates_ascend(coordinates@.map_values(widen), max_offset as int),
            forall|i: int|
                0 <= i < coordinates@.len() ==> index > 0 && (#[trigger] coordinates@[i])
                    < pages@[index - 1].page * 512 + 512,
            total == pages_noted(
                coordinates@.map_values(widen),
                pages@,
                index as int,
                max_offset as int,
            ),
        decreases pages@.len() - index,
    {
        if index > 0 {
            if pages[index - 1].page >= pages[index].page {
                return Err(Error::InvalidState);
            }
        }
        if !note_page(
            &mut coordinates,
            pages[index].page,
            &pages[index].offsets,
            max_offset,
        )? {
            return Ok(None);
        }
        index += 1;
    }
    if coordinates.len() == 0 {
        return Err(Error::InvalidState);
    }
    let ghost noted = coordinates@.map_values(widen);
    proof {
        assert forall|i: int| 0 <= i < coordinates@.len() implies (#[trigger] coordinates@[i])
            < 0x2_0000 by {
            assert(noted[i] == coordinates@[i]);
        }
        noted_valid(noted, max_offset as int);
    }
    let inline: [u8; INLINE_BYTES] = encode_coordinates(&coordinates);
    let count: usize = coordinates.len();
    let mut mask: PageMask = [0u64; 4];
    assert(mask@ =~= none(4));
    let mut place: usize = 0;
    while place < count
        invariant
            place <= count,
            mask@ == coordinate_mask(inline@, place as int),
        decreases count - place,
    {
        let coordinate: u32 = read_coordinate(&inline, place);
        mask_insert(&mut mask, ((coordinate / 512) % 256) as usize);
        place += 1;
    }
    let value: Value = Value {
        len: 0,
        blocks: [NO_BLOCK, NO_BLOCK, NO_BLOCK],
        pages: mask,
        members: NO_BLOCK,
        member_bytes: 0,
        count: count as u32,
        inline: Some(inline),
    };
    assert(value@ =~= sparse_postings(noted));
    value.inline_pages(max_offset)?;
    Ok(Some(value.entry(key)))
}

/// The pages of coordinates.
pub open spec fn listed_pages(coordinates: Seq<int>) -> Seq<(u8, Seq<u64>)>
    decreases coordinates.len(),
{
    if coordinates.len() == 0 {
        Seq::empty()
    } else {
        with_coordinate(listed_pages(coordinates.drop_last()), coordinates.last())
    }
}

/// The mask of the given offsets.
pub open spec fn offsets_mask(offsets: Seq<int>) -> Seq<u64>
    decreases offsets.len(),
{
    if offsets.len() == 0 {
        none(8)
    } else {
        with_member(offsets_mask(offsets.drop_last()), offsets.last())
    }
}

proof fn offsets_mask_holds(offsets: Seq<int>, index: int)
    requires
        forall|i: int| 0 <= i < offsets.len() ==> 0 <= #[trigger] offsets[i] < 512,
    ensures
        offsets_mask(offsets).len() == 8,
        member(offsets_mask(offsets), index) == offsets.contains(index),
    decreases offsets.len(),
{
    if offsets.len() == 0 {
        if 0 <= index < 512 {
            crate::mask::bit_logic(0, 0, (index % 64) as u64);
        }
    } else {
        let rest = offsets.drop_last();
        assert forall|i: int| 0 <= i < rest.len() implies 0 <= #[trigger] rest[i] < 512 by {
            assert(rest[i] == offsets[i]);
        }
        offsets_mask_holds(rest, index);
        assert(0 <= offsets[offsets.len() - 1] < 512);
        with_member_holds(offsets_mask(rest), offsets.last(), index);
        if offsets.contains(index) && index != offsets.last() {
            let i = choose|i: int| 0 <= i < offsets.len() && offsets[i] == index;
            assert(rest[i] == index);
        }
        if rest.contains(index) {
            let i = choose|i: int| 0 <= i < rest.len() && rest[i] == index;
            assert(offsets[i] == index);
        }
        assert(offsets.last() == offsets[offsets.len() - 1]);
    }
}

/// The mask of all members of a mask is that mask.
proof fn mask_of_members(words: Seq<u64>)
    requires
        words.len() == 8,
    ensures
        offsets_mask(members(words, 0)) == words,
{
    let all = members(words, 0);
    members_range(words, 0);
    assert forall|i: int| 0 <= i < all.len() implies 0 <= #[trigger] all[i] < 512 by {}
    assert forall|i: int| 0 <= i < 512 implies member(offsets_mask(all), i) == member(
        words,
        i,
    ) by {
        offsets_mask_holds(all, i);
    }
    offsets_mask_holds(all, 0);
    masks_equal(offsets_mask(all), words);
}

/// Noting the offsets of a page behind those of other pages adds that page.
proof fn noting_adds_page(
    start: Seq<int>,
    coordinates: Seq<int>,
    page: u8,
    done: Seq<int>,
    offsets: Seq<int>,
    max_offset: int,
)
    requires
        listed_pages(start).len() > 0 ==> listed_pages(start).last().0 != page,
        forall|i: int| 0 <= i < offsets.len() ==> 0 <= #[trigger] offsets[i] < 512,
        if done.len() == 0 {
            coordinates == start
        } else {
            listed_pages(coordinates) == listed_pages(start).push((page, offsets_mask(done)))
        },
    ensures
        members_noted(coordinates, page, offsets, max_offset) matches Ok(Some(noted)) ==> if done.len()
            + offsets.len() == 0 {
            noted == start
        } else {
            listed_pages(noted) == listed_pages(start).push((page, offsets_mask(done + offsets)))
        },
    decreases offsets.len(),
{
    if offsets.len() == 0 {
        assert(done + offsets =~= done);
    } else if offsets[0] + 1 <= max_offset && coordinates.len() != 18 {
        let offset = offsets[0];
        let coordinate = page * 512 + offset;
        let next = coordinates.push(coordinate);
        let more = done.push(offset);
        assert(next.drop_last() =~= coordinates);
        assert(more.drop_last() =~= done);
        assert(coordinate / 512 == page && coordinate % 512 == offset) by (nonlinear_arith)
            requires
                coordinate == page * 512 + offset,
                0 <= offset < 512,
        ;
        assert(coordinate_page(coordinate) == page);
        let pages = listed_pages(coordinates);
        if done.len() == 0 {
            assert(listed_pages(next) =~= pages.push((page, with_member(none(8), offset))));
        } else {
            let before = listed_pages(start);
            assert(pages.drop_last() =~= before);
            assert(listed_pages(next) =~= before.push((page, offsets_mask(more))));
        }
        assert forall|i: int| 0 <= i < offsets.drop_first().len() implies 0
            <= #[trigger] offsets.drop_first()[i] < 512 by {
            assert(offsets.drop_first()[i] == offsets[i + 1]);
        }
        noting_adds_page(start, next, page, more, offsets.drop_first(), max_offset);
        assert(more + offsets.drop_first() =~= done + offsets);
    }
}

/// Noted pages are those that were given.
proof fn noted_pages(coordinates: Seq<int>, pages: Seq<PageOffsets>, index: int, max_offset: int)
    requires
        0 <= index <= pages.len(),
        listed_pages(coordinates) == page_models(pages.take(index)),
        forall|i: int|
            0 <= i < pages.len() ==> members((#[trigger] pages[i]).offsets@, 0).len() > 0,
    ensures
        pages_noted(coordinates, pages, index, max_offset) matches Ok(Some(noted)) ==> listed_pages(
            noted,
        ) == page_models(pages),
    decreases pages.len() - index,
{
    if index >= pages.len() {
        assert(pages.take(index) =~= pages);
    } else if !(index > 0 && pages[index - 1].page >= pages[index].page) {
        let page = pages[index].page;
        let words = pages[index].offsets@;
        let offsets = members(words, 0);
        members_range(words, 0);
        assert forall|i: int| 0 <= i < offsets.len() implies 0 <= #[trigger] offsets[i] < 512 by {}
        if index > 0 {
            assert(page_models(pages.take(index)).last() == page_model(pages[index - 1]));
        }
        noting_adds_page(coordinates, coordinates, page, Seq::empty(), offsets, max_offset);
        assert(Seq::<int>::empty() + offsets =~= offsets);
        mask_of_members(words);
        if let Ok(Some(noted)) = members_noted(coordinates, page, offsets, max_offset) {
            assert(page_models(pages.take(index + 1)) =~= page_models(pages.take(index)).push(
                page_model(pages[index]),
            ));
            noted_pages(noted, pages, index + 1, max_offset);
        }
    }
}

/// Noted coordinates ascend inside the layout.
proof fn members_ascend(coordinates: Seq<int>, page: u8, offsets: Seq<int>, max_offset: int)
    requires
        coordinates_ascend(coordinates, max_offset),
        forall|i: int| 0 <= i < offsets.len() ==> 0 <= #[trigger] offsets[i] < 512,
        forall|i: int, j: int| 0 <= i < j < offsets.len() ==> offsets[i] < offsets[j],
        forall|i: int|
            0 <= i < coordinates.len() && offsets.len() > 0 ==> #[trigger] coordinates[i] < page
                * 512 + offsets[0],
        forall|i: int| 0 <= i < coordinates.len() ==> #[trigger] coordinates[i] < page * 512 + 512,
    ensures
        members_noted(coordinates, page, offsets, max_offset) matches Ok(Some(noted))
            ==> coordinates_ascend(noted, max_offset) && forall|i: int|
            0 <= i < noted.len() ==> #[trigger] noted[i] < page * 512 + 512,
    decreases offsets.len(),
{
    if offsets.len() > 0 && offsets[0] + 1 <= max_offset && coordinates.len() != 18 {
        let coordinate = page * 512 + offsets[0];
        let next = coordinates.push(coordinate);
        assert(coordinate % 512 == offsets[0]) by (nonlinear_arith)
            requires
                coordinate == page * 512 + offsets[0],
                0 <= offsets[0] < 512,
        ;
        assert forall|i: int, j: int| 0 <= i < j < next.len() implies next[i] < next[j] by {
            if j < coordinates.len() {
                assert(coordinates[i] < coordinates[j]);
            } else {
                assert(coordinates[i] < coordinate);
            }
        }
        let rest = offsets.drop_first();
        assert forall|i: int| 0 <= i < rest.len() implies 0 <= #[trigger] rest[i] < 512 by {
            assert(rest[i] == offsets[i + 1]);
        }
        assert forall|i: int, j: int| 0 <= i < j < rest.len() implies rest[i] < rest[j] by {
            assert(offsets[i + 1] < offsets[j + 1]);
        }
        assert forall|i: int| 0 <= i < next.len() && rest.len() > 0 implies #[trigger] next[i]
            < page * 512 + rest[0] by {
            assert(offsets[0] < offsets[1]);
            if i < coordinates.len() {
                assert(coordinates[i] < coordinate);
            }
        }
        members_ascend(next, page, rest, max_offset);
    }
}

proof fn noted_ascend(coordinates: Seq<int>, pages: Seq<PageOffsets>, index: int, max_offset: int)
    requires
        0 <= index <= pages.len(),
        coordinates_ascend(coordinates, max_offset),
        forall|i: int|
            0 <= i < coordinates.len() ==> index > 0 && #[trigger] coordinates[i] < pages[index
                - 1].page * 512 + 512,
    ensures
        pages_noted(coordinates, pages, index, max_offset) matches Ok(Some(noted))
            ==> coordinates_ascend(noted, max_offset),
    decreases pages.len() - index,
{
    if index < pages.len() && !(index > 0 && pages[index - 1].page >= pages[index].page) {
        let page = pages[index].page;
        let words = pages[index].offsets@;
        let offsets = members(words, 0);
        members_range(words, 0);
        assert forall|i: int| 0 <= i < offsets.len() implies 0 <= #[trigger] offsets[i] < 512 by {}
        members_ascend(coordinates, page, offsets, max_offset);
        if let Ok(Some(noted)) = members_noted(coordinates, page, offsets, max_offset) {
            noted_ascend(noted, pages, index + 1, max_offset);
        }
    }
}

proof fn stored_pages(coordinates: Seq<int>, count: int, max_offset: int)
    requires
        coordinates_ascend(coordinates, max_offset),
        0 <= count <= coordinates.len(),
    ensures
        coordinate_pages(coordinates_code(coordinates), count) == listed_pages(
            coordinates.take(count),
        ),
    decreases count,
{
    if count > 0 {
        stored_pages(coordinates, count - 1, max_offset);
        coordinates_read_back(coordinates, count - 1, max_offset);
        assert(coordinates.take(count).drop_last() =~= coordinates.take(count - 1));
    }
}

/// Sparse postings read back from their catalog entry: the value is the one
/// that was stored, and its pages are the ones that were given.
pub proof fn sparse_round_trip(key: Seq<u64>, pages: Seq<PageOffsets>, max_offset: int)
    requires
        key.len() == 2,
        max_offset <= 512,
        inlined(key, pages, max_offset) matches Ok(Some(_)),
        forall|i: int|
            0 <= i < pages.len() ==> members((#[trigger] pages[i]).offsets@, 0).len() > 0,
    ensures
        ({
            let value = inlined(key, pages, max_offset)->Ok_0->Some_0;
            &&& value_at(EntryModel { key, value: value.code() }) == Ok::<ValueModel, Error>(value)
            &&& value.inline_pages(max_offset) == Ok::<Seq<(u8, Seq<u64>)>, Error>(
                page_models(pages),
            )
        }),
{
    let coordinates = pages_noted(Seq::empty(), pages, 0, max_offset)->Ok_0->Some_0;
    let value = sparse_postings(coordinates);
    assert(page_models(pages.take(0)) =~= listed_pages(Seq::empty()));
    noted_pages(Seq::empty(), pages, 0, max_offset);
    noted_ascend(Seq::empty(), pages, 0, max_offset);
    noted_valid(coordinates, max_offset);
    stored_pages(coordinates, coordinates.len() as int, max_offset);
    assert(coordinates.take(coordinates.len() as int) =~= coordinates);
    let code = value.code();
    let inline = value.inline->Some_0;
    assert(code.subrange(0, 4) =~= u32_bytes(0));
    assert(code.subrange(60, 64) =~= u32_bytes(value.count));
    le_u32_of_bytes(code, 0, 0);
    le_u32_of_bytes(code, 60, value.count);
    assert(code.subrange(4, 58) =~= inline);
    assert(sparse_value(code) =~= value);
    assert(value.inline_valid(512)) by {
        let bytes = value.inline_bytes();
        assert forall|i: int| 0 <= i < value.count implies #[trigger] coordinate_valid(
            bytes,
            i,
            512,
        ) by {
            assert(coordinate_valid(bytes, i, max_offset));
        }
    }
}

} // verus!
