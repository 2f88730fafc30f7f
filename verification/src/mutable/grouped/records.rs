//! Records of a segment, cut into the pages of its journal.

use crate::codec::bytes::group_bytes;
use crate::error::{Error, Result};
use crate::grouped::bitmap::{
    bitmap_at, bitmap_code, encode_bitmap, pages_storable, Bitmap, BitmapKind, PageOffsets,
};
use crate::grouped::GroupKey;
use crate::identity::{group_identity, Generation, HeapLayout, SegmentId};
use crate::mutable::grouped::journal::{attach_page, page_appended, take_slot, Slot};
use crate::mutable::grouped::values::{page_models, value_at, Value, ValueModel, BITMAP_BYTES};
use crate::mutable::page::grouped::group_record_image;
use crate::mutable::page::grouped_model::EntryModel;
use crate::mutable::page::model::Image;
use crate::mutable::page::{
    CatalogEntry, GroupData, GroupPageKind, GroupSnapshot, Page, PageKind, GROUP_DATA_BYTES,
    NO_BLOCK,
};
use crate::mutable::store::{
    answers, load, performs, same_host, Change, PageStore, StoreModel,
};
use vstd::prelude::*;

verus! {

broadcast use {group_bytes, group_identity, GroupKey::of_parts};

/// The piece of a record that its page at `index` holds.
pub open spec fn record_piece(bytes: Seq<u8>, index: int) -> Seq<u8> {
    bytes.subrange(
        index * 8112,
        if index * 8112 + 8112 < bytes.len() {
            index * 8112 + 8112
        } else {
            bytes.len() as int
        },
    )
}

/// The page of a record's piece, for any block.
pub open spec fn record_maker(
    id: SegmentId,
    kind: GroupPageKind,
    key: Seq<u64>,
    total: u32,
    offset: u32,
    piece: Seq<u8>,
) -> spec_fn(u32) -> Result<Image> {
    |block: u32| group_record_image(block, id, kind, key, total, offset, piece)
}

/// Writing the pages of a record from `index` on: the snapshot then and the
/// blocks of all pages.
pub open spec fn pieces_written(
    model: StoreModel,
    snapshot: GroupSnapshot,
    kind: GroupPageKind,
    key: Seq<u64>,
    bytes: Seq<u8>,
    index: int,
    blocks: Seq<u32>,
) -> Change<(GroupSnapshot, Seq<u32>)>
    decreases bytes.len() - index,
{
    if index < 0 || index * 8112 >= bytes.len() {
        Change::made(model, (snapshot, blocks))
    } else {
        let step = page_appended(
            model,
            snapshot,
            record_maker(
                snapshot.id,
                kind,
                key,
                bytes.len() as u32,
                (index * 8112) as u32,
                record_piece(bytes, index),
            ),
        );
        match step.value {
            Err(error) => Change::refused(step.model, error),
            Ok(after) => pieces_written(
                step.model,
                after,
                kind,
                key,
                bytes,
                index + 1,
                blocks.push(after.tail),
            ),
        }
    }
}

/// The blocks of the first three pages.
pub open spec fn first_blocks(blocks: Seq<u32>) -> Seq<u32> {
    Seq::new(
        3,
        |i: int|
            if i < blocks.len() {
                blocks[i]
            } else {
                NO_BLOCK
            },
    )
}

/// Writing a record: the snapshot then, the first block and the first three.
pub open spec fn record_written(
    model: StoreModel,
    snapshot: GroupSnapshot,
    kind: GroupPageKind,
    key: Seq<u64>,
    bytes: Seq<u8>,
) -> Change<(GroupSnapshot, u32, Seq<u32>)> {
    if bytes.len() > u32::MAX {
        Change::refused(model, Error::Limit("group record"))
    } else {
        let written = pieces_written(model, snapshot, kind, key, bytes, 0, Seq::empty());
        match written.value {
            Err(error) => Change::refused(written.model, error),
            Ok((after, blocks)) => if blocks.len() == 0 {
                Change::refused(written.model, Error::InvalidState)
            } else {
                Change::made(written.model, (after, blocks[0], first_blocks(blocks)))
            },
        }
    }
}

/// Writes one page of a record.
fn write_piece<S: PageStore>(
    store: &mut S,
    snapshot: &mut GroupSnapshot,
    kind: GroupPageKind,
    key: [u64; 2],
    total: u32,
    offset: u32,
    piece: &[u8],
) -> (result: Result<u32>)
    ensures
        result matches Ok(block) ==> final(snapshot).tail == block,
        performs(
            old(store).host(),
            final(store).host(),
            match result {
                Ok(_) => Ok(*final(snapshot)),
                Err(error) => Err(error),
            },
            page_appended(
                old(store).host().model,
                *old(snapshot),
                record_maker(old(snapshot).id, kind, key@, total, offset, piece@),
            ),
        ),
{
    reveal(page_appended);
    let slot: Slot = take_slot(store, snapshot)?;
    let page: Page = Page::group_record(
        slot.block,
        snapshot.id,
        kind,
        key,
        total,
        offset,
        piece,
    )?;
    attach_page(store, snapshot, slot, &page)
}

/// Writes the pages of a record: their blocks.
#[verifier::loop_isolation(false)]
fn write_pieces<S: PageStore>(
    store: &mut S,
    snapshot: &mut GroupSnapshot,
    kind: GroupPageKind,
    key: [u64; 2],
    bytes: &[u8],
) -> (result: Result<Vec<u32>>)
    requires
        bytes@.len() <= u32::MAX,
    ensures
        performs(
            old(store).host(),
            final(store).host(),
            match result {
                Ok(blocks) => Ok((*final(snapshot), blocks@)),
                Err(error) => Err(error),
            },
            pieces_written(
                old(store).host().model,
                *old(snapshot),
                kind,
                key@,
                bytes@,
                0,
                Seq::empty(),
            ),
        ),
{
    let length: usize = bytes.len();
    let total: u32 = length as u32;
    let ghost goal = pieces_written(
        store.host().model,
        *snapshot,
        kind,
        key@,
        bytes@,
        0,
        Seq::empty(),
    );
    let mut blocks: Vec<u32> = Vec::new();
    let count: usize = length / GROUP_DATA_BYTES + if length % GROUP_DATA_BYTES == 0 {
        0
    } else {
        1
    };
    let mut index: usize = 0;
    assert(blocks@ =~= Seq::<u32>::empty());
    while index < count
        invariant
            index <= count,
            same_host(old(store).host(), store.host()),
            goal == pieces_written(
                store.host().model,
                *snapshot,
                kind,
                key@,
                bytes@,
                index as int,
                blocks@,
            ),
        decreases count - index,
    {
        let offset: usize = index * GROUP_DATA_BYTES;
        let end: usize = if length - offset < GROUP_DATA_BYTES {
            length
        } else {
            offset + GROUP_DATA_BYTES
        };
        let piece: &[u8] = &bytes[offset..end];
        assert(piece@ =~= record_piece(bytes@, index as int));
        let block: u32 = write_piece(store, snapshot, kind, key, total, offset as u32, piece)?;
        blocks.push(block);
        index += 1;
    }
    Ok(blocks)
}

/// Writes a record: its first block, and the blocks of its first three pages.
pub(crate) fn write_record<S: PageStore>(
    store: &mut S,
    snapshot: &mut GroupSnapshot,
    kind: GroupPageKind,
    key: [u64; 2],
    bytes: &[u8],
) -> (result: Result<(u32, [u32; 3])>)
    ensures
        performs(
            old(store).host(),
            final(store).host(),
            match result {
                Ok((head, blocks)) => Ok((*final(snapshot), head, blocks@)),
                Err(error) => Err(error),
            },
            record_written(old(store).host().model, *old(snapshot), kind, key@, bytes@),
        ),
{
    if bytes.len() as u64 > u32::MAX as u64 {
        return Err(Error::Limit("group record"));
    }
    let all: Vec<u32> = write_pieces(store, snapshot, kind, key, bytes)?;
    if all.len() == 0 {
        return Err(Error::InvalidState);
    }
    let blocks: [u32; 3] = [
        all[0],
        if all.len() > 1 {
            all[1]
        } else {
            NO_BLOCK
        },
        if all.len() > 2 {
            all[2]
        } else {
            NO_BLOCK
        },
    ];
    assert(blocks@ =~= first_blocks(all@));
    Ok((all[0], blocks))
}

/// The bytes of a record from its page at `index` on.
pub open spec fn pieces_read(
    model: StoreModel,
    snapshot: GroupSnapshot,
    kind: GroupPageKind,
    key: Seq<u64>,
    block: u32,
    total: int,
    index: int,
    expected: Option<Seq<u32>>,
) -> Result<Seq<u8>>
    decreases total - index,
{
    if index < 0 || index * 8112 >= total {
        Ok(Seq::empty())
    } else if expected matches Some(blocks) && !(index < blocks.len() && blocks[index] == block) {
        Err(Error::InvalidState)
    } else {
        match model.load(block, PageKind::Grouped) {
            Err(error) => Err(error),
            Ok(page) => match page.group_data() {
                Err(error) => Err(error),
                Ok(data) => {
                    let size = if total - index * 8112 < 8112 {
                        total - index * 8112
                    } else {
                        8112
                    };
                    if data.id != snapshot.id || data.kind != kind || data.key != key || data.total
                        != total || data.offset != index * 8112 || data.bytes.len() != size {
                        Err(Error::InvalidState)
                    } else {
                        match page.next() {
                            Err(error) => Err(error),
                            Ok(next) => match pieces_read(
                                model,
                                snapshot,
                                kind,
                                key,
                                next,
                                total,
                                index + 1,
                                expected,
                            ) {
                                Err(error) => Err(error),
                                Ok(rest) => Ok(data.bytes + rest),
                            },
                        }
                    }
                },
            },
        }
    }
}

/// A record that was read has the size that was asked for.
pub proof fn pieces_len(
    model: StoreModel,
    snapshot: GroupSnapshot,
    kind: GroupPageKind,
    key: Seq<u64>,
    block: u32,
    total: int,
    index: int,
    expected: Option<Seq<u32>>,
)
    requires
        0 <= index,
        0 <= total,
    ensures
        pieces_read(model, snapshot, kind, key, block, total, index, expected) matches Ok(bytes)
            ==> bytes.len() == if index * 8112 < total {
            total - index * 8112
        } else {
            0
        },
    decreases total - index,
{
    if index * 8112 < total {
        if let Ok(page) = model.load(block, PageKind::Grouped) {
            if let Ok(next) = page.next() {
                pieces_len(model, snapshot, kind, key, next, total, index + 1, expected);
            }
        }
    }
}

/// Compares two keys.
pub(crate) fn same_key(left: &[u64; 2], right: &[u64; 2]) -> (same: bool)
    ensures
        same == (left@ == right@),
{
    let same: bool = left[0] == right[0] && left[1] == right[1];
    assert(same ==> left@ =~= right@);
    same
}

/// Fills the output with a record of `total` bytes.
///
/// # Errors
/// Rejects pages of another record and pages in other places than expected.
#[verifier::loop_isolation(false)]
pub(crate) fn read_record<S: PageStore>(
    store: &mut S,
    snapshot: &GroupSnapshot,
    kind: GroupPageKind,
    key: [u64; 2],
    head: u32,
    total: usize,
    output: &mut Vec<u8>,
    expected: Option<[u32; 3]>,
) -> (result: Result<()>)
    ensures
        answers(
            old(store).host(),
            final(store).host(),
            match result {
                Ok(_) => Ok(final(output)@),
                Err(error) => Err(error),
            },
            pieces_read(
                old(store).host().model,
                *snapshot,
                kind,
                key@,
                head,
                total as int,
                0,
                match expected {
                    Some(blocks) => Some(blocks@),
                    None => None,
                },
            ),
        ),
{
    let ghost model = store.host().model;
    let ghost places = match expected {
        Some(blocks) => Some(blocks@),
        None => None,
    };
    let ghost goal = pieces_read(model, *snapshot, kind, key@, head, total as int, 0, places);
    output.clear();
    let mut block: u32 = head;
    let mut index: usize = 0;
    let mut offset: usize = 0;
    let ghost mut met: Seq<u8> = Seq::empty();
    loop
        invariant
            offset == index * 8112,
            output@ == met,
            store.host() == old(store).host(),
            match pieces_read(
                model,
                *snapshot,
                kind,
                key@,
                block,
                total as int,
                index as int,
                places,
            ) {
                Err(error) => goal == Err::<Seq<u8>, Error>(error),
                Ok(rest) => goal == Ok::<Seq<u8>, Error>(met + rest),
            },
        decreases total - offset,
    {
        if offset >= total {
            assert(met + Seq::<u8>::empty() =~= met);
            return Ok(());
        }
        if let Some(blocks) = expected {
            if index >= 3 {
                return Err(Error::InvalidState);
            }
            if blocks[index] != block {
                return Err(Error::InvalidState);
            }
        }
        let page: Page = load(store, block, PageKind::Grouped)?;
        let data: GroupData<'_> = page.group_data()?;
        let size: usize = if total - offset < GROUP_DATA_BYTES {
            total - offset
        } else {
            GROUP_DATA_BYTES
        };
        if data.id != snapshot.id || data.kind != kind || !same_key(&data.key, &key)
            || data.total as usize != total || data.offset as usize != offset || data.bytes.len()
            != size {
            return Err(Error::InvalidState);
        }
        let next: u32 = page.next()?;
        output.extend_from_slice(data.bytes);
        proof {
            let piece = data.bytes@;
            let rest = pieces_read(
                model,
                *snapshot,
                kind,
                key@,
                next,
                total as int,
                index + 1,
                places,
            );
            if let Ok(rest) = rest {
                assert(met + (piece + rest) =~= (met + piece) + rest);
            }
            met = met + piece;
            assert(output@ =~= met);
        }
        block = next;
        index += 1;
        if total - offset <= GROUP_DATA_BYTES {
            assert(index * 8112 >= total);
            assert(met + Seq::<u8>::empty() =~= met);
            return Ok(());
        }
        offset = offset + GROUP_DATA_BYTES;
    }
}

/// The heap pages that have the given models.
pub open spec fn page_list(models: Seq<(u8, Seq<u64>)>) -> Seq<PageOffsets> {
    choose|pages: Seq<PageOffsets>| #[trigger] page_models(pages) == models
}

/// Heap pages are known by their models.
pub proof fn page_list_of(pages: Seq<PageOffsets>)
    ensures
        page_list(page_models(pages)) == pages,
{
    let models = page_models(pages);
    let other = page_list(models);
    assert(page_models(other) == models);
    assert(other.len() == models.len() && models.len() == pages.len());
    assert forall|i: int| 0 <= i < pages.len() implies other[i] == pages[i] by {
        assert(models[i] == crate::mutable::grouped::values::page_model(pages[i]));
        assert(models[i] == page_models(other)[i]);
        assert(other[i].offsets =~= pages[i].offsets);
    }
    assert(other =~= pages);
}

/// The key of a group of a snapshot. The page store already selects a single
/// physical relation generation.
pub open spec fn snapshot_key(snapshot: GroupSnapshot, base: u32, layout: HeapLayout) -> Result<
    GroupKey,
> {
    if base % 256 != 0 {
        Err(Error::InvalidParameters)
    } else {
        Ok(GroupKey::of(Generation::of(1), snapshot.id, base, layout))
    }
}

pub(crate) fn key(snapshot: &GroupSnapshot, base: u32, layout: HeapLayout) -> (result: Result<
    GroupKey,
>)
    ensures
        result == snapshot_key(*snapshot, base, layout),
{
    match Generation::new(1) {
        Ok(generation) => GroupKey::new(generation, snapshot.id, base, layout),
        Err(_) => Err(Error::InvalidState),
    }
}

/// The record of sparse postings.
pub open spec fn sparse_record(key: GroupKey, pages: Seq<PageOffsets>) -> Result<Seq<u8>> {
    if !pages_storable(key, pages, pages.len() as int) {
        Err(Error::InvalidState)
    } else {
        let code = bitmap_code(key, BitmapKind::Posting, pages);
        match bitmap_at(code) {
            Err(error) => Err(error),
            Ok(_) => Ok(code),
        }
    }
}

/// The kind of the record behind a key.
pub open spec fn record_kind(key: Seq<u64>) -> GroupPageKind {
    if key[0] == 0 {
        GroupPageKind::Liveness
    } else {
        GroupPageKind::Posting
    }
}

/// Whether a record is the bitmap that its entry announces.
pub open spec fn bitmap_announced(
    bytes: Seq<u8>,
    key: GroupKey,
    liveness: bool,
    value: ValueModel,
) -> Result<()> {
    match bitmap_at(bytes) {
        Err(error) => Err(error),
        Ok(header) => if header.key != key || (header.kind == 1) == liveness || header.mask
            != value.pages {
            Err(Error::InvalidState)
        } else {
            Ok(())
        },
    }
}

/// The value of an entry and the bitmap that it leads to.
pub open spec fn bitmap_read(model: StoreModel, snapshot: GroupSnapshot, entry: EntryModel) -> Result<
    (ValueModel, Seq<u8>),
> {
    match value_at(entry) {
        Err(error) => Err(error),
        Ok(value) => if value.len == 0 {
            match value.inline_pages(model.layout.max_offset() as int) {
                Err(error) => Err(error),
                Ok(pages) => match snapshot_key(snapshot, entry.key[1] as u32, model.layout) {
                    Err(error) => Err(error),
                    Ok(key) => match sparse_record(key, page_list(pages)) {
                        Err(error) => Err(error),
                        Ok(bytes) => Ok((value, bytes)),
                    },
                },
            }
        } else {
            match pieces_read(
                model,
                snapshot,
                record_kind(entry.key),
                entry.key,
                value.blocks[0],
                value.len as int,
                0,
                Some(value.blocks),
            ) {
                Err(error) => Err(error),
                Ok(bytes) => match bitmap_at(bytes) {
                    Err(error) => Err(error),
                    Ok(_) => match snapshot_key(snapshot, entry.key[1] as u32, model.layout) {
                        Err(error) => Err(error),
                        Ok(key) => match bitmap_announced(bytes, key, entry.key[0] == 0, value) {
                            Err(error) => Err(error),
                            Ok(_) => Ok((value, bytes)),
                        },
                    },
                },
            }
        },
    }
}

/// Encodes sparse postings as a record.
fn expand(key: GroupKey, pages: &Vec<PageOffsets>, output: &mut Vec<u8>) -> (result: Result<()>)
    ensures
        match sparse_record(key, pages@) {
            Ok(bytes) => result is Ok && final(output)@ == bytes,
            Err(error) => result == Err::<(), Error>(error),
        },
{
    output.clear();
    output.resize(BITMAP_BYTES, 0);
    let relation: u64 = key.relation().get();
    let segment: u64 = key.segment().get();
    let max_offset: u16 = key.layout().max_offset();
    let base: u32 = key.base();
    proof {
        key.layout().of_layout();
        if pages_storable(key, pages@, pages@.len() as int) {
            crate::grouped::bitmap::bitmap_opens(key, BitmapKind::Posting, pages@);
        }
    }
    let len: usize = encode_bitmap(
        key,
        BitmapKind::Posting,
        pages.as_slice(),
        output.as_mut_slice(),
    )?;
    output.truncate(len);
    assert(output@ =~= bitmap_code(key, BitmapKind::Posting, pages@));
    Bitmap::open(output.as_slice())?;
    Ok(())
}

/// Reads the bitmap behind an entry into the output.
///
/// # Errors
/// Rejects values and records that do not fit together.
pub(crate) fn read_bitmap<S: PageStore>(
    store: &mut S,
    snapshot: &GroupSnapshot,
    entry: &CatalogEntry,
    output: &mut Vec<u8>,
) -> (result: Result<Value>)
    ensures
        answers(
            old(store).host(),
            final(store).host(),
            match result {
                Ok(value) => Ok((value@, final(output)@)),
                Err(error) => Err(error),
            },
            bitmap_read(old(store).host().model, *snapshot, entry@),
        ),
{
    let value: Value = Value::read(entry)?;
    if value.len == 0 {
        let pages: Vec<PageOffsets> = value.inline_pages(store.layout().max_offset())?;
        let group: GroupKey = key(
            snapshot,
            #[verifier::truncate]
            (entry.key[1] as u32),
            store.layout(),
        )?;
        proof {
            page_list_of(pages@);
        }
        expand(group, &pages, output)?;
        return Ok(value);
    }
    let liveness: bool = entry.key[0] == 0;
    let kind: GroupPageKind = if liveness {
        GroupPageKind::Liveness
    } else {
        GroupPageKind::Posting
    };
    read_record(
        store,
        snapshot,
        kind,
        entry.key,
        value.blocks[0],
        value.len as usize,
        output,
        Some(value.blocks),
    )?;
    let view: Bitmap<'_> = Bitmap::open(output.as_slice())?;
    let group: GroupKey = key(snapshot, entry.key[1] as u32, store.layout())?;
    let expected: BitmapKind = if liveness {
        BitmapKind::Liveness
    } else {
        BitmapKind::Posting
    };
    if view.key() != group || view.kind() != expected || !crate::mutable::grouped::values::same_masks(
        view.pages(),
        &value.pages,
    ) {
        return Err(Error::InvalidState);
    }
    Ok(value)
}

} // verus!
