//! Shared liveness retirement before canonical owner removal and heap reuse.

use crate::callbacks::RootFilter;
use crate::codec::bytes::{get_u32, group_bytes, le_u32, u32_bytes};
use crate::error::{Error, Result};
use crate::grouped::bitmap::{bitmap_at, BitmapKind, BitmapModel};
use crate::grouped::retire::{
    cleared, live_from, page_root, payloads_valid, removed_from, retire_roots,
};
use crate::grouped::GroupKey;
use crate::identity::{group_identity, RootTid};
use crate::mutable::grouped::anchors::{anchor_at, anchor_magic, Anchor};
use crate::mutable::grouped::catalog::{met_of, Cursor, CursorModel, Met};
use crate::mutable::grouped::records::{
    bitmap_read, key, pieces_len, read_bitmap, record_piece, same_key, snapshot_key,
};
use crate::mutable::grouped::values::{value_at, Value, ValueModel};
use crate::mutable::grouped::scan::{delta_snapshots, live_snapshots};
use crate::mutable::page::grouped::group_record_image;
use crate::mutable::page::grouped_model::{entry_at, EntryModel, GroupModel};
use crate::mutable::page::model::Image;
use crate::mutable::page::{
    CatalogEntry, GroupData, GroupDelta, GroupPageKind, GroupRetired, GroupSnapshot, GroupState,
    Page, PageKind, GROUP_DATA_BYTES, GROUP_DELTA_SEGMENTS, GROUP_RETIRED_SEGMENTS,
};
use crate::mutable::store::{
    commit_one, commit_three, commit_two, load, same_host, stored, PageStore, Stage, StoreModel,
};
use crate::text::same_bytes;
use vstd::prelude::*;

verus! {

broadcast use {group_bytes, group_identity};

/// Whether a page is a liveness record or its successor with fewer marks: the
/// same identity, place and link, and no mark that was not there.
pub open spec fn marks_dropped(before: Image, after: Image) -> bool {
    &&& before.group_data() matches Ok(old) && old.kind == GroupPageKind::Liveness
    &&& after.group_data() is Ok
    &&& before.block == after.block
    &&& before.kind == after.kind
    &&& before.next() == after.next()
    &&& ({
        let old = before.group_data()->Ok_0;
        let new = after.group_data()->Ok_0;
        &&& new.id == old.id
        &&& new.kind == old.kind
        &&& new.key == old.key
        &&& new.total == old.total
        &&& new.offset == old.offset
        &&& new.bytes.len() == old.bytes.len()
        &&& forall|i: int|
            0 <= i < new.bytes.len() ==> (#[trigger] new.bytes[i]) & !old.bytes[i] == 0
    })
}

/// Whether nothing but marks of liveness records was dropped.
pub open spec fn only_marks_dropped(before: StoreModel, after: StoreModel) -> bool {
    &&& after.layout == before.layout
    &&& after.pages.len() == before.pages.len()
    &&& forall|i: int|
        0 <= i < before.pages.len() ==> (#[trigger] after.pages[i]) == before.pages[i]
            || marks_dropped(before.pages[i], after.pages[i])
}

proof fn byte_cleared_twice(first: u8, second: u8, third: u8)
    requires
        second & !first == 0,
        third & !second == 0,
    ensures
        third & !first == 0,
{
    assert(second & !first == 0 && third & !second == 0 ==> third & !first == 0) by (bit_vector);
}

/// Dropping marks twice is dropping marks.
pub proof fn marks_dropped_joins(first: StoreModel, second: StoreModel, third: StoreModel)
    requires
        only_marks_dropped(first, second),
        only_marks_dropped(second, third),
    ensures
        only_marks_dropped(first, third),
{
    assert forall|i: int| 0 <= i < first.pages.len() implies (#[trigger] third.pages[i])
        == first.pages[i] || marks_dropped(first.pages[i], third.pages[i]) by {
        assert(second.pages[i] == first.pages[i] || marks_dropped(first.pages[i], second.pages[i]));
        if third.pages[i] != second.pages[i] && second.pages[i] != first.pages[i] {
            let a = first.pages[i].group_data()->Ok_0.bytes;
            let b = second.pages[i].group_data()->Ok_0.bytes;
            let c = third.pages[i].group_data()->Ok_0.bytes;
            assert forall|j: int| 0 <= j < c.len() implies (#[trigger] c[j]) & !a[j] == 0 by {
                byte_cleared_twice(a[j], b[j], c[j]);
            }
        }
    }
}

/// Whether the new bytes have no mark that the old ones lack.
#[verifier::loop_isolation(false)]
fn only_clears(new: &[u8], old: &[u8]) -> (answer: bool)
    requires
        new@.len() == old@.len(),
    ensures
        answer == (forall|i: int| 0 <= i < new@.len() ==> (#[trigger] new@[i]) & !old@[i] == 0),
{
    let mut i: usize = 0;
    while i < new.len()
        invariant
            i <= new@.len(),
            forall|j: int| 0 <= j < i ==> (#[trigger] new@[j]) & !old@[j] == 0,
        decreases new@.len() - i,
    {
        if new[i] & !old[i] != 0 {
            return false;
        }
        i += 1;
    }
    true
}

/// Whether a page holds a piece of a record.
pub open spec fn piece_kept(image: Image, piece: Seq<u8>) -> bool {
    image.group_data() matches Ok(data) && data.bytes == piece
}

/// Whether the pages of a record hold its bytes.
pub open spec fn record_kept(model: StoreModel, blocks: Seq<u32>, bytes: Seq<u8>) -> bool {
    forall|index: int|
        0 <= index < 3 && index * 8112 < bytes.len() ==> #[trigger] model.has(blocks[index])
            && piece_kept(model.pages[blocks[index] as int], record_piece(bytes, index))
}

/// Why a page of a liveness record cannot take other bytes: it cannot be read, it
/// is another page, a mark would be added, or the new page cannot be made.
#[verifier::opaque]
pub open spec fn page_refused(
    model: StoreModel,
    snapshot: GroupSnapshot,
    block: u32,
    key: Seq<u64>,
    total: u32,
    offset: int,
    piece: Seq<u8>,
    error: Error,
) -> bool {
    match model.load(block, PageKind::Grouped) {
        Err(failure) => error == failure,
        Ok(image) => match image.group_data() {
            Err(failure) => error == failure,
            Ok(data) => if data.id != snapshot.id || data.kind != GroupPageKind::Liveness || data.key
                != key || data.total != total || data.offset != offset || data.bytes.len()
                != piece.len() || !(forall|i: int|
                0 <= i < piece.len() ==> (#[trigger] piece[i]) & !data.bytes[i] == 0) {
                error == Error::InvalidState
            } else {
                match group_record_image(
                    image.block,
                    snapshot.id,
                    GroupPageKind::Liveness,
                    key,
                    total,
                    data.offset,
                    piece,
                ) {
                    Err(failure) => error == failure,
                    Ok(fresh) => match image.next() {
                        Err(failure) => error == failure,
                        Ok(next) => fresh.patched(12, u32_bytes(next)).check_next() == Err::<
                            (),
                            Error,
                        >(error),
                    },
                }
            },
        },
    }
}

/// The page of a liveness record with other bytes; `None` where they are the same.
fn changed_page<S: PageStore>(
    store: &mut S,
    snapshot: &GroupSnapshot,
    block: u32,
    key: [u64; 2],
    total: u32,
    offset: usize,
    piece: &[u8],
) -> (result: Result<Option<Page>>)
    ensures
        final(store).host() == old(store).host(),
        result matches Ok(Some(page)) ==> old(store).host().model.has(block) && page@.block == block
            && block != 0 && marks_dropped(
            old(store).host().model.pages[block as int],
            stored(page@),
        ) && piece_kept(stored(page@), piece@),
        result == Ok::<Option<Page>, Error>(None) ==> old(store).host().model.has(block)
            && piece_kept(old(store).host().model.pages[block as int], piece@),
        result matches Err(error) ==> !old(store).host().reliable || page_refused(
            old(store).host().model,
            *snapshot,
            block,
            key@,
            total,
            offset as int,
            piece@,
            error,
        ),
{
    proof {
        reveal(page_refused);
    }
    let old: Page = load(store, block, PageKind::Grouped)?;
    let data: GroupData<'_> = old.group_data()?;
    if data.id != snapshot.id || data.kind != GroupPageKind::Liveness || !same_key(&data.key, &key)
        || data.total != total || data.offset as usize != offset || data.bytes.len()
        != piece.len() {
        return Err(Error::InvalidState);
    }
    // writer exclusion prevents a stale image from restoring another clear.
    if !only_clears(piece, data.bytes) {
        return Err(Error::InvalidState);
    }
    if same_bytes(piece, data.bytes) {
        return Ok(None);
    }
    let mut page: Page = Page::group_record(
        old.block(),
        snapshot.id,
        GroupPageKind::Liveness,
        key,
        total,
        data.offset,
        piece,
    )?;
    let ghost fresh = page@;
    let number: u64 = snapshot.id.get();
    let next: u32 = old.next()?;
    page.set_next(next)?;
    proof {
        linked_record(fresh, snapshot.id, key@, total, data.offset, piece@, next);
        assert(stored(page@).group_data() == page@.group_data());
        assert(stored(page@).next() == page@.next());
    }
    Ok(Some(page))
}

/// A record page reads the same whatever its link.
proof fn linked_record(
    image: Image,
    id: crate::identity::SegmentId,
    key: Seq<u64>,
    total: u32,
    offset: u32,
    piece: Seq<u8>,
    next: u32,
)
    requires
        group_record_image(
            image.block,
            id,
            GroupPageKind::Liveness,
            key,
            total,
            offset,
            piece,
        ) == Ok::<Image, Error>(image),
        key.len() == 2,
        id.get() != 0,
    ensures
        image.patched(12, crate::codec::bytes::u32_bytes(next)).group_data() == image.group_data(),
        image.patched(12, crate::codec::bytes::u32_bytes(next)).next() == Ok::<u32, Error>(next),
        image.group_data() matches Ok(data) && data.id == id && data.kind == GroupPageKind::Liveness
            && data.key == key && data.total == total && data.offset == offset && data.bytes
            == piece,
{
    let linked = image.patched(12, crate::codec::bytes::u32_bytes(next));
    assert(linked.bytes.len() == image.bytes.len());
    assert(linked.bytes.subrange(12, 16) =~= crate::codec::bytes::u32_bytes(next));
    crate::codec::bytes::le_u32_of_bytes(linked.bytes, 12, next);
    assert(linked.bytes.subrange(16, linked.bytes.len() as int) =~= image.bytes.subrange(
        16,
        image.bytes.len() as int,
    ));
    crate::mutable::page::laws::group_record_round_trip(
        image.block,
        id,
        GroupPageKind::Liveness,
        key,
        total,
        offset,
        piece,
    );
    assert(linked.bytes.subrange(32, 40) =~= image.bytes.subrange(32, 40));
    assert(linked.bytes.subrange(40, 48) =~= image.bytes.subrange(40, 48));
    assert(linked.bytes.subrange(48, 52) =~= image.bytes.subrange(48, 52));
    assert(linked.bytes.subrange(52, 56) =~= image.bytes.subrange(52, 56));
    crate::mutable::page::laws_state::le_equal(linked.bytes, 32, image.bytes, 32, 8);
    crate::mutable::page::laws_state::le_equal(linked.bytes, 40, image.bytes, 40, 8);
    crate::mutable::page::laws_state::le_equal(linked.bytes, 48, image.bytes, 48, 4);
    crate::mutable::page::laws_state::le_equal(linked.bytes, 52, image.bytes, 52, 4);
    assert(linked.group_identity() == image.group_identity());
    assert(linked.bytes.subrange(56, linked.bytes.len() as int) =~= image.bytes.subrange(
        56,
        image.bytes.len() as int,
    ));
}

/// Stores the changed pages of a record in one batch.
fn store_changes<S: PageStore>(
    store: &mut S,
    first: Option<Page>,
    second: Option<Page>,
    third: Option<Page>,
) -> (result: Result<bool>)
    requires
        first matches Some(page) ==> old(store).host().model.has(page@.block),
        second matches Some(page) ==> old(store).host().model.has(page@.block),
        third matches Some(page) ==> old(store).host().model.has(page@.block),
        first matches Some(a) ==> (second matches Some(b) ==> a@.block != b@.block),
        first matches Some(a) ==> (third matches Some(b) ==> a@.block != b@.block),
        second matches Some(a) ==> (third matches Some(b) ==> a@.block != b@.block),
    ensures
        same_host(old(store).host(), final(store).host()),
        ({
            let model = old(store).host().model;
            let one = match first {
                Some(page) => model.put(page@),
                None => model,
            };
            let two = match second {
                Some(page) => one.put(page@),
                None => one,
            };
            let three = match third {
                Some(page) => two.put(page@),
                None => two,
            };
            match result {
                Ok(changed) => final(store).host().model == three && changed == (first is Some
                    || second is Some || third is Some),
                Err(_) => !old(store).host().reliable,
            }
        }),
{
    match (first, second, third) {
        (Some(a), Some(b), Some(c)) => {
            commit_three(store, &a, &b, &c)?;
            Ok(true)
        },
        (Some(a), Some(b), None) => {
            commit_two(store, &a, &b)?;
            Ok(true)
        },
        (Some(a), None, Some(c)) => {
            commit_two(store, &a, &c)?;
            Ok(true)
        },
        (None, Some(b), Some(c)) => {
            commit_two(store, &b, &c)?;
            Ok(true)
        },
        (Some(a), None, None) => {
            commit_one(store, &a)?;
            Ok(true)
        },
        (None, Some(b), None) => {
            commit_one(store, &b)?;
            Ok(true)
        },
        (None, None, Some(c)) => {
            commit_one(store, &c)?;
            Ok(true)
        },
        (None, None, None) => Ok(false),
    }
}

/// The changed page of a record's piece at `index`, if the record has one there.
fn changed_piece<S: PageStore>(
    store: &mut S,
    snapshot: &GroupSnapshot,
    value: &Value,
    key: [u64; 2],
    bytes: &Vec<u8>,
    index: usize,
) -> (result: Result<Option<Page>>)
    requires
        index < 3,
        bytes@.len() <= 0x1_0000_0000,
    ensures
        final(store).host() == old(store).host(),
        result matches Ok(Some(page)) ==> old(store).host().model.has(page@.block) && page@.block
            == value.blocks@[index as int] && page@.block != 0 && index * 8112 < bytes@.len()
            && marks_dropped(
            old(store).host().model.pages[page@.block as int],
            stored(page@),
        ) && piece_kept(stored(page@), record_piece(bytes@, index as int)),
        result == Ok::<Option<Page>, Error>(None) && index * 8112 < bytes@.len() ==> old(store).host().model.has(value.blocks@[index as int]) && piece_kept(
            old(store).host().model.pages[value.blocks@[index as int] as int],
            record_piece(bytes@, index as int),
        ),
        result matches Err(error) ==> index * 8112 < bytes@.len() && (
        !old(store).host().reliable || page_refused(
            old(store).host().model,
            *snapshot,
            value.blocks@[index as int],
            key@,
            value.len,
            index * 8112,
            record_piece(bytes@, index as int),
            error,
        )),
{
    let length: usize = bytes.len();
    let offset: usize = index * GROUP_DATA_BYTES;
    if offset >= length {
        return Ok(None);
    }
    let end: usize = if length - offset < GROUP_DATA_BYTES {
        length
    } else {
        offset + GROUP_DATA_BYTES
    };
    let piece: &[u8] = vstd::slice::slice_subrange(bytes.as_slice(), offset, end);
    assert(piece@ =~= record_piece(bytes@, index as int));
    changed_page(store, snapshot, value.blocks[index], key, value.len, offset, piece)
}

/// Why a piece of a liveness record cannot be stored again.
pub open spec fn piece_refused(
    model: StoreModel,
    snapshot: GroupSnapshot,
    entry: EntryModel,
    value: ValueModel,
    record: Seq<u8>,
    index: int,
    error: Error,
) -> bool {
    index * 8112 < record.len() && page_refused(
        model,
        snapshot,
        value.blocks[index],
        entry.key,
        value.len,
        index * 8112,
        record_piece(record, index),
        error,
    )
}

/// Why the removable roots of a group cannot be retired: its liveness record
/// cannot be read or is another one, or the record without them, where there are
/// any, cannot be stored or is stored already.
#[verifier::opaque]
pub open spec fn group_refused(
    snapshot: GroupSnapshot,
    entry: EntryModel,
    before: StoreModel,
    removes: spec_fn(RootTid) -> bool,
    record: Seq<u8>,
    error: Error,
) -> bool {
    match bitmap_read(before, snapshot, entry) {
        Err(failure) => error == failure,
        Ok((value, bytes)) => match snapshot_key(snapshot, entry.key[1] as u32, before.layout) {
            Err(failure) => error == failure,
            Ok(key) => {
                let live = BitmapModel { header: bitmap_at(bytes)->Ok_0, bytes };
                if live.kind() != BitmapKind::Liveness || live.header.key != key || !payloads_valid(
                    live,
                ) {
                    error == Error::InvalidState
                } else {
                    &&& removed_from(live, 0, removes) > 0
                    &&& cleared(
                        live,
                        BitmapModel { header: live.header, bytes: record },
                        |p: int, i: int| removes(page_root(live.header.key, p, i)),
                    )
                    &&& {
                        ||| piece_refused(before, snapshot, entry, value, record, 0, error)
                        ||| piece_refused(before, snapshot, entry, value, record, 1, error)
                        ||| piece_refused(before, snapshot, entry, value, record, 2, error)
                        ||| record_kept(before, value.blocks, record) && error == Error::InvalidState
                    }
                }
            },
        },
    }
}

/// Retires the removable roots of one group: how many were marked live.
pub(crate) fn retire_group<S: PageStore, F: RootFilter>(
    store: &mut S,
    snapshot: &GroupSnapshot,
    entry: &CatalogEntry,
    bytes: &mut Vec<u8>,
    removable: &mut F,
) -> (result: Result<u32>)
    requires
        entry.key@[0] == 0,
    ensures
        same_host(old(store).host(), final(store).host()),
        forall|root: RootTid| final(removable).removes(root) == old(removable).removes(root),
        match bitmap_read(old(store).host().model, *snapshot, entry@) {
            Err(error) => result is Err && (old(store).host().reliable ==> result == Err::<
                u32,
                Error,
            >(error)),
            Ok((value, record)) => result matches Ok(removed) ==> {
                let live = BitmapModel { header: bitmap_at(record)->Ok_0, bytes: record };
                &&& removed == removed_from(live, 0, removed_by(*old(removable)))
                &&& final(removable).asked() == old(removable).asked() + live_from(live, 0)
                &&& cleared(
                    live,
                    BitmapModel { header: live.header, bytes: final(bytes)@ },
                    |p: int, i: int| removed_by(*old(removable))(page_root(live.header.key, p, i)),
                )
                &&& if removed == 0 {
                    final(store).host() == old(store).host()
                } else {
                    record_kept(final(store).host().model, value.blocks, final(bytes)@)
                }
                &&& only_marks_dropped(old(store).host().model, final(store).host().model)
            },
        },
        final(removable).certain() == old(removable).certain(),
        result is Ok ==> only_marks_dropped(old(store).host().model, final(store).host().model),
        result matches Ok(removed) ==> group_retired(
            *snapshot,
            entry@,
            old(store).host().model,
            final(store).host().model,
            removed_by(*old(removable)),
            final(bytes)@,
            removed as int,
        ),
        result matches Err(error) ==> !(old(store).host().reliable && old(removable).certain())
            || group_refused(
            *snapshot,
            entry@,
            old(store).host().model,
            removed_by(*old(removable)),
            final(bytes)@,
            error,
        ),
{
    reveal(group_retired);
    reveal(group_refused);
    let ghost model = store.host().model;
    let value: Value = read_bitmap(store, snapshot, entry, bytes)?;
    let group: GroupKey = key(snapshot, #[verifier::truncate] (entry.key[1] as u32), store.layout())?;
    let ghost live = BitmapModel { header: bitmap_at(bytes@)->Ok_0, bytes: bytes@ };
    let removed: u32 = retire_roots(bytes.as_mut_slice(), group, removable)?;
    proof {
        assert((|root: RootTid| old(removable).removes(root)) =~= removed_by(*old(removable)));
        let now = BitmapModel { header: live.header, bytes: bytes@ };
        let dead = |p: int, i: int| removed_by(*old(removable))(page_root(live.header.key, p, i));
        assert(cleared(live, now, dead));
    }
    if removed == 0 {
        return Ok(0);
    }
    proof {
        assert(value@.located(true));
        assert(value@.blocks_valid());
        pieces_len(
            model,
            *snapshot,
            GroupPageKind::Liveness,
            entry.key@,
            value.blocks@[0],
            value.len as int,
            0,
            Some(value.blocks@),
        );
        assert(bytes@.len() == value.len);
    }
    let first: Option<Page> = changed_piece(store, snapshot, &value, entry.key, bytes, 0)?;
    let second: Option<Page> = changed_piece(store, snapshot, &value, entry.key, bytes, 1)?;
    let third: Option<Page> = changed_piece(store, snapshot, &value, entry.key, bytes, 2)?;
    proof {
        let blocks = value@.blocks;
        let used = (value.len + 8111) / 8112;
        assert(blocks[1] == value.blocks@[1] && blocks[2] == value.blocks@[2] && blocks[0]
            == value.blocks@[0]);
        assert(second is Some ==> used >= 2 && blocks[1] != blocks[0]);
        assert(third is Some ==> used >= 3 && blocks[2] != blocks[0] && blocks[2] != blocks[1]);
    }
    if !store_changes(store, first, second, third)? {
        proof {
            let blocks = value@.blocks;
            assert forall|index: int|
                0 <= index < 3 && index * 8112 < bytes@.len() implies #[trigger] model.has(
                blocks[index],
            ) && piece_kept(model.pages[blocks[index] as int], record_piece(bytes@, index)) by {
                assert(blocks[0] == value.blocks@[0] && blocks[1] == value.blocks@[1] && blocks[2]
                    == value.blocks@[2]);
                assert(index == 0 || index == 1 || index == 2);
            }
        }
        return Err(Error::InvalidState);
    }
    proof {
        let after = store.host().model;
        assert forall|i: int| 0 <= i < model.pages.len() implies (#[trigger] after.pages[i])
            == model.pages[i] || marks_dropped(model.pages[i], after.pages[i]) by {}
        let blocks = value@.blocks;
        assert forall|index: int|
            0 <= index < 3 && index * 8112 < bytes@.len() implies #[trigger] after.has(blocks[index])
            && piece_kept(after.pages[blocks[index] as int], record_piece(bytes@, index)) by {
            let used = (value.len + 8111) / 8112;
            assert(index < used);
            if index == 0 {
                assert(blocks[0] == value.blocks@[0]);
            } else if index == 1 {
                assert(blocks[1] == value.blocks@[1] && blocks[1] != blocks[0]);
            } else {
                assert(blocks[2] == value.blocks@[2] && blocks[2] != blocks[0] && blocks[2]
                    != blocks[1]);
            }
        }
    }
    store.event(Stage::GroupRetired)?;
    Ok(removed)
}

/// The retirement of one group.
pub struct RetireStep {
    pub met: Met,
    pub before: StoreModel,
    pub after: StoreModel,
    pub record: Seq<u8>,
    pub removed: int,
}

/// Whether the removable roots of a group were retired: its liveness record was
/// cleared of them, and its pages hold the cleared record.
#[verifier::opaque]
pub open spec fn group_retired(
    snapshot: GroupSnapshot,
    entry: EntryModel,
    before: StoreModel,
    after: StoreModel,
    removes: spec_fn(RootTid) -> bool,
    record: Seq<u8>,
    removed: int,
) -> bool {
    bitmap_read(before, snapshot, entry) matches Ok((value, bytes)) && {
        let live = BitmapModel { header: bitmap_at(bytes)->Ok_0, bytes };
        &&& removed == removed_from(live, 0, removes)
        &&& cleared(
            live,
            BitmapModel { header: live.header, bytes: record },
            |p: int, i: int| removes(page_root(live.header.key, p, i)),
        )
        &&& only_marks_dropped(before, after)
        &&& if removed == 0 {
            after == before
        } else {
            record_kept(after, value.blocks, record)
        }
    }
}

/// The next group of a snapshot behind some steps.
#[verifier::opaque]
pub open spec fn next_group(
    snapshot: GroupSnapshot,
    begun: StoreModel,
    steps: Seq<RetireStep>,
) -> Result<Met> {
    if steps.len() == 0 {
        (CursorModel { leaf: None, slot: 0, parents: Seq::empty() }).sought(
            begun,
            snapshot,
            seq![0u64, 0u64],
        )
    } else {
        steps.last().met.place.advanced(steps.last().after, snapshot.id)
    }
}

/// The relation behind some steps.
pub open spec fn behind_steps(begun: StoreModel, steps: Seq<RetireStep>) -> StoreModel {
    if steps.len() == 0 {
        begun
    } else {
        steps.last().after
    }
}

/// How many roots steps removed.
pub open spec fn steps_removed(steps: Seq<RetireStep>) -> int
    decreases steps.len(),
{
    if steps.len() == 0 {
        0
    } else {
        steps_removed(steps.drop_last()) + steps.last().removed
    }
}

/// Whether groups of a snapshot were retired one after the other, in the order
/// of its catalog.
pub open spec fn groups_retired(
    snapshot: GroupSnapshot,
    begun: StoreModel,
    steps: Seq<RetireStep>,
    removes: spec_fn(RootTid) -> bool,
) -> bool
    decreases steps.len(),
{
    steps.len() == 0 || {
        let rest = steps.drop_last();
        let step = steps.last();
        &&& groups_retired(snapshot, begun, rest, removes)
        &&& step.before == behind_steps(begun, rest)
        &&& next_group(snapshot, begun, rest) == Ok::<Met, Error>(step.met)
        &&& step.met.entry matches Some(entry) && entry.key[0] == 0 && group_retired(
            snapshot,
            entry,
            step.before,
            step.after,
            removes,
            step.record,
            step.removed,
        )
    }
}

/// Whether all groups of a snapshot were retired.
pub open spec fn snapshot_retired(
    snapshot: GroupSnapshot,
    begun: StoreModel,
    after: StoreModel,
    steps: Seq<RetireStep>,
    removes: spec_fn(RootTid) -> bool,
    total: int,
) -> bool {
    &&& groups_retired(snapshot, begun, steps, removes)
    &&& after == behind_steps(begun, steps)
    &&& total == steps_removed(steps)
    &&& next_group(snapshot, begun, steps) matches Ok(met) && (met.entry matches Some(entry)
        ==> entry.key[0] != 0)
}

/// Why the groups of a snapshot cannot all be retired: some were, and the next
/// one cannot be found or retired, or there are more than the pages can hold, or
/// the roots cannot be counted.
#[verifier::opaque]
pub open spec fn snapshot_fails(
    snapshot: GroupSnapshot,
    begun: StoreModel,
    steps: Seq<RetireStep>,
    removes: spec_fn(RootTid) -> bool,
    record: Seq<u8>,
    error: Error,
) -> bool {
    &&& groups_retired(snapshot, begun, steps, removes)
    &&& {
        ||| steps_removed(steps) > u64::MAX && error == Error::Limit("group retired roots")
        ||| match next_group(snapshot, begun, steps) {
            Err(failure) => error == failure,
            Ok(met) => met.entry matches Some(entry) && entry.key[0] == 0 && {
                ||| steps.len() >= 101 * begun.pages.len() && error == Error::InvalidState
                ||| group_refused(
                    snapshot,
                    entry,
                    behind_steps(begun, steps),
                    removes,
                    record,
                    error,
                )
            },
        }
    }
}

/// Filters that remove the same roots have the same rule.
proof fn same_removals<F: RootFilter>(
    filter: F,
    left: spec_fn(RootTid) -> bool,
    right: spec_fn(RootTid) -> bool,
)
    requires
        forall|root: RootTid| #[trigger] left(root) == filter.removes(root),
        forall|root: RootTid| #[trigger] right(root) == filter.removes(root),
    ensures
        left == right,
{
    assert(left =~= right);
}

/// Which roots a filter removes.
pub open spec fn removed_by<F: RootFilter>(filter: F) -> spec_fn(RootTid) -> bool {
    |root: RootTid| filter.removes(root)
}

/// Retires the removable roots of a snapshot: how many were marked live.
#[verifier::rlimit(60)]
#[verifier::spinoff_prover]
#[verifier::loop_isolation(false)]
fn retire_snapshot<S: PageStore, F: RootFilter>(
    store: &mut S,
    snapshot: &GroupSnapshot,
    removable: &mut F,
) -> (done: (Result<u64>, Ghost<Seq<RetireStep>>, Ghost<Seq<u8>>))
    ensures
        same_host(old(store).host(), final(store).host()),
        forall|root: RootTid| final(removable).removes(root) == old(removable).removes(root),
        final(removable).certain() == old(removable).certain(),
        done.0 matches Ok(total) ==> snapshot_retired(
            *snapshot,
            old(store).host().model,
            final(store).host().model,
            done.1@,
            removed_by(*old(removable)),
            total as int,
        ),
        done.0 matches Err(error) ==> !(old(store).host().reliable && old(removable).certain())
            || snapshot_fails(
            *snapshot,
            old(store).host().model,
            done.1@,
            removed_by(*old(removable)),
            done.2@,
            error,
        ),
        done.0 is Ok ==> only_marks_dropped(old(store).host().model, final(store).host().model),
{
    let ghost begun = store.host().model;
    let ghost removes = removed_by(*old(removable));
    let ghost mut steps: Seq<RetireStep> = Seq::empty();
    let ghost mut record: Seq<u8> = Seq::empty();
    reveal(snapshot_fails);
    let blocks: u32 = match store.blocks() {
        Ok(blocks) => blocks,
        Err(error) => {
            return (Err(error), Ghost(steps), Ghost(record));
        },
    };
    let mut cursor: Cursor = Cursor::new();
    let start: [u64; 2] = [0, 0];
    assert(start@ =~= seq![0u64, 0u64]);
    let mut entry: Option<CatalogEntry> = match cursor.seek(store, snapshot, start) {
        Ok(entry) => entry,
        Err(error) => {
            proof {
                reveal(next_group);
            }
            return (Err(error), Ghost(steps), Ghost(record));
        },
    };
    assert(next_group(*snapshot, begun, steps) == met_of(Ok(entry), cursor@)) by {
        reveal(next_group);
    }
    let mut bytes: Vec<u8> = Vec::new();
    let mut total: u64 = 0;
    // every group has its own entry, and an entry its own place on a page.
    let mut left: u64 = blocks as u64 * 101;
    loop
        invariant
            cursor@.settled(),
            same_host(old(store).host(), store.host()),
            forall|root: RootTid|
                removable.removes(root) == old(removable).removes(root),
            only_marks_dropped(begun, store.host().model),
            groups_retired(*snapshot, begun, steps, removes),
            store.host().model == behind_steps(begun, steps),
            total == steps_removed(steps),
            removable.certain() == old(removable).certain(),
            left == 101 * begun.pages.len() - steps.len(),
            next_group(*snapshot, begun, steps) == met_of(Ok(entry), cursor@),
        decreases left,
    {
        let current: CatalogEntry = match entry {
            Some(current) => current,
            None => {
                assert(snapshot_retired(
                    *snapshot,
                    old(store).host().model,
                    store.host().model,
                    steps,
                    removed_by(*old(removable)),
                    total as int,
                ));
                return (Ok(total), Ghost(steps), Ghost(record));
            },
        };
        if current.key[0] != 0 {
            assert(snapshot_retired(
                *snapshot,
                old(store).host().model,
                store.host().model,
                steps,
                removed_by(*old(removable)),
                total as int,
            ));
            return (Ok(total), Ghost(steps), Ghost(record));
        }
        if left == 0 {
            return (Err(Error::InvalidState), Ghost(steps), Ghost(record));
        }
        left = left - 1;
        let ghost before = store.host().model;
        let ghost asked = removed_by(*removable);
        proof {
            same_removals(*old(removable), asked, removes);
        }
        let removed: u32 = match retire_group(store, snapshot, &current, &mut bytes, removable) {
            Ok(removed) => removed,
            Err(error) => {
                proof {
                    record = bytes@;
                }
                return (Err(error), Ghost(steps), Ghost(record));
            },
        };
        proof {
            marks_dropped_joins(begun, before, store.host().model);
            let step = RetireStep {
                met: Met { entry: Some(current@), place: cursor@ },
                before,
                after: store.host().model,
                record: bytes@,
                removed: removed as int,
            };
            assert(steps.push(step).drop_last() =~= steps);
            steps = steps.push(step);
        }
        total = match total.checked_add(removed as u64) {
            Some(total) => total,
            None => {
                return (Err(Error::Limit("group retired roots")), Ghost(steps), Ghost(record));
            },
        };
        let ghost place = cursor@;
        entry = match cursor.advance(store, snapshot) {
            Ok(entry) => entry,
            Err(error) => {
                proof {
                    reveal(next_group);
                }
                return (Err(error), Ghost(steps), Ghost(record));
            },
        };
        assert(next_group(*snapshot, begun, steps) == met_of(Ok(entry), cursor@)) by {
            reveal(next_group);
        }
    }
}

/// Why the published segments cannot all be retired: the metadata cannot be read,
/// or some segments were retired and the next one fails, or the roots cannot be
/// counted.
#[verifier::opaque]
pub open spec fn retire_fails(
    model: StoreModel,
    removes: spec_fn(RootTid) -> bool,
    error: Error,
) -> bool {
    match model.load(0, PageKind::Meta) {
        Err(failure) => error == failure,
        Ok(meta) => match meta.grouped_state() {
            Err(failure) => error == failure,
            Ok(state) => exists|
                count: int,
                models: Seq<StoreModel>,
                totals: Seq<int>,
                steps: Seq<RetireStep>,
                record: Seq<u8>,
            | #[trigger]
                segments_fail(live_snapshots(state), model, count, models, totals, steps, record, removes, error),
        },
    }
}

/// Whether the first of several snapshots were retired, and the next one fails or
/// their roots cannot be counted.
pub open spec fn segments_fail(
    snapshots: Seq<GroupSnapshot>,
    model: StoreModel,
    count: int,
    models: Seq<StoreModel>,
    totals: Seq<int>,
    steps: Seq<RetireStep>,
    record: Seq<u8>,
    removes: spec_fn(RootTid) -> bool,
    error: Error,
) -> bool {
    &&& 0 <= count <= snapshots.len()
    &&& segments_retired(snapshots.take(count), models, totals, removes)
    &&& models.len() > 0
    &&& models[0] == model
    &&& {
        ||| sum_of(totals) > u64::MAX && error == Error::Limit("group retired roots")
        ||| count < snapshots.len() && snapshot_fails(
            snapshots[count],
            models.last(),
            steps,
            removes,
            record,
            error,
        )
    }
}

/// A failure between segments is one of the whole.
proof fn retiring_failed(
    model: StoreModel,
    snapshots: Seq<GroupSnapshot>,
    count: int,
    models: Seq<StoreModel>,
    totals: Seq<int>,
    steps: Seq<RetireStep>,
    record: Seq<u8>,
    removes: spec_fn(RootTid) -> bool,
    error: Error,
)
    requires
        model.load(0, PageKind::Meta) matches Ok(meta) && meta.grouped_state() matches Ok(state)
            && live_snapshots(state) == snapshots,
        segments_fail(snapshots, model, count, models, totals, steps, record, removes, error),
    ensures
        retire_fails(model, removes, error),
{
    reveal(retire_fails);
}

/// The deltas of a state from some place on.
proof fn deltas_lead(deltas: Seq<Option<GroupDelta>>, index: int)
    requires
        0 <= index <= deltas.len(),
    ensures
        delta_snapshots(deltas.take(index)).len() <= delta_snapshots(deltas).len(),
        delta_snapshots(deltas).take(delta_snapshots(deltas.take(index)).len() as int)
            == delta_snapshots(deltas.take(index)),
    decreases deltas.len() - index,
{
    if index < deltas.len() {
        deltas_lead(deltas, index + 1);
        assert(deltas.take(index + 1).drop_last() =~= deltas.take(index));
        let short = delta_snapshots(deltas.take(index));
        let long = delta_snapshots(deltas.take(index + 1));
        assert(long.take(short.len() as int) =~= short);
        assert(delta_snapshots(deltas).take(short.len() as int) =~= delta_snapshots(deltas).take(
            long.len() as int,
        ).take(short.len() as int));
    } else {
        assert(deltas.take(index) =~= deltas);
        assert(delta_snapshots(deltas).take(delta_snapshots(deltas).len() as int)
            =~= delta_snapshots(deltas));
    }
}

/// Retires removable roots from all published segments: how many were marked
/// live. Pages change only by losing marks of liveness records.
///
/// # Errors
/// Rejects corruption and any host or callback failure.
#[verifier::rlimit(60)]
#[verifier::spinoff_prover]
#[verifier::loop_isolation(false)]
pub fn retire<S: PageStore, F: RootFilter>(store: &mut S, removable: &mut F) -> (result: Result<u64>)
    ensures
        same_host(old(store).host(), final(store).host()),
        forall|root: RootTid| final(removable).removes(root) == old(removable).removes(root),
        result is Ok ==> only_marks_dropped(old(store).host().model, final(store).host().model),
        result matches Ok(total) ==> (old(store).host().model.load(0, PageKind::Meta) matches Ok(meta)
            && meta.grouped_state() matches Ok(state) && match state.active {
            None => total == 0 && final(store).host() == old(store).host(),
            Some(_) => exists|models: Seq<StoreModel>, totals: Seq<int>| #[trigger]
                segments_retired(
                    live_snapshots(state),
                    models,
                    totals,
                    removed_by(*old(removable)),
                ) && models[0] == old(store).host().model && models.last()
                    == final(store).host().model && total == sum_of(totals),
        }),
        (match old(store).host().model.load(0, PageKind::Meta) {
            Ok(meta) => meta.grouped_state() matches Ok(state) && state.active is None,
            Err(_) => false,
        }) && old(store).host().reliable ==> result == Ok::<u64, Error>(0) && final(store).host()
            == old(store).host(),
        result matches Err(error) ==> !(old(store).host().reliable && old(removable).certain())
            || retire_fails(old(store).host().model, removed_by(*old(removable)), error),
{
    let ghost begun = store.host().model;
    assert(forall|error: Error|
        begun.load(0, PageKind::Meta) == Err::<Image, Error>(error) ==> #[trigger] retire_fails(
            begun,
            removed_by(*old(removable)),
            error,
        )) by {
        reveal(retire_fails);
    }
    assert(forall|error: Error|
        (begun.load(0, PageKind::Meta) matches Ok(meta) && meta.grouped_state() == Err::<
            GroupModel,
            Error,
        >(error)) ==> #[trigger] retire_fails(begun, removed_by(*old(removable)), error)) by {
        reveal(retire_fails);
    }
    let meta: Page = load(store, 0, PageKind::Meta)?;
    let state: GroupState = meta.grouped_state()?;
    let active: GroupSnapshot = match state.active {
        Some(active) => active,
        None => {
            return Ok(0);
        },
    };
    let ghost removes = removed_by(*old(removable));
    let ghost snapshots = live_snapshots(state@);
    let (first, done, last): (Result<u64>, Ghost<Seq<RetireStep>>, Ghost<Seq<u8>>) = retire_snapshot(
        store,
        &active,
        removable,
    );
    let mut total: u64 = match first {
        Ok(total) => total,
        Err(error) => {
            proof {
                if old(store).host().reliable && old(removable).certain() {
                    assert(snapshots.take(0) =~= Seq::empty());
                    assert(snapshots[0] == active);
                    assert(segments_retired(Seq::empty(), seq![begun], Seq::empty(), removes)) by {
                        reveal(segments_retired);
                    }
                    retiring_failed(
                        begun,
                        snapshots,
                        0,
                        seq![begun],
                        Seq::empty(),
                        done@,
                        last@,
                        removes,
                        error,
                    );
                }
            }
            return Err(error);
        },
    };
    let ghost mut models: Seq<StoreModel> = seq![begun, store.host().model];
    let ghost mut totals: Seq<int> = seq![total as int];
    let ghost deltas = state@.deltas;
    proof {
        assert(delta_snapshots(deltas.take(0)) =~= Seq::empty());
        let list = seq![active] + delta_snapshots(deltas.take(0));
        assert(list =~= seq![active]);
        assert(segments_retired(Seq::empty(), seq![begun], Seq::empty(), removes)) by {
            reveal(segments_retired);
        }
        assert(snapshot_retired(
            active,
            seq![begun].last(),
            store.host().model,
            done@,
            removes,
            total as int,
        ));
        segments_more(
            Seq::empty(),
            active,
            seq![begun],
            Seq::empty(),
            removes,
            store.host().model,
            total as int,
        );
        assert(Seq::<GroupSnapshot>::empty().push(active) =~= list);
        assert(seq![begun].push(store.host().model) =~= models);
        assert(Seq::<int>::empty().push(total as int) =~= totals);
        assert(totals.drop_last() =~= Seq::<int>::empty());
        reveal_with_fuel(sum_of, 2);
    }
    let mut index: usize = 0;
    while index < GROUP_DELTA_SEGMENTS
        invariant
            index <= 16,
            deltas.len() == 16,
            total == sum_of(totals),
            models.len() > 0,
            models[0] == begun,
            models.last() == store.host().model,
            segments_retired(
                seq![active] + delta_snapshots(deltas.take(index as int)),
                models,
                totals,
                removes,
            ),
            same_host(old(store).host(), store.host()),
            forall|root: RootTid|
                removable.removes(root) == old(removable).removes(root),
            only_marks_dropped(begun, store.host().model),
            removable.certain() == old(removable).certain(),
        decreases 16 - index,
    {
        proof {
            assert(deltas.take(index + 1).drop_last() =~= deltas.take(index as int));
            assert(deltas.take(index + 1).last() == state.deltas[index as int]);
        }
        if let Some(delta) = state.deltas[index] {
            let ghost before = store.host().model;
            let ghost asked = removed_by(*removable);
            let ghost list = seq![active] + delta_snapshots(deltas.take(index as int));
            proof {
                same_removals(*old(removable), asked, removes);
                deltas_lead(deltas, index as int);
                deltas_lead(deltas, index + 1);
                assert(snapshots.take(list.len() as int) =~= list);
                assert(list.push(delta.snapshot) =~= seq![active] + delta_snapshots(
                    deltas.take(index + 1),
                ));
                assert(snapshots.take(list.len() as int + 1) =~= list.push(delta.snapshot));
                assert(snapshots.take(list.len() as int + 1)[list.len() as int] == delta.snapshot);
            }
            let (one, done, last): (
                Result<u64>,
                Ghost<Seq<RetireStep>>,
                Ghost<Seq<u8>>,
            ) = retire_snapshot(store, &delta.snapshot, removable);
            let removed: u64 = match one {
                Ok(removed) => removed,
                Err(error) => {
                    proof {
                        if old(store).host().reliable && old(removable).certain() {
                            retiring_failed(
                                begun,
                                snapshots,
                                list.len() as int,
                                models,
                                totals,
                                done@,
                                last@,
                                removes,
                                error,
                            );
                        }
                    }
                    return Err(error);
                },
            };
            proof {
                marks_dropped_joins(begun, before, store.host().model);
                assert(snapshot_retired(
                    delta.snapshot,
                    models.last(),
                    store.host().model,
                    done@,
                    removes,
                    removed as int,
                ));
                segments_more(
                    seq![active] + delta_snapshots(deltas.take(index as int)),
                    delta.snapshot,
                    models,
                    totals,
                    removes,
                    store.host().model,
                    removed as int,
                );
                assert((seq![active] + delta_snapshots(deltas.take(index as int))).push(
                    delta.snapshot,
                ) =~= seq![active] + delta_snapshots(deltas.take(index + 1)));
                assert(totals.push(removed as int).drop_last() =~= totals);
                models = models.push(store.host().model);
                totals = totals.push(removed as int);
            }
            total = match total.checked_add(removed) {
                Some(total) => total,
                None => {
                    proof {
                        retiring_failed(
                            begun,
                            snapshots,
                            list.len() as int + 1,
                            models,
                            totals,
                            done@,
                            last@,
                            removes,
                            Error::Limit("group retired roots"),
                        );
                    }
                    return Err(Error::Limit("group retired roots"));
                },
            };
        }
        index += 1;
    }
    assert(deltas.take(16) =~= deltas);
    assert(segments_retired(live_snapshots(state@), models, totals, removed_by(*old(removable))));
    Ok(total)
}

/// Whether one of several snapshots was retired between two states.
pub open spec fn segment_retired(
    snapshots: Seq<GroupSnapshot>,
    models: Seq<StoreModel>,
    totals: Seq<int>,
    removes: spec_fn(RootTid) -> bool,
    index: int,
) -> bool {
    exists|steps: Seq<RetireStep>| #[trigger]
        snapshot_retired(
            snapshots[index],
            models[index],
            models[index + 1],
            steps,
            removes,
            totals[index],
        )
}

/// Whether snapshots were retired one after the other.
#[verifier::opaque]
pub open spec fn segments_retired(
    snapshots: Seq<GroupSnapshot>,
    models: Seq<StoreModel>,
    totals: Seq<int>,
    removes: spec_fn(RootTid) -> bool,
) -> bool {
    &&& models.len() == snapshots.len() + 1
    &&& totals.len() == snapshots.len()
    &&& forall|i: int|
        0 <= i < snapshots.len() ==> #[trigger] segment_retired(
            snapshots,
            models,
            totals,
            removes,
            i,
        )
}

/// The sum of numbers.
pub open spec fn sum_of(numbers: Seq<int>) -> int
    decreases numbers.len(),
{
    if numbers.len() == 0 {
        0
    } else {
        sum_of(numbers.drop_last()) + numbers.last()
    }
}

proof fn segments_more(
    snapshots: Seq<GroupSnapshot>,
    snapshot: GroupSnapshot,
    models: Seq<StoreModel>,
    totals: Seq<int>,
    removes: spec_fn(RootTid) -> bool,
    after: StoreModel,
    total: int,
)
    requires
        segments_retired(snapshots, models, totals, removes),
        exists|steps: Seq<RetireStep>| #[trigger]
            snapshot_retired(snapshot, models.last(), after, steps, removes, total),
    ensures
        segments_retired(
            snapshots.push(snapshot),
            models.push(after),
            totals.push(total),
            removes,
        ),
{
    reveal(segments_retired);
    let list = snapshots.push(snapshot);
    let states = models.push(after);
    let numbers = totals.push(total);
    assert forall|i: int| 0 <= i < list.len() implies #[trigger] segment_retired(
        list,
        states,
        numbers,
        removes,
        i,
    ) by {
        if i < snapshots.len() {
            assert(segment_retired(snapshots, models, totals, removes, i));
            let steps = choose|steps: Seq<RetireStep>| #[trigger]
                snapshot_retired(
                    snapshots[i],
                    models[i],
                    models[i + 1],
                    steps,
                    removes,
                    totals[i],
                );
            assert(snapshot_retired(
                list[i],
                states[i],
                states[i + 1],
                steps,
                removes,
                numbers[i],
            ));
        } else {
            let steps = choose|steps: Seq<RetireStep>| #[trigger]
                snapshot_retired(snapshot, models.last(), after, steps, removes, total);
            assert(snapshot_retired(
                list[i],
                states[i],
                states[i + 1],
                steps,
                removes,
                numbers[i],
            ));
        }
    }
}

/// Whether a snapshot leads to a block.
pub open spec fn snapshot_refers(snapshot: GroupSnapshot, target: u32) -> bool {
    ||| snapshot.head == target
    ||| snapshot.tail == target
    ||| snapshot.root == target
    ||| snapshot.after matches Some(owner) && owner.page == target
}

/// Whether a delta leads to a block.
pub open spec fn delta_refers(delta: Option<GroupDelta>, target: u32) -> bool {
    delta matches Some(delta) && (snapshot_refers(delta.snapshot, target) || (
    delta.before matches Some(owner) && owner.page == target))
}

/// Whether a retirement leads to a block.
pub open spec fn retired_refers(retired: Option<GroupRetired>, target: u32) -> bool {
    retired matches Some(retired) && (retired.head == target || retired.tail == target)
}

/// Whether grouped state leads to a block.
pub open spec fn state_refers(state: GroupModel, target: u32) -> bool {
    ||| state.active matches Some(active) && (snapshot_refers(active, target)
        || active.frontier_root == Some(target))
    ||| exists|i: int| 0 <= i < 16 && delta_refers(#[trigger] state.deltas[i], target)
    ||| state.journal matches Some(journal) && (journal.head == target || journal.tail == target)
    ||| exists|i: int| 0 <= i < 17 && retired_refers(#[trigger] state.retired[i], target)
}

/// Whether an entry of a catalog node leads to a block. Anchors only advise:
/// compaction withdraws them before any reuse.
pub open spec fn entry_refers(entry: EntryModel, level: u8, target: u32) -> Result<bool> {
    if entry.key[0] / 0x1_0000 == target {
        Ok(true)
    } else if level != 0 {
        Ok(le_u32(entry.value, 0) == target)
    } else if entry.value.take(4) == anchor_magic() {
        match anchor_at(entry) {
            Err(error) => Err(error),
            Ok(_) => Ok(false),
        }
    } else {
        match value_at(entry) {
            Err(error) => Err(error),
            Ok(value) => Ok(
                value.len != 0 && (value.blocks.contains(target) || value.members == target),
            ),
        }
    }
}

/// Whether an entry from `index` on leads to a block.
pub open spec fn entries_refer(image: Image, level: u8, index: int, count: int, target: u32) -> Result<
    bool,
>
    decreases count - index,
{
    if index >= count {
        Ok(false)
    } else {
        match entry_refers(entry_at(image.node_entries(), index), level, target) {
            Err(error) => Err(error),
            Ok(true) => Ok(true),
            Ok(false) => entries_refer(image, level, index + 1, count, target),
        }
    }
}

/// Whether the grouped content of a page leads to a block.
pub open spec fn page_refers(image: Image, target: u32) -> Result<bool> {
    if image.kind == PageKind::Meta {
        match image.grouped_state() {
            Err(error) => Err(error),
            Ok(state) => Ok(state_refers(state, target)),
        }
    } else if image.kind != PageKind::Grouped {
        Ok(false)
    } else {
        match image.group_identity() {
            Err(error) => Err(error),
            Ok((_, kind)) => if kind == GroupPageKind::Leaf || kind == GroupPageKind::Branch {
                match image.group_node_info() {
                    Err(error) => Err(error),
                    Ok((level, count)) => entries_refer(image, level, 0, count as int, target),
                }
            } else {
                match image.group_data() {
                    Err(error) => Err(error),
                    Ok(data) => Ok(data.key[0] / 0x1_0000 == target),
                }
            },
        }
    }
}

fn snapshot_leads(snapshot: &GroupSnapshot, target: u32) -> (leads: bool)
    ensures
        leads == snapshot_refers(*snapshot, target),
{
    let anchored: bool = match snapshot.after {
        Some(owner) => owner.page == target,
        None => false,
    };
    snapshot.head == target || snapshot.tail == target || snapshot.root == target || anchored
}

#[verifier::loop_isolation(false)]
fn state_leads(state: &GroupState, target: u32) -> (leads: bool)
    ensures
        leads == state_refers(state@, target),
{
    if let Some(active) = state.active {
        let frontier: bool = match active.frontier_root {
            Some(root) => root == target,
            None => false,
        };
        if snapshot_leads(&active, target) || frontier {
            return true;
        }
    }
    if let Some(journal) = state.journal {
        if journal.head == target || journal.tail == target {
            return true;
        }
    }
    let mut index: usize = 0;
    while index < GROUP_DELTA_SEGMENTS
        invariant
            index <= 16,
            forall|i: int| 0 <= i < index ==> !delta_refers(#[trigger] state@.deltas[i], target),
        decreases 16 - index,
    {
        if let Some(delta) = state.deltas[index] {
            assert(state@.deltas[index as int] == Some(delta));
            let started: bool = match delta.before {
                Some(owner) => owner.page == target,
                None => false,
            };
            if snapshot_leads(&delta.snapshot, target) || started {
                assert(delta_refers(state@.deltas[index as int], target));
                return true;
            }
        }
        index += 1;
    }
    let mut index: usize = 0;
    while index < GROUP_RETIRED_SEGMENTS
        invariant
            index <= 17,
            forall|i: int| 0 <= i < index ==> !retired_refers(#[trigger] state@.retired[i], target),
        decreases 17 - index,
    {
        if let Some(retired) = state.retired[index] {
            assert(state@.retired[index as int] == Some(retired));
            if retired.head == target || retired.tail == target {
                assert(retired_refers(state@.retired[index as int], target));
                return true;
            }
        }
        index += 1;
    }
    false
}

fn entry_leads(entry: &CatalogEntry, level: u8, target: u32) -> (result: Result<bool>)
    ensures
        result == entry_refers(entry@, level, target),
{
    if entry.key[0] / 0x1_0000 == target as u64 {
        return Ok(true);
    }
    if level != 0 {
        return Ok(get_u32(&entry.value, 0) == target);
    }
    if Anchor::is_entry(entry) {
        // compaction invalidates these advisory pointers before reuse.
        Anchor::read(entry)?;
        return Ok(false);
    }
    let value: Value = Value::read(entry)?;
    let named: bool = value.blocks[0] == target || value.blocks[1] == target || value.blocks[2]
        == target;
    proof {
        let blocks = value.blocks@;
        if named {
            assert(blocks[0] == target || blocks[1] == target || blocks[2] == target);
            assert(blocks.contains(target));
        }
    }
    Ok(value.len != 0 && (named || value.members == target))
}

/// Whether the grouped content of a page leads to a block.
///
/// # Errors
/// Rejects malformed grouped pages.
#[verifier::loop_isolation(false)]
pub fn references(page: &Page, target: u32) -> (result: Result<bool>)
    ensures
        result == page_refers(page@, target),
{
    if page.kind() == PageKind::Meta {
        let state: GroupState = page.grouped_state()?;
        return Ok(state_leads(&state, target));
    }
    if page.kind() != PageKind::Grouped {
        return Ok(false);
    }
    let (_, kind): (crate::identity::SegmentId, GroupPageKind) = page.group_identity()?;
    if kind == GroupPageKind::Leaf || kind == GroupPageKind::Branch {
        let (level, count): (u8, u16) = page.group_node_info()?;
        let mut index: u16 = 0;
        while index < count
            invariant
                index <= count,
                entries_refer(page@, level, 0, count as int, target) == entries_refer(
                    page@,
                    level,
                    index as int,
                    count as int,
                    target,
                ),
            decreases count - index,
        {
            let entry: CatalogEntry = page.group_entry(index)?;
            if entry_leads(&entry, level, target)? {
                return Ok(true);
            }
            index += 1;
        }
        Ok(false)
    } else {
        let data: GroupData<'_> = page.group_data()?;
        Ok(data.key[0] / 0x1_0000 == target as u64)
    }
}

} // verus!
