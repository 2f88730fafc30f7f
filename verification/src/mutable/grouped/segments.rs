//! What is written to a segment is read back from it: its pages, chained in the
//! order in which they were appended, and the records on them.

use crate::codec::bytes::{group_bytes, le_u16, le_u32, le_u64, u32_bytes};
use crate::codec::fields::{le_inside, le_u32_of_bytes, splice_u32};
use crate::error::{Error, Result};
use crate::identity::{group_identity, HeapLayout};
use crate::mutable::grouped::journal::{page_appended, slot_taken};
use crate::mutable::grouped::records::{
    first_blocks, pieces_read, pieces_written, record_maker, record_piece, record_written,
};
use crate::mutable::page::grouped::group_record_image;
use crate::mutable::page::grouped_model::GroupDataModel;
use crate::mutable::page::laws::group_record_round_trip;
use crate::mutable::page::laws_link::same_body;
use crate::mutable::page::model::Image;
use crate::mutable::page::{GroupPageKind, GroupSnapshot, PageKind, NO_BLOCK};
use crate::mutable::store::{stored, StoreModel};
use vstd::prelude::*;

verus! {

broadcast use {group_bytes, group_identity};

/// Whether two grouped pages read alike.
pub open spec fn reads_alike(left: Image, right: Image) -> bool {
    &&& right.kind == left.kind
    &&& right.block == left.block
    &&& right.group_identity() == left.group_identity()
    &&& right.group_data() == left.group_data()
    &&& right.group_node_info() == left.group_node_info()
    &&& right.node_entries() == left.node_entries()
}

/// A number behind the header is that of the entries.
proof fn same_numbers(left: Image, right: Image, at: int)
    requires
        same_body(left, right),
        left.bytes.len() >= 16,
        16 <= at,
    ensures
        at + 2 <= left.bytes.len() ==> le_u16(right.bytes, at) == le_u16(left.bytes, at),
        at + 4 <= left.bytes.len() ==> le_u32(right.bytes, at) == le_u32(left.bytes, at),
        at + 8 <= left.bytes.len() ==> le_u64(right.bytes, at) == le_u64(left.bytes, at),
{
    let len = left.bytes.len() as int;
    assert(left.bytes.subrange(16, len) =~= right.bytes.subrange(16, len));
    le_inside(left.bytes, 16, len - 16, at - 16);
    le_inside(right.bytes, 16, len - 16, at - 16);
}

/// A grouped page with another link reads as it did.
#[verifier::rlimit(80)]
#[verifier::spinoff_prover]
proof fn grouped_linked(image: Image, next: u32, layout: HeapLayout)
    requires
        image.kind == PageKind::Grouped,
        image.check(layout) is Ok,
        image.with_next(next) is Ok,
    ensures
        ({
            let after = stored(image.with_next(next)->Ok_0);
            &&& reads_alike(image, after)
            &&& after.check(layout) is Ok
            &&& after.next() == Ok::<u32, Error>(next)
        }),
{
    let after = stored(image.with_next(next)->Ok_0);
    assert(image.group_identity() is Ok);
    assert(image.bytes.len() >= 32);
    splice_u32(image.bytes, 12, next);
    assert(same_body(image, after));
    let len = image.bytes.len() as int;
    assert(after.entries() =~= image.entries());
    same_numbers(image, after, 32);
    same_numbers(image, after, 34);
    same_numbers(image, after, 36);
    same_numbers(image, after, 40);
    same_numbers(image, after, 48);
    same_numbers(image, after, 52);
    if len >= 40 {
        assert(after.node_entries() =~= image.node_entries());
    }
    if len >= 56 {
        assert(after.bytes.subrange(56, len) =~= image.bytes.subrange(56, len));
    }
    if image.group_node_info() is Ok {
        let (level, count) = image.group_node_info()->Ok_0;
        assert forall|i: int| 0 <= i < count && image.node_entry_valid(
            level,
            i,
        ) implies #[trigger] after.node_entry_valid(level, i) by {
            assert(image.node_entry_valid(level, i));
        }
        if image.node_entries_valid(level, count) {
            assert forall|i: int| 0 <= i < count implies #[trigger] after.node_entry_valid(
                level,
                i,
            ) by {
                assert(image.node_entry_valid(level, i));
            }
        }
    }
}

/// Whether pages are sound, new and not linked, for any block.
pub open spec fn makes_sound(make: spec_fn(u32) -> Result<Image>, layout: HeapLayout) -> bool {
    forall|block: u32|
        (#[trigger] make(block)) matches Ok(page) ==> page.block == block && page.kind
            == PageKind::Grouped && page.check(layout) is Ok && page.next() == Ok::<u32, Error>(
            NO_BLOCK,
        ) && !page.initialize
}

/// Whether the grouped pages of a relation are as they were, but for the last one
/// of a segment.
pub open spec fn kept_but(before: StoreModel, after: StoreModel, tail: u32) -> bool {
    &&& after.layout == before.layout
    &&& forall|block: u32|
        #![trigger after.load(block, PageKind::Grouped)]
        (block != tail || tail == NO_BLOCK) ==> (before.load(block, PageKind::Grouped) matches Ok(image) ==> after.load(
            block,
            PageKind::Grouped,
        ) == Ok::<Image, Error>(image))
}

/// An appended page is there, the one before it leads to it, and the others stay.
#[verifier::rlimit(60)]
#[verifier::spinoff_prover]
pub(crate) proof fn page_is_appended(
    model: StoreModel,
    snapshot: GroupSnapshot,
    make: spec_fn(u32) -> Result<Image>,
)
    requires
        makes_sound(make, model.layout),
        page_appended(model, snapshot, make).value is Ok,
    ensures
        ({
            let step = page_appended(model, snapshot, make);
            let after = step.value->Ok_0;
            &&& make(after.tail) is Ok
            &&& step.model.load(after.tail, PageKind::Grouped) == make(after.tail)
            &&& model.load(after.tail, PageKind::Grouped) is Err
            &&& kept_but(model, step.model, snapshot.tail)
            &&& after.id == snapshot.id
            &&& after.root == snapshot.root
            &&& after.tail != NO_BLOCK
            &&& snapshot.tail != NO_BLOCK ==> (model.load(
                snapshot.tail,
                PageKind::Grouped,
            ) matches Ok(image) && step.model.load(snapshot.tail, PageKind::Grouped) matches Ok(linked)
                && reads_alike(image, linked) && image.next() == Ok::<u32, Error>(NO_BLOCK)
                && linked.next() == Ok::<u32, Error>(after.tail))
            &&& model.pages.len() <= NO_BLOCK ==> step.model.pages.len() <= NO_BLOCK
        }),
{
    reveal(page_appended);
    let taken = slot_taken(model, snapshot);
    let slot = taken.value->Ok_0;
    let page = make(slot.block)->Ok_0;
    let step = page_appended(model, snapshot, make);
    let after = step.value->Ok_0;
    let tail = snapshot.tail;
    assert(slot.journal.tail == tail);
    assert(after.tail == slot.block);
    assert(slot.meta.block == 0) by {
        assert(model.load(0, PageKind::Meta) is Ok);
    }
    assert(stored(page) == page);
    assert(page.check_next() is Ok);
    assert(slot.block != 0);
    assert(slot.block < taken.model.pages.len());
    assert(model.load(slot.block, PageKind::Grouped) is Err);
    assert forall|block: u32| model.load(block, PageKind::Grouped) matches Ok(
        image,
    ) implies block != 0 && block != slot.block && #[trigger] taken.model.load(
        block,
        PageKind::Grouped,
    ) == Ok::<Image, Error>(model.load(block, PageKind::Grouped)->Ok_0) by {
    }
    if tail != NO_BLOCK {
        let previous = taken.model.load(tail, PageKind::Grouped)->Ok_0;
        grouped_linked(previous, slot.block, model.layout);
        assert(tail != slot.block);
        assert(taken.model.pages[tail as int] == model.pages[tail as int]);
        assert(model.load(tail, PageKind::Grouped) == Ok::<Image, Error>(previous));
        let linked = previous.with_next(slot.block)->Ok_0;
        assert(step.model.pages[tail as int] == stored(linked));
        assert(step.model.load(tail, PageKind::Grouped) == Ok::<Image, Error>(stored(linked)));
        assert(reads_alike(previous, stored(linked)));
    }
    assert(step.model.pages[slot.block as int] == page);
    assert(step.model.load(slot.block, PageKind::Grouped) == Ok::<Image, Error>(page));
    assert forall|block: u32|
        #![trigger step.model.load(block, PageKind::Grouped)]
        (block != tail || tail == NO_BLOCK) implies (model.load(block, PageKind::Grouped) matches Ok(image)
        ==> step.model.load(block, PageKind::Grouped) == Ok::<Image, Error>(image)) by {
        if let Ok(image) = model.load(block, PageKind::Grouped) {
            assert(taken.model.load(block, PageKind::Grouped) == Ok::<Image, Error>(image));
            assert(step.model.pages[block as int] == image);
        }
    }
}

/// The page of a record's piece holds the piece.
#[verifier::rlimit(80)]
#[verifier::spinoff_prover]
proof fn piece_made(
    snapshot: GroupSnapshot,
    kind: GroupPageKind,
    key: Seq<u64>,
    bytes: Seq<u8>,
    index: int,
    layout: HeapLayout,
)
    requires
        snapshot.id.get() != 0,
        key.len() == 2,
    ensures
        ({
            let make = record_maker(
                snapshot.id,
                kind,
                key,
                bytes.len() as u32,
                (index * 8112) as u32,
                record_piece(bytes, index),
            );
            &&& makes_sound(make, layout)
            &&& forall|block: u32|
                (#[trigger] make(block)) matches Ok(page) ==> page.group_data() == Ok::<
                    GroupDataModel,
                    Error,
                >(
                    GroupDataModel {
                        id: snapshot.id,
                        kind,
                        key,
                        total: bytes.len() as u32,
                        offset: (index * 8112) as u32,
                        bytes: record_piece(bytes, index),
                    },
                )
        }),
{
    let total = bytes.len() as u32;
    let offset = (index * 8112) as u32;
    let piece = record_piece(bytes, index);
    let make = record_maker(snapshot.id, kind, key, total, offset, piece);
    assert forall|block: u32| (#[trigger] make(block)) matches Ok(page) implies make(block)->Ok_0.block
        == block && make(block)->Ok_0.kind == PageKind::Grouped && make(block)->Ok_0.check(
        layout,
    ) is Ok && make(block)->Ok_0.next() == Ok::<u32, Error>(NO_BLOCK)
        && !make(block)->Ok_0.initialize && make(block)->Ok_0.group_data() == Ok::<
        GroupDataModel,
        Error,
    >(
        GroupDataModel { id: snapshot.id, kind, key, total, offset, bytes: piece },
    ) by {
        let image = make(block)->Ok_0;
        assert(make(block) == group_record_image(
            block,
            snapshot.id,
            kind,
            key,
            total,
            offset,
            piece,
        ));
        group_record_round_trip(block, snapshot.id, kind, key, total, offset, piece);
        assert(image.bytes.subrange(12, 16) =~= u32_bytes(NO_BLOCK));
        le_u32_of_bytes(image.bytes, 12, NO_BLOCK);
        assert(image.group_data() is Ok);
    }
}

/// Whether blocks are where pages are expected.
pub open spec fn expects(expected: Option<Seq<u32>>, blocks: Seq<u32>) -> bool {
    expected matches Some(places) ==> places.len() >= blocks.len() && places.take(
        blocks.len() as int,
    ) == blocks
}

/// What writing one piece of a record leads to.
proof fn piece_written(
    model: StoreModel,
    snapshot: GroupSnapshot,
    kind: GroupPageKind,
    key: Seq<u64>,
    bytes: Seq<u8>,
    index: int,
    blocks: Seq<u32>,
) -> (step: (StoreModel, GroupSnapshot))
    requires
        snapshot.id.get() != 0,
        key.len() == 2,
        0 <= index,
        index * 8112 < bytes.len(),
        pieces_written(model, snapshot, kind, key, bytes, index, blocks).value is Ok,
    ensures
        pieces_written(model, snapshot, kind, key, bytes, index, blocks) == pieces_written(
            step.0,
            step.1,
            kind,
            key,
            bytes,
            index + 1,
            blocks.push(step.1.tail),
        ),
        step.1.id == snapshot.id,
        step.1.root == snapshot.root,
        step.1.tail != NO_BLOCK,
        model.load(step.1.tail, PageKind::Grouped) is Err,
        step.0.load(step.1.tail, PageKind::Grouped) matches Ok(page) && page.group_data() == Ok::<
            GroupDataModel,
            Error,
        >(
            GroupDataModel {
                id: snapshot.id,
                kind,
                key,
                total: bytes.len() as u32,
                offset: (index * 8112) as u32,
                bytes: record_piece(bytes, index),
            },
        ) && page.next() is Ok,
        kept_but(model, step.0, snapshot.tail),
        snapshot.tail != NO_BLOCK ==> (model.load(
            snapshot.tail,
            PageKind::Grouped,
        ) matches Ok(image) && step.0.load(snapshot.tail, PageKind::Grouped) matches Ok(linked)
            && reads_alike(image, linked) && image.next() == Ok::<u32, Error>(NO_BLOCK)
            && linked.next() == Ok::<u32, Error>(step.1.tail)),
        model.pages.len() <= NO_BLOCK ==> step.0.pages.len() <= NO_BLOCK,
{
    let make = record_maker(
        snapshot.id,
        kind,
        key,
        bytes.len() as u32,
        (index * 8112) as u32,
        record_piece(bytes, index),
    );
    piece_made(snapshot, kind, key, bytes, index, model.layout);
    page_is_appended(model, snapshot, make);
    let step = page_appended(model, snapshot, make);
    (step.model, step.value->Ok_0)
}

/// The pages of a record are chained behind the last page of the segment, in the
/// places that are given out, and the other pages stay.
#[verifier::rlimit(60)]
#[verifier::spinoff_prover]
pub(crate) proof fn pieces_chained(
    model: StoreModel,
    snapshot: GroupSnapshot,
    kind: GroupPageKind,
    key: Seq<u64>,
    bytes: Seq<u8>,
    index: int,
    blocks: Seq<u32>,
)
    requires
        snapshot.id.get() != 0,
        key.len() == 2,
        0 <= index,
        blocks.len() == index,
        pieces_written(model, snapshot, kind, key, bytes, index, blocks).value is Ok,
    ensures
        ({
            let written = pieces_written(model, snapshot, kind, key, bytes, index, blocks);
            let (after, all) = written.value->Ok_0;
            &&& all.len() >= index
            &&& all.take(index) == blocks
            &&& after.id == snapshot.id
            &&& after.root == snapshot.root
            &&& kept_but(model, written.model, snapshot.tail)
            &&& index * 8112 < bytes.len() ==> all.len() > index
            &&& index * 8112 >= bytes.len() ==> written.model == model
            &&& snapshot.tail != NO_BLOCK && index * 8112 < bytes.len() ==> (model.load(
                snapshot.tail,
                PageKind::Grouped,
            ) matches Ok(image) && written.model.load(snapshot.tail, PageKind::Grouped) matches Ok(
                linked,
            ) && reads_alike(image, linked) && image.next() == Ok::<u32, Error>(NO_BLOCK)
                && linked.next() == Ok::<u32, Error>(all[index]))
            &&& model.pages.len() <= NO_BLOCK ==> written.model.pages.len() <= NO_BLOCK
        }),
    decreases bytes.len() - index,
{
    let written = pieces_written(model, snapshot, kind, key, bytes, index, blocks);
    let (after, all) = written.value->Ok_0;
    if index * 8112 < bytes.len() {
        let (middle, next) = piece_written(model, snapshot, kind, key, bytes, index, blocks);
        let place = next.tail;
        pieces_chained(middle, next, kind, key, bytes, index + 1, blocks.push(place));
        assert(all[index] == place) by {
            assert(all.take(index + 1)[index] == place);
        }
        assert(all.take(index) =~= blocks) by {
            assert(all.take(index + 1).take(index) =~= all.take(index));
            assert(blocks.push(place).take(index) =~= blocks);
        }
        if snapshot.tail != NO_BLOCK {
            assert(snapshot.tail != place);
            let linked = middle.load(snapshot.tail, PageKind::Grouped)->Ok_0;
            assert(written.model.load(snapshot.tail, PageKind::Grouped) == Ok::<Image, Error>(
                linked,
            ));
        }
        assert forall|block: u32|
            #![trigger written.model.load(block, PageKind::Grouped)]
            (block != snapshot.tail || snapshot.tail == NO_BLOCK) implies (model.load(block, PageKind::Grouped) matches Ok(image)
            ==> written.model.load(block, PageKind::Grouped) == Ok::<Image, Error>(image)) by {
            if let Ok(image) = model.load(block, PageKind::Grouped) {
                assert(block != place);
                assert(middle.load(block, PageKind::Grouped) == Ok::<Image, Error>(image));
            }
        }
    } else {
        assert(all.take(index) =~= blocks);
    }
}

#[verifier::rlimit(60)]
#[verifier::spinoff_prover]
proof fn pieces_read_back(
    model: StoreModel,
    snapshot: GroupSnapshot,
    kind: GroupPageKind,
    key: Seq<u64>,
    bytes: Seq<u8>,
    index: int,
    blocks: Seq<u32>,
    expected: Option<Seq<u32>>,
)
    requires
        snapshot.id.get() != 0,
        key.len() == 2,
        bytes.len() <= u32::MAX,
        0 <= index,
        blocks.len() == index,
        index * 8112 < bytes.len(),
        pieces_written(model, snapshot, kind, key, bytes, index, blocks).value is Ok,
        expects(
            expected,
            pieces_written(model, snapshot, kind, key, bytes, index, blocks).value->Ok_0.1,
        ),
    ensures
        ({
            let written = pieces_written(model, snapshot, kind, key, bytes, index, blocks);
            let (after, all) = written.value->Ok_0;
            pieces_read(
                written.model,
                after,
                kind,
                key,
                all[index],
                bytes.len() as int,
                index,
                expected,
            ) == Ok::<Seq<u8>, Error>(bytes.skip(index * 8112))
        }),
    decreases bytes.len() - index,
{
    let written = pieces_written(model, snapshot, kind, key, bytes, index, blocks);
    let (after, all) = written.value->Ok_0;
    let piece = record_piece(bytes, index);
    let (middle, next) = piece_written(model, snapshot, kind, key, bytes, index, blocks);
    let place = next.tail;
    pieces_chained(model, snapshot, kind, key, bytes, index, blocks);
    pieces_chained(middle, next, kind, key, bytes, index + 1, blocks.push(place));
    assert(all[index] == place) by {
        assert(all.take(index + 1)[index] == place);
    }
    if let Some(places) = expected {
        assert(places.take(all.len() as int)[index] == places[index]);
    }
    let page = written.model.load(place, PageKind::Grouped)->Ok_0;
    assert(page.group_data() == middle.load(place, PageKind::Grouped)->Ok_0.group_data());
    let data = page.group_data()->Ok_0;
    assert(data.bytes == piece && data.id == after.id && data.kind == kind && data.key == key);
    assert(data.total == bytes.len() && data.offset == index * 8112);
    let rest = bytes.skip((index + 1) * 8112);
    if (index + 1) * 8112 < bytes.len() {
        assert(page.next() == Ok::<u32, Error>(all[index + 1]));
        pieces_read_back(
            middle,
            next,
            kind,
            key,
            bytes,
            index + 1,
            blocks.push(place),
            expected,
        );
        assert(bytes.skip(index * 8112) =~= piece + rest);
    } else {
        assert(bytes.skip(index * 8112) =~= piece);
        assert(piece + Seq::<u8>::empty() =~= piece);
        assert(page.next() is Ok);
        assert(pieces_read(
            written.model,
            after,
            kind,
            key,
            page.next()->Ok_0,
            bytes.len() as int,
            index + 1,
            expected,
        ) == Ok::<Seq<u8>, Error>(Seq::empty()));
    }
}

/// A record that was written reads back as it was, from its first page on; one of
/// at most three pages also by the places of its pages.
pub proof fn records_read_back(
    model: StoreModel,
    snapshot: GroupSnapshot,
    kind: GroupPageKind,
    key: Seq<u64>,
    bytes: Seq<u8>,
)
    requires
        snapshot.id.get() != 0,
        key.len() == 2,
        record_written(model, snapshot, kind, key, bytes).value is Ok,
    ensures
        ({
            let written = record_written(model, snapshot, kind, key, bytes);
            let (after, head, blocks) = written.value->Ok_0;
            &&& pieces_read(
                written.model,
                after,
                kind,
                key,
                head,
                bytes.len() as int,
                0,
                None,
            ) == Ok::<Seq<u8>, Error>(bytes)
            &&& bytes.len() <= 3 * 8112 ==> pieces_read(
                written.model,
                after,
                kind,
                key,
                head,
                bytes.len() as int,
                0,
                Some(blocks),
            ) == Ok::<Seq<u8>, Error>(bytes)
            &&& kept_but(model, written.model, snapshot.tail)
        }),
{
    let none = Seq::<u32>::empty();
    let written = pieces_written(model, snapshot, kind, key, bytes, 0, none);
    let (after, all) = written.value->Ok_0;
    assert(bytes.skip(0) =~= bytes);
    pieces_chained(model, snapshot, kind, key, bytes, 0, none);
    pieces_read_back(model, snapshot, kind, key, bytes, 0, none, None);
    if bytes.len() <= 3 * 8112 {
        pieces_counted(model, snapshot, kind, key, bytes, 0, none);
        assert(first_blocks(all).take(all.len() as int) =~= all);
        pieces_read_back(model, snapshot, kind, key, bytes, 0, none, Some(first_blocks(all)));
    }
}

/// A record has as many pages as its bytes need.
proof fn pieces_counted(
    model: StoreModel,
    snapshot: GroupSnapshot,
    kind: GroupPageKind,
    key: Seq<u64>,
    bytes: Seq<u8>,
    index: int,
    blocks: Seq<u32>,
)
    requires
        0 <= index,
        blocks.len() == index,
        index <= 3,
        bytes.len() <= 3 * 8112,
        pieces_written(model, snapshot, kind, key, bytes, index, blocks).value is Ok,
    ensures
        pieces_written(model, snapshot, kind, key, bytes, index, blocks).value->Ok_0.1.len() <= 3,
    decreases bytes.len() - index,
{
    if index * 8112 < bytes.len() {
        let make = record_maker(
            snapshot.id,
            kind,
            key,
            bytes.len() as u32,
            (index * 8112) as u32,
            record_piece(bytes, index),
        );
        let step = page_appended(model, snapshot, make);
        let next = step.value->Ok_0;
        pieces_counted(step.model, next, kind, key, bytes, index + 1, blocks.push(next.tail));
    }
}

/// A record that fits the pages of a segment is bounded, unless it is one of
/// members.
pub(crate) proof fn record_bounded(
    model: StoreModel,
    snapshot: GroupSnapshot,
    kind: GroupPageKind,
    key: Seq<u64>,
    bytes: Seq<u8>,
)
    requires
        snapshot.id.get() != 0,
        key.len() == 2,
        kind != GroupPageKind::Members,
        record_written(model, snapshot, kind, key, bytes).value is Ok,
    ensures
        bytes.len() <= 17_480,
{
    let none = Seq::<u32>::empty();
    if bytes.len() > 0 {
        let (middle, next) = piece_written(model, snapshot, kind, key, bytes, 0, none);
        let page = middle.load(next.tail, PageKind::Grouped)->Ok_0;
        assert(page.group_data() is Ok);
        assert(page.group_data()->Ok_0.kind == kind);
    }
}

} // verus!
