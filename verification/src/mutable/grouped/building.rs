//! A build loses nothing: every posting among its rows is marked by a record that
//! its catalog lists under the term and the group.

use crate::error::Error;
use crate::grouped::bitmap::{bitmap_code, BitmapKind, PageOffsets};
use crate::grouped::members::Member;
use crate::grouped::GroupKey;
use crate::identity::group_identity;
use crate::mutable::grouped::anchors::word_at;
use crate::mutable::grouped::builder::{levels_finished, BuilderModel};
use crate::mutable::grouped::covering::{collecting_marks_one, marks};
use crate::mutable::grouped::growing::{
    alike_joins, cataloged_records_are_found, catalogs_grow, finished_catalogs_list_entries,
    fresh_catalogs_are_empty, grows, joined_kept, kept_alike, leads_to, pieces_by_segment,
    pieces_stay, pushed, records_keep_catalogs, same_page, under_kept,
};
use crate::mutable::grouped::rebuild::{
    anchor_taken, build_made, build_started, catalogs_finished, group_opened, group_sealed,
    member_taken, members_cataloged, record_fields, row_anchor, row_taken, rows_taken, BuildModel,
};
use crate::mutable::grouped::records::{record_written, snapshot_key};
use crate::mutable::grouped::segments::record_bounded;
use crate::mutable::grouped::trees::{catalog_list, entries_of, list_ascends};
use crate::mutable::page::grouped_model::EntryModel;
use crate::mutable::page::{CatalogEntry, GroupPageKind, GroupSnapshot, PageKind, NO_BLOCK};
use crate::mutable::store::StoreModel;
use vstd::prelude::*;

verus! {

broadcast use group_identity;

/// Whether a build is under way: its catalogs list what was pushed to them.
pub open spec fn under_way(state: (StoreModel, BuildModel)) -> bool {
    let id = state.1.snapshot.id;
    &&& id.get() != 0
    &&& state.0.pages.len() <= NO_BLOCK
    &&& state.1.snapshot.root == NO_BLOCK
    &&& grows(state.0, id, state.1.catalog)
    &&& state.1.anchors matches Some(anchors) ==> grows(state.0, id, anchors)
}

/// Whether an entry leads to the record of pages of a group that mark an offset.
pub open spec fn names_mark(
    model: StoreModel,
    snapshot: GroupSnapshot,
    entry: EntryModel,
    group: GroupKey,
    pages: Seq<PageOffsets>,
    blocks: Seq<u32>,
    page: int,
    bit: int,
) -> bool {
    &&& leads_to(
        model,
        snapshot,
        entry,
        GroupPageKind::Posting,
        bitmap_code(group, BitmapKind::Posting, pages),
        None,
        blocks,
    )
    &&& marks(pages, page, bit)
    &&& snapshot_key(snapshot, entry.key[1] as u32, model.layout) == Ok::<GroupKey, Error>(group)
}

/// Whether a list has an entry with a key that leads to a record that marks an offset.
pub open spec fn marked(
    model: StoreModel,
    snapshot: GroupSnapshot,
    list: Seq<EntryModel>,
    key: Seq<u64>,
    page: int,
    bit: int,
) -> bool {
    exists|i: int, group: GroupKey, pages: Seq<PageOffsets>, blocks: Seq<u32>|
        0 <= i < list.len() && list[i].key == key && #[trigger] names_mark(
            model,
            snapshot,
            list[i],
            group,
            pages,
            blocks,
            page,
            bit,
        )
}

/// What is marked stays so while a segment grows.
#[verifier::rlimit(60)]
#[verifier::spinoff_prover]
proof fn marked_stays(
    before: (StoreModel, GroupSnapshot),
    after: (StoreModel, GroupSnapshot),
    list: Seq<EntryModel>,
    more: Seq<EntryModel>,
    key: Seq<u64>,
    page: int,
    bit: int,
)
    requires
        kept_alike(before.0, after.0),
        before.0.pages.len() <= NO_BLOCK,
        before.1.id == after.1.id,
        list.is_prefix_of(more),
        marked(before.0, before.1, list, key, page, bit),
    ensures
        marked(after.0, after.1, more, key, page, bit),
{
    let (i, group, pages, blocks) = choose|
        i: int,
        group: GroupKey,
        pages: Seq<PageOffsets>,
        blocks: Seq<u32>,
    |
        0 <= i < list.len() && list[i].key == key && #[trigger] names_mark(
            before.0,
            before.1,
            list[i],
            group,
            pages,
            blocks,
            page,
            bit,
        );
    let entry = list[i];
    assert(more[i] == entry);
    let bytes = bitmap_code(group, BitmapKind::Posting, pages);
    let kind = GroupPageKind::Posting;
    let total = bytes.len() as int;
    pieces_stay(before.0, after.0, before.1, kind, entry.key, blocks[0], total, 0, Some(blocks));
    pieces_by_segment(
        after.0,
        before.1,
        after.1,
        kind,
        entry.key,
        blocks[0],
        total,
        0,
        Some(blocks),
    );
    assert(names_mark(after.0, after.1, more[i], group, pages, blocks, page, bit));
}

/// A catalog still lists what was pushed where the pages read as they did.
proof fn grows_stays(
    before: StoreModel,
    after: StoreModel,
    id: crate::identity::SegmentId,
    builder: BuilderModel,
)
    requires
        kept_alike(before, after),
        grows(before, id, builder),
    ensures
        grows(after, id, builder),
        pushed(after, id, builder) == pushed(before, id, builder),
{
    joined_kept(before, after, id, builder.levels, builder.levels, 0);
}

/// The entries that a build has pushed.
pub open spec fn list_of(state: (StoreModel, BuildModel)) -> Seq<EntryModel> {
    pushed(state.0, state.1.snapshot.id, state.1.catalog)->Some_0
}

/// Whether a build marks an offset of a group of a term on its records.
pub open spec fn recorded(
    state: (StoreModel, BuildModel),
    key: Seq<u64>,
    page: int,
    bit: int,
) -> bool {
    marked(state.0, state.1.snapshot, list_of(state), key, page, bit)
}

/// Whether a build marks an offset of a group of a term: on its records or in the
/// group that is open.
pub open spec fn holds(
    state: (StoreModel, BuildModel),
    key: Seq<u64>,
    page: int,
    bit: int,
) -> bool {
    ||| state.1.current matches Some(place) && place@ == key && marks(state.1.pages, page, bit)
    ||| recorded(state, key, page, bit)
}

/// Sealing a group records what it marks.
#[verifier::rlimit(80)]
#[verifier::spinoff_prover]
proof fn sealing_records(
    before: (StoreModel, BuildModel),
    after: (StoreModel, BuildModel),
    key: Seq<u64>,
    page: int,
    bit: int,
)
    requires
        under_way(before),
        group_sealed(before, after),
        key.len() == 2,
        key[0] != 0,
    ensures
        under_way(after),
        after.0.layout == before.0.layout,
        after.1.snapshot.id == before.1.snapshot.id,
        holds(before, key, page, bit) ==> recorded(after, key, page, bit),
{
    let id = before.1.snapshot.id;
    if let Some(place) = before.1.current {
        let group = snapshot_key(before.1.snapshot, place@[1] as u32, before.0.layout)->Ok_0;
        let from = (before.0, before.1.snapshot, before.1.catalog);
        let to = (after.0, after.1.snapshot, after.1.catalog);
        let list = list_of(before);
        if place@[0] == 0 {
            let live = choose|live: Seq<u8>| #[trigger]
                members_cataloged(from, to, place, group, before.1.members, live);
            let code = crate::grouped::members::membership_code(group, before.1.members);
            let kind = GroupPageKind::Members;
            let roster = record_written(before.0, before.1.snapshot, kind, place@, code);
            let (written, head, _) = roster.value->Ok_0;
            records_keep_catalogs(
                before.0,
                before.1.snapshot,
                before.1.catalog,
                kind,
                place@,
                code,
            );
            let middle = (roster.model, written, before.1.catalog);
            let count = Some((head, before.1.members.len() as int));
            record_bounded(roster.model, written, GroupPageKind::Liveness, place@, live);
            cataloged_records_are_found(middle, to, GroupPageKind::Liveness, place, live, count);
            alike_joins(before.0, roster.model, after.0);
        } else {
            let bytes = bitmap_code(group, BitmapKind::Posting, before.1.pages);
            let kind = GroupPageKind::Posting;
            record_bounded(before.0, before.1.snapshot, kind, place@, bytes);
            cataloged_records_are_found(from, to, kind, place, bytes, None);
            let more = list_of(after);
            if place@ == key && marks(before.1.pages, page, bit) {
                let blocks = choose|blocks: Seq<u32>| #[trigger]
                    leads_to(after.0, after.1.snapshot, more.last(), kind, bytes, None, blocks);
                assert(names_mark(
                    after.0,
                    after.1.snapshot,
                    more[more.len() - 1],
                    group,
                    before.1.pages,
                    blocks,
                    page,
                    bit,
                ));
            }
        }
        let more = list_of(after);
        assert(list.is_prefix_of(more)) by {
            assert(more.drop_last() == list);
            assert forall|i: int| 0 <= i < list.len() implies list[i] == more[i] by {
                assert(more.drop_last()[i] == more[i]);
            }
        }
        if recorded(before, key, page, bit) {
            marked_stays(
                (before.0, before.1.snapshot),
                (after.0, after.1.snapshot),
                list,
                more,
                key,
                page,
                bit,
            );
        }
        if let Some(anchors) = before.1.anchors {
            grows_stays(before.0, after.0, id, anchors);
        }
    }
}

/// A member or posting that is taken is held beside all that was.
proof fn taking_holds(
    before: (StoreModel, BuildModel),
    after: (StoreModel, BuildModel),
    term: u64,
    member: Member,
    key: Seq<u64>,
    page: int,
    bit: int,
)
    requires
        under_way(before),
        member_taken(before, after, term, member),
        0 <= bit < 512,
        1 <= member.root.offset() <= 512,
    ensures
        under_way(after),
        after.0 == before.0,
        after.1.snapshot == before.1.snapshot,
        holds(before, key, page, bit) ==> holds(after, key, page, bit),
        before.1.current matches Some(place) && place@ == key && term != 0 && page
            == member.root.block() % 256 && bit == member.root.offset() - 1 ==> holds(
            after,
            key,
            page,
            bit,
        ),
{
    if term != 0 {
        collecting_marks_one(before.1.pages, after.1.pages, member.root, page, bit);
    }
}

/// The key of the group of a root under a term.
pub open spec fn group_of(term: u64, member: Member) -> Seq<u64> {
    seq![term, (member.root.block() - member.root.block() % 256) as u64]
}

/// Taking a row holds what was held, and its posting.
#[verifier::rlimit(80)]
#[verifier::spinoff_prover]
proof fn row_holds(
    before: (StoreModel, BuildModel),
    after: (StoreModel, BuildModel),
    row: Seq<u8>,
    key: Seq<u64>,
    page: int,
    bit: int,
)
    requires
        under_way(before),
        row_taken(before, after, row),
        key.len() == 2,
        key[0] != 0,
        0 <= bit < 512,
        before.0.layout.max_offset() <= 512,
    ensures
        under_way(after),
        after.0.layout == before.0.layout,
        after.1.snapshot.id == before.1.snapshot.id,
        holds(before, key, page, bit) ==> holds(after, key, page, bit),
        word_at(row, 1) != 0 ==> (record_fields(row, before.0.layout) matches Some((term, member))
            && (group_of(term, member) == key && page == member.root.block() % 256 && bit
            == member.root.offset() - 1 ==> holds(after, key, page, bit))),
{
    let id = before.1.snapshot.id;
    let begun = (before.0, BuildModel { previous: Some(row), ..before.1 });
    assert(holds(before, key, page, bit) == holds(begun, key, page, bit));
    if word_at(row, 1) == 0 {
        let entry = choose|entry: CatalogEntry| #[trigger]
            anchor_taken(begun, after, word_at(row, 0), row_anchor(row), entry);
        let anchors = before.1.anchors->Some_0;
        catalogs_grow(before.0, before.1.snapshot, anchors, entry);
        grows_stays(before.0, after.0, id, before.1.catalog);
        if recorded(before, key, page, bit) {
            marked_stays(
                (before.0, before.1.snapshot),
                (after.0, after.1.snapshot),
                list_of(before),
                list_of(after),
                key,
                page,
                bit,
            );
        }
    } else {
        let (term, member) = record_fields(row, before.0.layout)->Some_0;
        let base = (member.root.block() - member.root.block() % 256) as u64;
        assert(1 <= member.root.offset() <= 512);
        if begun.1.current matches Some(place) && place@ == seq![term, base] {
            taking_holds(begun, after, term, member, key, page, bit);
        } else {
            let (sealed, opened) = choose|
                sealed: (StoreModel, BuildModel),
                opened: (StoreModel, BuildModel),
            |
                #[trigger] group_sealed(begun, sealed) && #[trigger] group_opened(
                    sealed,
                    opened,
                    term,
                    base,
                ) && member_taken(opened, after, term, member);
            sealing_records(begun, sealed, key, page, bit);
            assert(recorded(opened, key, page, bit) == recorded(sealed, key, page, bit));
            taking_holds(opened, after, term, member, key, page, bit);
        }
    }
}

/// Taking rows holds the postings of all of them.
proof fn rows_hold(
    before: (StoreModel, BuildModel),
    after: (StoreModel, BuildModel),
    rows: Seq<Seq<u8>>,
    key: Seq<u64>,
    page: int,
    bit: int,
    index: int,
)
    requires
        under_way(before),
        rows_taken(before, after, rows),
        key.len() == 2,
        key[0] != 0,
        0 <= bit < 512,
        before.0.layout.max_offset() <= 512,
    ensures
        under_way(after),
        after.0.layout == before.0.layout,
        after.1.snapshot.id == before.1.snapshot.id,
        0 <= index < rows.len() && word_at(rows[index], 1) != 0 ==> (record_fields(
            rows[index],
            before.0.layout,
        ) matches Some((term, member)) && (group_of(term, member) == key && page
            == member.root.block() % 256 && bit == member.root.offset() - 1 ==> holds(
            after,
            key,
            page,
            bit,
        ))),
    decreases rows.len(),
{
    if rows.len() > 0 {
        let middle = choose|middle: (StoreModel, BuildModel)|
            rows_taken(before, middle, rows.drop_last()) && #[trigger] row_taken(
                middle,
                after,
                rows.last(),
            );
        rows_hold(before, middle, rows.drop_last(), key, page, bit, index);
        row_holds(middle, after, rows.last(), key, page, bit);
        if 0 <= index < rows.len() - 1 {
            assert(rows.drop_last()[index] == rows[index]);
        }
    }
}

/// A finished catalog stays where the pages read as they did.
proof fn catalog_stays(
    before: StoreModel,
    after: StoreModel,
    id: crate::identity::SegmentId,
    root: u32,
)
    requires
        kept_alike(before, after),
        catalog_list(before, id, root) is Some,
    ensures
        catalog_list(after, id, root) == catalog_list(before, id, root),
{
    if root != NO_BLOCK {
        let page = before.load(root, PageKind::Grouped)->Ok_0;
        let same = after.load(root, PageKind::Grouped)->Ok_0;
        assert(same_page(page, same));
        assert(entries_of(same) =~= entries_of(page));
        under_kept(before, after, id, entries_of(page), page.group_node_info()->Ok_0.0 as int);
    }
}

/// A build loses nothing: for every row that is a posting of a term, the catalog of
/// the built snapshot, whose keys ascend, has an entry under the term and the group
/// of the root, which leads to a record of pages that mark the root.
#[verifier::rlimit(80)]
#[verifier::spinoff_prover]
pub proof fn builds_lose_nothing(
    begun: StoreModel,
    first: GroupSnapshot,
    anchored: bool,
    rows: Seq<Seq<u8>>,
    built: StoreModel,
    snapshot: GroupSnapshot,
    index: int,
)
    requires
        build_made(begun, first, anchored, rows, built, snapshot),
        first.id.get() != 0,
        first.root == NO_BLOCK,
        begun.pages.len() <= NO_BLOCK,
        begun.layout.max_offset() <= 512,
        0 <= index < rows.len(),
        word_at(rows[index], 0) != 0,
        word_at(rows[index], 1) != 0,
    ensures
        catalog_list(built, snapshot.id, snapshot.root) matches Some(list) && list_ascends(list)
            && (record_fields(rows[index], begun.layout) matches Some((term, member)) && marked(
            built,
            snapshot,
            list,
            group_of(term, member),
            (member.root.block() % 256) as int,
            member.root.offset() - 1,
        )),
{
    let start = (begun, build_started(first, anchored));
    let (taken, sealed) = choose|taken: (StoreModel, BuildModel), sealed: (StoreModel, BuildModel)|
        #[trigger] rows_taken(start, taken, rows) && #[trigger] group_sealed(taken, sealed)
            && catalogs_finished(sealed, built, snapshot);
    fresh_catalogs_are_empty(begun, first.id);
    assert(under_way(start));
    let some = seq![1u64, 0u64];
    rows_hold(start, taken, rows, some, 0, 0, index);
    let (term, member) = record_fields(rows[index], begun.layout)->Some_0;
    let key = group_of(term, member);
    let page = member.root.block() % 256;
    let bit = member.root.offset() - 1;
    rows_hold(start, taken, rows, key, page as int, bit, index);
    sealing_records(taken, sealed, key, page as int, bit);
    let id = sealed.1.snapshot.id;
    let finished = levels_finished(sealed.0, sealed.1.snapshot, sealed.1.catalog.levels, 0);
    let main = finished.value->Ok_0;
    finished_catalogs_list_entries(sealed.0, sealed.1.snapshot, sealed.1.catalog);
    let list = list_of(sealed);
    if let Some(anchors) = sealed.1.anchors {
        grows_stays(sealed.0, finished.model, id, anchors);
        let from = GroupSnapshot { root: NO_BLOCK, ..main };
        finished_catalogs_list_entries(finished.model, from, anchors);
        catalog_stays(finished.model, built, id, main.root);
        alike_joins(sealed.0, finished.model, built);
    }
    marked_stays(
        (sealed.0, sealed.1.snapshot),
        (built, snapshot),
        list,
        list,
        key,
        page as int,
        bit,
    );
}

} // verus!
