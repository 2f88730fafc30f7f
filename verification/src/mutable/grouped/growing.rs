//! A catalog lists the entries that were pushed to it, in order, while it grows
//! and when it is finished.

use crate::codec::bytes::{group_bytes, u16_bytes, u32_bytes, u64_bytes};
use crate::codec::fields::le_u32_of_bytes;
use crate::error::Error;
use crate::grouped::bitmap::bitmap_at;
use crate::identity::{group_identity, HeapLayout, SegmentId};
use crate::mutable::grouped::builder::{
    branch_entry, entry_added, entry_pushed, higher_used, level_flushed, levels_finished,
    node_maker, BuilderModel,
};
use crate::mutable::grouped::catalog::child_of;
use crate::mutable::grouped::journal::page_appended;
use crate::mutable::grouped::rebuild::{liveness_value, posting_value, record_cataloged};
use crate::mutable::grouped::records::{pieces_read, pieces_written, record_written};
use crate::mutable::grouped::segments::{
    kept_but, makes_sound, page_is_appended, pieces_chained, reads_alike, records_read_back,
};
use crate::mutable::grouped::trees::{catalog_list, child_page, entries_of, list_ascends, under};
use crate::mutable::page::grouped::group_node_image;
use crate::mutable::page::grouped_model::{entry_at, entry_key, key_before, zeros, EntryModel};
use crate::mutable::page::laws::{group_node_round_trip, grouped_start};
use crate::mutable::page::model::{is_block, Image};
use crate::mutable::page::{CatalogEntry, GroupPageKind, GroupSnapshot, PageKind, NO_BLOCK};
use crate::mutable::grouped::values::BITMAP_BYTES;
use crate::mutable::store::{Change, StoreModel};
use vstd::array::{spec_array_fill_for_copy_type, spec_array_update};
use vstd::prelude::*;

verus! {

broadcast use {group_bytes, group_identity};

/// Whether a page reads as it did and still leads to the same page, if to any.
pub open spec fn same_page(image: Image, same: Image) -> bool {
    &&& reads_alike(image, same)
    &&& same.next() is Ok
    &&& image.next() == Ok::<u32, Error>(NO_BLOCK) || same.next() == image.next()
}

/// Whether the grouped pages of a relation read as they did.
pub open spec fn kept_alike(before: StoreModel, after: StoreModel) -> bool {
    &&& after.layout == before.layout
    &&& before.pages.len() <= NO_BLOCK ==> after.pages.len() <= NO_BLOCK
    &&& forall|block: u32|
        #![trigger after.load(block, PageKind::Grouped)]
        before.load(block, PageKind::Grouped) matches Ok(image) ==> (after.load(
            block,
            PageKind::Grouped,
        ) matches Ok(same) && same_page(image, same))
}

pub(crate) proof fn alike_joins(first: StoreModel, second: StoreModel, third: StoreModel)
    requires
        kept_alike(first, second),
        kept_alike(second, third),
    ensures
        kept_alike(first, third),
{
    assert forall|block: u32|
        #![trigger third.load(block, PageKind::Grouped)]
        first.load(block, PageKind::Grouped) matches Ok(image) implies (third.load(
        block,
        PageKind::Grouped,
    ) matches Ok(same) && same_page(first.load(block, PageKind::Grouped)->Ok_0, same)) by {
        assert(second.load(block, PageKind::Grouped) is Ok);
    }
}

/// The models of entries.
pub open spec fn views(entries: Seq<CatalogEntry>) -> Seq<EntryModel> {
    entries.map_values(|entry: CatalogEntry| entry@)
}

/// The list below a node stays where the pages read as they did.
pub(crate) proof fn under_kept(
    before: StoreModel,
    after: StoreModel,
    id: SegmentId,
    entries: Seq<EntryModel>,
    level: int,
)
    requires
        kept_alike(before, after),
        under(before, id, entries, level) is Some,
    ensures
        under(after, id, entries, level) == under(before, id, entries, level),
    decreases level, entries.len(),
{
    if level > 0 && entries.len() > 0 {
        let page = child_page(before, id, entries.last(), level)->Some_0;
        let block = child_of(entries.last())->Ok_0;
        let same = after.load(block, PageKind::Grouped)->Ok_0;
        assert(reads_alike(page, same));
        assert(entries_of(same) =~= entries_of(page));
        under_kept(before, after, id, entries.drop_last(), level);
        under_kept(before, after, id, entries_of(page), level - 1);
    }
}

/// An entry more adds what it leads to.
proof fn under_push(
    model: StoreModel,
    id: SegmentId,
    entries: Seq<EntryModel>,
    level: int,
    entry: EntryModel,
)
    requires
        level >= 0,
        under(model, id, entries, level) is Some,
        under(model, id, seq![entry], level) is Some,
    ensures
        under(model, id, entries.push(entry), level) == Some(
            under(model, id, entries, level)->Some_0 + under(model, id, seq![entry], level)->Some_0,
        ),
{
    let one = seq![entry];
    let more = entries.push(entry);
    if level == 0 {
        assert(more =~= entries + one);
    } else {
        assert(more.drop_last() =~= entries);
        assert(one.drop_last() =~= Seq::empty());
        assert(one.last() == entry);
        let page = child_page(model, id, entry, level)->Some_0;
        let below = under(model, id, entries_of(page), level - 1)->Some_0;
        assert(under(model, id, one.drop_last(), level) == Some(Seq::<EntryModel>::empty()));
        assert(Seq::<EntryModel>::empty() + below =~= below);
    }
}

/// The entry of a branch leads where it should.
proof fn branch_leads(key: [u64; 2], child: u32)
    requires
        is_block(child),
    ensures
        branch_entry(key, child)@.key == key@,
        child_of(branch_entry(key, child)@) == Ok::<u32, Error>(child),
{
    let code = u32_bytes(child);
    assert(code.len() == 4);
    let a = spec_array_fill_for_copy_type::<u8, 64>(0u8);
    let b = spec_array_update(a, 0, code[0]);
    let c = spec_array_update(b, 1, code[1]);
    let d = spec_array_update(c, 2, code[2]);
    let e = spec_array_update(d, 3, code[3]);
    let witness = CatalogEntry { key, value: e };
    assert(a@.len() == 64);
    assert(e@ =~= code + zeros(60));
    assert(witness.key == key && witness.value@ == code + zeros(60));
    let entry = branch_entry(key, child);
    assert(entry.key == key && entry.value@ == code + zeros(60));
    assert(entry.value@.skip(4) =~= zeros(60));
    assert(entry.value@.subrange(0, 4) =~= code);
    le_u32_of_bytes(entry.value@, 0, child);
}

/// The page of a node holds its entries.
#[verifier::rlimit(80)]
#[verifier::spinoff_prover]
proof fn node_made(id: SegmentId, level: u8, entries: Seq<CatalogEntry>, layout: HeapLayout)
    requires
        id.get() != 0,
        entries.len() > 0,
    ensures
        makes_sound(node_maker(id, level, entries), layout),
        forall|block: u32|
            (#[trigger] node_maker(id, level, entries)(block)) matches Ok(page)
                ==> page.group_node_info() matches Ok((at, count)) && at == level && count
                == entries.len() && entries_of(page) == views(entries)
                && page.group_identity()->Ok_0.0 == id,
{
    let make = node_maker(id, level, entries);
    assert forall|block: u32| (#[trigger] make(block)) is Ok implies make(block)->Ok_0.block == block
        && make(block)->Ok_0.kind == PageKind::Grouped && make(block)->Ok_0.check(layout) is Ok
        && make(block)->Ok_0.next() == Ok::<u32, Error>(NO_BLOCK) && !make(block)->Ok_0.initialize
        && make(block)->Ok_0.group_node_info() == Ok::<(u8, u16), Error>(
        (level, entries.len() as u16),
    ) && entries_of(make(block)->Ok_0) == views(entries)
        && make(block)->Ok_0.group_identity()->Ok_0.0 == id && entries.len() <= u16::MAX by {
        let image = make(block)->Ok_0;
        assert(make(block) == group_node_image(block, id, level, entries));
        let kind = if level == 0 {
            GroupPageKind::Leaf
        } else {
            GroupPageKind::Branch
        };
        group_node_round_trip(block, id, level, entries, 0);
        assert(image.bytes.subrange(12, 16) =~= u32_bytes(NO_BLOCK));
        le_u32_of_bytes(image.bytes, 12, NO_BLOCK);
        assert(image.bytes.subrange(16, 32) =~= seq![0x47u8, 0x39u8, 0x50u8, 0x47u8] + u16_bytes(1)
            + seq![kind.spec_tag()] + seq![0u8] + u64_bytes(id.get()));
        grouped_start(image, id, kind);
        assert forall|i: int| 0 <= i < entries.len() implies entry_at(image.node_entries(), i)
            == #[trigger] entries[i]@ by {
            group_node_round_trip(block, id, level, entries, i);
        }
        assert(entries_of(image) =~= views(entries));
        assert(image.check_group_node() is Ok);
    }
}

/// A written node can be reached by its entry, and the other pages stay.
#[verifier::rlimit(80)]
#[verifier::spinoff_prover]
proof fn node_reached(
    model: StoreModel,
    snapshot: GroupSnapshot,
    level: int,
    entries: Seq<CatalogEntry>,
)
    requires
        snapshot.id.get() != 0,
        0 <= level < 8,
        level_flushed(model, snapshot, level, entries).value is Ok,
    ensures
        ({
            let flushed = level_flushed(model, snapshot, level, entries);
            let (after, parent) = flushed.value->Ok_0;
            &&& kept_alike(model, flushed.model)
            &&& after.id == snapshot.id
            &&& after.root == snapshot.root
            &&& child_page(flushed.model, snapshot.id, parent@, level + 1) matches Some(page)
                && entries_of(page) == views(entries)
        }),
{
    let make = node_maker(snapshot.id, level as u8, entries);
    node_made(snapshot.id, level as u8, entries, model.layout);
    page_is_appended(model, snapshot, make);
    let step = page_appended(model, snapshot, make);
    let after = step.value->Ok_0;
    assert(kept_alike(model, step.model)) by {
        assert forall|block: u32|
            #![trigger step.model.load(block, PageKind::Grouped)]
            model.load(block, PageKind::Grouped) matches Ok(image) implies (step.model.load(
            block,
            PageKind::Grouped,
        ) matches Ok(same) && same_page(model.load(block, PageKind::Grouped)->Ok_0, same)) by {
            assert(kept_but(model, step.model, snapshot.tail));
        }
    }
    let page = make(after.tail)->Ok_0;
    assert(after.tail != 0) by {
        assert(page.block == after.tail);
        assert(page.check(model.layout) is Ok);
    }
    branch_leads(entries[0].key, after.tail);
    assert(entries_of(page)[0] == entries[0]@);
    assert(entry_key(page.node_entries(), 0) == entries[0].key@);
}

/// The leaf entries that the open nodes from a level on lead to, highest first.
pub open spec fn joined(
    model: StoreModel,
    id: SegmentId,
    levels: Seq<Seq<CatalogEntry>>,
    level: int,
) -> Option<Seq<EntryModel>>
    decreases 8 - level,
{
    if level >= 8 {
        Some(Seq::empty())
    } else {
        match joined(model, id, levels, level + 1) {
            None => None,
            Some(front) => match under(model, id, views(levels[level]), level) {
                None => None,
                Some(back) => Some(front + back),
            },
        }
    }
}

/// What open nodes lead to depends on those nodes, and stays where the pages do.
pub(crate) proof fn joined_kept(
    before: StoreModel,
    after: StoreModel,
    id: SegmentId,
    levels: Seq<Seq<CatalogEntry>>,
    others: Seq<Seq<CatalogEntry>>,
    level: int,
)
    requires
        kept_alike(before, after),
        joined(before, id, levels, level) is Some,
        forall|i: int| level <= i < 8 ==> #[trigger] others[i] == levels[i],
    ensures
        joined(after, id, others, level) == joined(before, id, levels, level),
    decreases 8 - level,
{
    if level < 8 {
        assert(others[level] == levels[level]);
        joined_kept(before, after, id, levels, others, level + 1);
        under_kept(before, after, id, views(levels[level]), level);
    }
}

pub(crate) proof fn alike_itself(model: StoreModel)
    ensures
        kept_alike(model, model),
{
}

/// Adding an entry to a level adds what it leads to.
#[verifier::rlimit(80)]
#[verifier::spinoff_prover]
proof fn adding_lists(
    model: StoreModel,
    snapshot: GroupSnapshot,
    levels: Seq<Seq<CatalogEntry>>,
    level: int,
    entry: CatalogEntry,
)
    requires
        snapshot.id.get() != 0,
        levels.len() == 8,
        0 <= level,
        joined(model, snapshot.id, levels, level) is Some,
        under(model, snapshot.id, seq![entry@], level) is Some,
        entry_added(model, snapshot, levels, level, entry).value is Ok,
    ensures
        ({
            let added = entry_added(model, snapshot, levels, level, entry);
            let (after, more) = added.value->Ok_0;
            &&& kept_alike(model, added.model)
            &&& after.id == snapshot.id
            &&& after.root == snapshot.root
            &&& more.len() == 8
            &&& forall|i: int| 0 <= i < level ==> #[trigger] more[i] == levels[i]
            &&& joined(added.model, snapshot.id, more, level) == Some(
                joined(model, snapshot.id, levels, level)->Some_0 + under(
                    model,
                    snapshot.id,
                    seq![entry@],
                    level,
                )->Some_0,
            )
        }),
    decreases 8 - level,
{
    let id = snapshot.id;
    let added = entry_added(model, snapshot, levels, level, entry);
    let (after, more) = added.value->Ok_0;
    let filled = levels[level].push(entry);
    let front = joined(model, id, levels, level + 1)->Some_0;
    let back = under(model, id, views(levels[level]), level)->Some_0;
    let next = under(model, id, seq![entry@], level)->Some_0;
    assert(views(filled) =~= views(levels[level]).push(entry@));
    under_push(model, id, views(levels[level]), level, entry@);
    assert((front + back) + next =~= front + (back + next));
    if filled.len() != 101 {
        alike_itself(model);
        joined_kept(model, model, id, levels, more, level + 1);
    } else {
        let flushed = level_flushed(model, snapshot, level, filled);
        let (middle, parent) = flushed.value->Ok_0;
        let emptied = levels.update(level, Seq::empty());
        node_reached(model, snapshot, level, filled);
        let page = child_page(flushed.model, id, parent@, level + 1)->Some_0;
        let one = seq![parent@];
        under_kept(model, flushed.model, id, views(filled), level);
        assert(one.drop_last() =~= Seq::empty());
        assert(one.last() == parent@);
        assert(under(flushed.model, id, one.drop_last(), level + 1) == Some(
            Seq::<EntryModel>::empty(),
        ));
        assert(Seq::<EntryModel>::empty() + (back + next) =~= back + next);
        assert(under(flushed.model, id, one, level + 1) == Some(back + next));
        joined_kept(model, flushed.model, id, levels, emptied, level + 1);
        adding_lists(flushed.model, middle, emptied, level + 1, parent);
        alike_joins(model, flushed.model, added.model);
        assert(more[level] == emptied[level]);
        assert(views(more[level]) =~= Seq::empty());
        assert(under(added.model, id, views(more[level]), level) == Some(
            Seq::<EntryModel>::empty(),
        ));
        assert((front + (back + next)) + Seq::<EntryModel>::empty() =~= front + (back + next));
    }
}

/// The entries of a catalog under construction, in order.
pub open spec fn pushed(model: StoreModel, id: SegmentId, builder: BuilderModel) -> Option<
    Seq<EntryModel>,
> {
    joined(model, id, builder.levels, 0)
}

/// Whether a catalog under construction lists entries whose keys ascend up to the
/// last one.
pub open spec fn grows(model: StoreModel, id: SegmentId, builder: BuilderModel) -> bool {
    &&& builder.levels.len() == 8
    &&& pushed(model, id, builder) matches Some(list) && list_ascends(list) && builder.previous
        == if list.len() == 0 {
        None
    } else {
        Some(list.last().key)
    }
}

/// A catalog without entries lists nothing.
pub proof fn fresh_catalogs_are_empty(model: StoreModel, id: SegmentId)
    ensures
        pushed(model, id, BuilderModel::fresh()) == Some(Seq::<EntryModel>::empty()),
        grows(model, id, BuilderModel::fresh()),
{
    fresh_from(model, id, 0);
}

proof fn fresh_from(model: StoreModel, id: SegmentId, level: int)
    requires
        0 <= level,
    ensures
        joined(model, id, BuilderModel::fresh().levels, level) == Some(Seq::<EntryModel>::empty()),
    decreases 8 - level,
{
    if level < 8 {
        fresh_from(model, id, level + 1);
        assert(views(BuilderModel::fresh().levels[level]) =~= Seq::empty());
        assert(Seq::<EntryModel>::empty() + Seq::<EntryModel>::empty() =~= Seq::empty());
    }
}

/// A catalog grows by the entry that is pushed, behind all others, and keeps what
/// the segment holds.
pub proof fn catalogs_grow(
    model: StoreModel,
    snapshot: GroupSnapshot,
    builder: BuilderModel,
    entry: CatalogEntry,
)
    requires
        snapshot.id.get() != 0,
        grows(model, snapshot.id, builder),
        entry_pushed(model, snapshot, builder, entry).value is Ok,
    ensures
        ({
            let step = entry_pushed(model, snapshot, builder, entry);
            let (after, more) = step.value->Ok_0;
            let list = pushed(model, snapshot.id, builder)->Some_0;
            &&& pushed(step.model, snapshot.id, more) == Some(list.push(entry@))
            &&& grows(step.model, snapshot.id, more)
            &&& after.id == snapshot.id
            &&& after.root == snapshot.root
            &&& kept_alike(model, step.model)
        }),
{
    let list = pushed(model, snapshot.id, builder)->Some_0;
    adding_lists(model, snapshot, builder.levels, 0, entry);
    assert(list.push(entry@) =~= list + seq![entry@]);
    assert forall|i: int, j: int| 0 <= i < j < list.push(entry@).len() implies key_before(
        (#[trigger] list.push(entry@)[i]).key,
        (#[trigger] list.push(entry@)[j]).key,
    ) by {
        if j == list.len() {
            assert(key_before(list.last().key, entry@.key));
            if i < list.len() - 1 {
                assert(key_before(list[i].key, list[list.len() - 1].key));
            }
        }
    }
    assert(list.push(entry@).last() == entry@);
}

/// Open nodes that hold nothing lead to nothing.
proof fn unused_above(
    model: StoreModel,
    id: SegmentId,
    levels: Seq<Seq<CatalogEntry>>,
    level: int,
    from: int,
)
    requires
        levels.len() == 8,
        level < from,
        !higher_used(levels, level),
    ensures
        joined(model, id, levels, from) == Some(Seq::<EntryModel>::empty()),
    decreases 8 - from,
{
    if from < 8 {
        unused_above(model, id, levels, level, from + 1);
        assert(levels[from].len() == 0);
        assert(views(levels[from]) =~= Seq::empty());
        assert(Seq::<EntryModel>::empty() + Seq::<EntryModel>::empty() =~= Seq::empty());
    }
}

/// A node that one entry leads to lists what the entry leads to.
proof fn rooted_lists(model: StoreModel, id: SegmentId, entry: EntryModel, level: int)
    requires
        level > 0,
        under(model, id, seq![entry], level) is Some,
    ensures
        child_of(entry) matches Ok(root) && catalog_list(model, id, root) == under(
            model,
            id,
            seq![entry],
            level,
        ),
{
    let one = seq![entry];
    assert(one.drop_last() =~= Seq::empty());
    assert(one.last() == entry);
    let page = child_page(model, id, entry, level)->Some_0;
    let below = under(model, id, entries_of(page), level - 1)->Some_0;
    assert(under(model, id, one.drop_last(), level) == Some(Seq::<EntryModel>::empty()));
    assert(Seq::<EntryModel>::empty() + below =~= below);
}

#[verifier::rlimit(80)]
#[verifier::spinoff_prover]
proof fn finishing_lists(
    model: StoreModel,
    snapshot: GroupSnapshot,
    levels: Seq<Seq<CatalogEntry>>,
    level: int,
)
    requires
        snapshot.id.get() != 0,
        snapshot.root == NO_BLOCK,
        levels.len() == 8,
        0 <= level,
        joined(model, snapshot.id, levels, level) is Some,
        levels_finished(model, snapshot, levels, level).value is Ok,
    ensures
        ({
            let finished = levels_finished(model, snapshot, levels, level);
            let after = finished.value->Ok_0;
            &&& after.id == snapshot.id
            &&& kept_alike(model, finished.model)
            &&& catalog_list(finished.model, after.id, after.root) == joined(
                model,
                snapshot.id,
                levels,
                level,
            )
        }),
    decreases 8 - level,
{
    let id = snapshot.id;
    let finished = levels_finished(model, snapshot, levels, level);
    alike_itself(model);
    if level < 8 {
        let front = joined(model, id, levels, level + 1)->Some_0;
        let back = under(model, id, views(levels[level]), level)->Some_0;
        if levels[level].len() == 0 {
            assert(views(levels[level]) =~= Seq::empty());
            assert(front + Seq::<EntryModel>::empty() =~= front);
            finishing_lists(model, snapshot, levels, level + 1);
        } else if level > 0 && levels[level].len() == 1 && !higher_used(levels, level) {
            unused_above(model, id, levels, level, level + 1);
            assert(front + back =~= back);
            assert(views(levels[level]) =~= seq![levels[level][0]@]);
            rooted_lists(model, id, levels[level][0]@, level);
        } else {
            let flushed = level_flushed(model, snapshot, level, levels[level]);
            let (middle, parent) = flushed.value->Ok_0;
            node_reached(model, snapshot, level, levels[level]);
            let page = child_page(flushed.model, id, parent@, level + 1)->Some_0;
            let one = seq![parent@];
            under_kept(model, flushed.model, id, views(levels[level]), level);
            assert(one.drop_last() =~= Seq::empty());
            assert(one.last() == parent@);
            assert(under(flushed.model, id, one.drop_last(), level + 1) == Some(
                Seq::<EntryModel>::empty(),
            ));
            assert(Seq::<EntryModel>::empty() + back =~= back);
            assert(under(flushed.model, id, one, level + 1) == Some(back));
            if !higher_used(levels, level) {
                unused_above(model, id, levels, level, level + 1);
                assert(front + back =~= back);
                rooted_lists(flushed.model, id, parent@, level + 1);
            } else {
                let emptied = levels.update(level, Seq::empty());
                joined_kept(model, flushed.model, id, levels, emptied, level + 1);
                adding_lists(flushed.model, middle, emptied, level + 1, parent);
                let added = entry_added(flushed.model, middle, emptied, level + 1, parent);
                let (after, more) = added.value->Ok_0;
                finishing_lists(added.model, after, more, level + 1);
                alike_joins(model, flushed.model, added.model);
                alike_joins(model, added.model, finished.model);
            }
        }
    }
}

/// A finished catalog lists the entries that were pushed, in order.
pub proof fn finished_catalogs_list_entries(
    model: StoreModel,
    snapshot: GroupSnapshot,
    builder: BuilderModel,
)
    requires
        snapshot.id.get() != 0,
        snapshot.root == NO_BLOCK,
        grows(model, snapshot.id, builder),
        levels_finished(model, snapshot, builder.levels, 0).value is Ok,
    ensures
        ({
            let finished = levels_finished(model, snapshot, builder.levels, 0);
            let after = finished.value->Ok_0;
            &&& after.id == snapshot.id
            &&& catalog_list(finished.model, after.id, after.root) == pushed(
                model,
                snapshot.id,
                builder,
            )
            &&& kept_alike(model, finished.model)
        }),
{
    finishing_lists(model, snapshot, builder.levels, 0);
}

/// Writing a record between two entries keeps what the catalog lists.
pub proof fn records_keep_catalogs(
    model: StoreModel,
    snapshot: GroupSnapshot,
    builder: BuilderModel,
    kind: GroupPageKind,
    key: Seq<u64>,
    bytes: Seq<u8>,
)
    requires
        snapshot.id.get() != 0,
        key.len() == 2,
        grows(model, snapshot.id, builder),
        record_written(model, snapshot, kind, key, bytes).value is Ok,
    ensures
        ({
            let written = record_written(model, snapshot, kind, key, bytes);
            &&& written.value->Ok_0.0.id == snapshot.id
            &&& written.value->Ok_0.0.root == snapshot.root
            &&& kept_alike(model, written.model)
            &&& grows(written.model, snapshot.id, builder)
            &&& pushed(written.model, snapshot.id, builder) == pushed(model, snapshot.id, builder)
        }),
{
    let none = Seq::<u32>::empty();
    let written = pieces_written(model, snapshot, kind, key, bytes, 0, none);
    pieces_chained(model, snapshot, kind, key, bytes, 0, none);
    assert forall|block: u32|
        #![trigger written.model.load(block, PageKind::Grouped)]
        model.load(block, PageKind::Grouped) matches Ok(image) implies (written.model.load(
        block,
        PageKind::Grouped,
    ) matches Ok(same) && same_page(model.load(block, PageKind::Grouped)->Ok_0, same)) by {
        assert(kept_but(model, written.model, snapshot.tail));
    }
    joined_kept(model, written.model, snapshot.id, builder.levels, builder.levels, 0);
}

/// A record reads as it did where the pages do.
pub(crate) proof fn pieces_stay(
    before: StoreModel,
    after: StoreModel,
    snapshot: GroupSnapshot,
    kind: GroupPageKind,
    key: Seq<u64>,
    block: u32,
    total: int,
    index: int,
    expected: Option<Seq<u32>>,
)
    requires
        kept_alike(before, after),
        before.pages.len() <= NO_BLOCK,
        0 <= index,
        pieces_read(before, snapshot, kind, key, block, total, index, expected) is Ok,
    ensures
        pieces_read(after, snapshot, kind, key, block, total, index, expected) == pieces_read(
            before,
            snapshot,
            kind,
            key,
            block,
            total,
            index,
            expected,
        ),
    decreases total - index,
{
    if index * 8112 < total {
        let page = before.load(block, PageKind::Grouped)->Ok_0;
        let same = after.load(block, PageKind::Grouped)->Ok_0;
        assert(same_page(page, same));
        let next = page.next()->Ok_0;
        if (index + 1) * 8112 < total {
            assert(pieces_read(before, snapshot, kind, key, next, total, index + 1, expected) is Ok);
            assert(before.load(next, PageKind::Grouped) is Ok);
            assert(next != NO_BLOCK);
            pieces_stay(before, after, snapshot, kind, key, next, total, index + 1, expected);
        } else {
            assert(pieces_read(before, snapshot, kind, key, next, total, index + 1, expected) == Ok::<
                Seq<u8>,
                Error,
            >(Seq::empty()));
            assert(pieces_read(
                after,
                snapshot,
                kind,
                key,
                same.next()->Ok_0,
                total,
                index + 1,
                expected,
            ) == Ok::<Seq<u8>, Error>(Seq::empty()));
        }
    }
}

/// Reading a record depends on the segment alone.
pub(crate) proof fn pieces_by_segment(
    model: StoreModel,
    left: GroupSnapshot,
    right: GroupSnapshot,
    kind: GroupPageKind,
    key: Seq<u64>,
    block: u32,
    total: int,
    index: int,
    expected: Option<Seq<u32>>,
)
    requires
        left.id == right.id,
    ensures
        pieces_read(model, left, kind, key, block, total, index, expected) == pieces_read(
            model,
            right,
            kind,
            key,
            block,
            total,
            index,
            expected,
        ),
    decreases total - index,
{
    if 0 <= index && index * 8112 < total {
        if let Ok(page) = model.load(block, PageKind::Grouped) {
            if let Ok(next) = page.next() {
                pieces_by_segment(model, left, right, kind, key, next, total, index + 1, expected);
            }
        }
    }
}

/// Whether a record reads back by the blocks that an entry gives, which also has
/// the size, the pages and the members of the record.
pub open spec fn leads_to(
    model: StoreModel,
    snapshot: GroupSnapshot,
    entry: EntryModel,
    kind: GroupPageKind,
    bytes: Seq<u8>,
    members: Option<(u32, int)>,
    blocks: Seq<u32>,
) -> bool {
    let pages = bitmap_at(bytes)->Ok_0.mask;
    &&& blocks.len() == 3
    &&& entry.value == (match members {
        None => posting_value(bytes.len() as int, blocks, pages),
        Some((head, count)) => liveness_value(bytes.len() as int, blocks, pages, head, count),
    }).code()
    &&& pieces_read(
        model,
        snapshot,
        kind,
        entry.key,
        blocks[0],
        bytes.len() as int,
        0,
        Some(blocks),
    ) == Ok::<Seq<u8>, Error>(bytes)
}

/// A record that was cataloged is listed last, under its key, and reads back by
/// what its entry says.
#[verifier::rlimit(60)]
#[verifier::spinoff_prover]
pub proof fn cataloged_records_are_found(
    before: (StoreModel, GroupSnapshot, BuilderModel),
    after: (StoreModel, GroupSnapshot, BuilderModel),
    kind: GroupPageKind,
    key: [u64; 2],
    bytes: Seq<u8>,
    members: Option<(u32, int)>,
)
    requires
        before.1.id.get() != 0,
        before.0.pages.len() <= NO_BLOCK,
        bytes.len() <= BITMAP_BYTES,
        grows(before.0, before.1.id, before.2),
        record_cataloged(before, after, kind, key, bytes, members),
    ensures
        grows(after.0, before.1.id, after.2),
        kept_alike(before.0, after.0),
        after.1.id == before.1.id,
        after.1.root == before.1.root,
        ({
            let list = pushed(before.0, before.1.id, before.2)->Some_0;
            let more = pushed(after.0, before.1.id, after.2)->Some_0;
            &&& more.len() == list.len() + 1
            &&& more.drop_last() == list
            &&& more.last().key == key@
            &&& exists|blocks: Seq<u32>| #[trigger]
                leads_to(after.0, after.1, more.last(), kind, bytes, members, blocks)
        }),
{
    let id = before.1.id;
    let written = record_written(before.0, before.1, kind, key@, bytes);
    let (snapshot, head, blocks) = written.value->Ok_0;
    let pages = bitmap_at(bytes)->Ok_0.mask;
    let value = match members {
        None => posting_value(bytes.len() as int, blocks, pages),
        Some((first, count)) => liveness_value(bytes.len() as int, blocks, pages, first, count),
    };
    let entry = choose|entry: CatalogEntry|
        #![trigger entry_pushed(written.model, snapshot, before.2, entry)]
        {
            &&& entry.key == key
            &&& entry.value@ == value.code()
            &&& entry_pushed(written.model, snapshot, before.2, entry) == Change::made(
                after.0,
                (after.1, after.2),
            )
        };
    records_keep_catalogs(before.0, before.1, before.2, kind, key@, bytes);
    records_read_back(before.0, before.1, kind, key@, bytes);
    catalogs_grow(written.model, snapshot, before.2, entry);
    alike_joins(before.0, written.model, after.0);
    let list = pushed(before.0, id, before.2)->Some_0;
    let more = pushed(after.0, id, after.2)->Some_0;
    assert(more == list.push(entry@));
    assert(more.drop_last() =~= list);
    let total = bytes.len() as int;
    pieces_stay(written.model, after.0, snapshot, kind, key@, head, total, 0, Some(blocks));
    pieces_by_segment(after.0, snapshot, after.1, kind, key@, head, total, 0, Some(blocks));
    assert(leads_to(after.0, after.1, more.last(), kind, bytes, members, blocks));
}

} // verus!
