//! Building, publishing and reclaiming grouped segments leaves every canonical
//! page as it is: owners, dictionaries, postings, payloads and extent maps.

use crate::codec::bytes::group_bytes;
use crate::error::Result;
use crate::identity::group_identity;
use crate::mutable::grouped::builder::{
    entry_added, entry_pushed, higher_used, level_flushed, levels_finished, node_maker,
    BuilderModel,
};
use crate::mutable::grouped::journal::{
    group_begun, group_recovered, journal_discarded, journal_step, page_appended, page_attached,
    retired_reclaimed, retired_step, slot_taken, grouped_pages,
};
use crate::mutable::grouped::publish::snapshot_published;
use crate::mutable::grouped::records::{
    pieces_written, record_maker, record_piece, record_written,
};
use crate::mutable::page::model::Image;
use crate::mutable::page::{CatalogEntry, GroupPageKind, GroupSnapshot, OwnerRef, PageKind};
use crate::mutable::store::StoreModel;
use vstd::prelude::*;

verus! {

broadcast use {group_bytes, group_identity};

/// Whether a page holds what documents and searches are made of.
pub open spec fn canonical(kind: PageKind) -> bool {
    match kind {
        PageKind::Owners => true,
        PageKind::Dictionary => true,
        PageKind::Postings => true,
        PageKind::SealedPostings => true,
        PageKind::DirectPostings => true,
        PageKind::Fragment => true,
        PageKind::DocumentDirectory => true,
        _ => false,
    }
}

/// Whether every canonical page is as it was, and metadata still comes first.
pub open spec fn canonical_kept(before: StoreModel, after: StoreModel) -> bool {
    &&& after.layout == before.layout
    &&& after.pages.len() >= before.pages.len()
    &&& before.pages.len() > 0 && before.pages[0].kind == PageKind::Meta ==> after.pages[0].kind
        == PageKind::Meta
    &&& forall|i: int|
        0 <= i < before.pages.len() && canonical(before.pages[i].kind)
            ==> #[trigger] after.pages[i] == before.pages[i]
}

/// Keeping canonical pages twice is keeping them.
pub proof fn kept_joins(first: StoreModel, second: StoreModel, third: StoreModel)
    requires
        canonical_kept(first, second),
        canonical_kept(second, third),
    ensures
        canonical_kept(first, third),
{
    assert forall|i: int|
        0 <= i < first.pages.len() && canonical(
            first.pages[i].kind,
        ) implies #[trigger] third.pages[i] == first.pages[i] by {
        assert(second.pages[i] == first.pages[i]);
    }
}

/// Whether snapshots are of the same segment, cutoff and frontier.
pub open spec fn same_segment(before: GroupSnapshot, after: GroupSnapshot) -> bool {
    &&& after.id == before.id
    &&& after.after == before.after
    &&& after.frontier_root == before.frontier_root
    &&& after.frontier_valid == before.frontier_valid
}

/// Whether a page is made for its block.
pub open spec fn makes_block(make: spec_fn(u32) -> Result<Image>) -> bool {
    forall|block: u32|
        (#[trigger] make(block)) matches Ok(page) ==> page.block == block && page.kind
            == PageKind::Grouped
}

/// Appending a page to a segment keeps canonical pages.
pub proof fn appending_keeps(
    model: StoreModel,
    snapshot: GroupSnapshot,
    make: spec_fn(u32) -> Result<Image>,
)
    requires
        makes_block(make),
    ensures
        page_appended(model, snapshot, make).value is Ok ==> canonical_kept(
            model,
            page_appended(model, snapshot, make).model,
        ),
        page_appended(model, snapshot, make).value matches Ok(after) ==> same_segment(
            snapshot,
            after,
        ),
{
    reveal(page_appended);
    let taken = slot_taken(model, snapshot);
    if let Ok(slot) = taken.value {
        assert(canonical_kept(model, taken.model));
        if let Ok(page) = make(slot.block) {
            let attached = page_attached(taken.model, snapshot, slot, page);
            if attached.value is Ok {
                assert(canonical_kept(taken.model, attached.model));
                kept_joins(model, taken.model, attached.model);
            }
        }
    }
}

proof fn pieces_keep(
    model: StoreModel,
    snapshot: GroupSnapshot,
    kind: GroupPageKind,
    key: Seq<u64>,
    bytes: Seq<u8>,
    index: int,
    blocks: Seq<u32>,
)
    ensures
        pieces_written(model, snapshot, kind, key, bytes, index, blocks).value is Ok
            ==> canonical_kept(
            model,
            pieces_written(model, snapshot, kind, key, bytes, index, blocks).model,
        ),
        pieces_written(model, snapshot, kind, key, bytes, index, blocks).value matches Ok((after, _))
            ==> same_segment(snapshot, after),
    decreases bytes.len() - index,
{
    if !(index < 0 || index * 8112 >= bytes.len()) {
        let make = record_maker(
            snapshot.id,
            kind,
            key,
            bytes.len() as u32,
            (index * 8112) as u32,
            record_piece(bytes, index),
        );
        assert(makes_block(make));
        appending_keeps(model, snapshot, make);
        let step = page_appended(model, snapshot, make);
        if let Ok(after) = step.value {
            pieces_keep(step.model, after, kind, key, bytes, index + 1, blocks.push(after.tail));
            let whole = pieces_written(model, snapshot, kind, key, bytes, index, blocks);
            if whole.value is Ok {
                kept_joins(model, step.model, whole.model);
            }
        }
    }
}

/// Writing a record keeps canonical pages.
pub proof fn record_keeps(
    model: StoreModel,
    snapshot: GroupSnapshot,
    kind: GroupPageKind,
    key: Seq<u64>,
    bytes: Seq<u8>,
)
    ensures
        record_written(model, snapshot, kind, key, bytes).value is Ok ==> canonical_kept(
            model,
            record_written(model, snapshot, kind, key, bytes).model,
        ),
        record_written(model, snapshot, kind, key, bytes).value matches Ok((after, _, _))
            ==> same_segment(snapshot, after),
{
    pieces_keep(model, snapshot, kind, key, bytes, 0, Seq::empty());
}

proof fn flushing_keeps(
    model: StoreModel,
    snapshot: GroupSnapshot,
    level: int,
    entries: Seq<CatalogEntry>,
)
    ensures
        level_flushed(model, snapshot, level, entries).value is Ok ==> canonical_kept(
            model,
            level_flushed(model, snapshot, level, entries).model,
        ),
        level_flushed(model, snapshot, level, entries).value matches Ok((after, _))
            ==> same_segment(snapshot, after),
{
    let make = node_maker(snapshot.id, level as u8, entries);
    assert(makes_block(make));
    appending_keeps(model, snapshot, make);
}

proof fn adding_keeps(
    model: StoreModel,
    snapshot: GroupSnapshot,
    levels: Seq<Seq<CatalogEntry>>,
    level: int,
    entry: CatalogEntry,
)
    ensures
        entry_added(model, snapshot, levels, level, entry).value is Ok ==> canonical_kept(
            model,
            entry_added(model, snapshot, levels, level, entry).model,
        ),
        entry_added(model, snapshot, levels, level, entry).value matches Ok((after, _))
            ==> same_segment(snapshot, after),
    decreases 8 - level,
{
    if 0 <= level < 8 {
        let filled = levels[level].push(entry);
        if filled.len() == 101 {
            flushing_keeps(model, snapshot, level, filled);
            let flushed = level_flushed(model, snapshot, level, filled);
            if let Ok((after, parent)) = flushed.value {
                let rest = levels.update(level, Seq::empty());
                adding_keeps(flushed.model, after, rest, level + 1, parent);
                let whole = entry_added(model, snapshot, levels, level, entry);
                if whole.value is Ok {
                    kept_joins(model, flushed.model, whole.model);
                }
            }
        }
    }
}

/// Adding a catalog entry keeps canonical pages.
pub proof fn pushing_keeps(
    model: StoreModel,
    snapshot: GroupSnapshot,
    builder: BuilderModel,
    entry: CatalogEntry,
)
    ensures
        entry_pushed(model, snapshot, builder, entry).value is Ok ==> canonical_kept(
            model,
            entry_pushed(model, snapshot, builder, entry).model,
        ),
        entry_pushed(model, snapshot, builder, entry).value matches Ok((after, _))
            ==> same_segment(snapshot, after),
{
    adding_keeps(model, snapshot, builder.levels, 0, entry);
}

/// Finishing a catalog keeps canonical pages.
pub proof fn finishing_keeps(
    model: StoreModel,
    snapshot: GroupSnapshot,
    levels: Seq<Seq<CatalogEntry>>,
    level: int,
)
    ensures
        levels_finished(model, snapshot, levels, level).value is Ok ==> canonical_kept(
            model,
            levels_finished(model, snapshot, levels, level).model,
        ),
        levels_finished(model, snapshot, levels, level).value matches Ok(after) ==> same_segment(
            snapshot,
            after,
        ),
    decreases 8 - level,
{
    if 0 <= level < 8 {
        let whole = levels_finished(model, snapshot, levels, level);
        if levels[level].len() == 0 {
            finishing_keeps(model, snapshot, levels, level + 1);
        } else if !(level > 0 && levels[level].len() == 1 && !higher_used(levels, level)) {
            flushing_keeps(model, snapshot, level, levels[level]);
            let flushed = level_flushed(model, snapshot, level, levels[level]);
            if let Ok((after, parent)) = flushed.value {
                if higher_used(levels, level) {
                    let rest = levels.update(level, Seq::empty());
                    adding_keeps(flushed.model, after, rest, level + 1, parent);
                    let added = entry_added(flushed.model, after, rest, level + 1, parent);
                    if let Ok((later, more)) = added.value {
                        finishing_keeps(added.model, later, more, level + 1);
                        if whole.value is Ok {
                            kept_joins(model, flushed.model, added.model);
                            kept_joins(model, added.model, whole.model);
                        }
                    }
                }
            }
        }
    }
}

proof fn step_keeps(model: StoreModel, reclaimed: u32)
    ensures
        journal_step(model, reclaimed).value is Ok ==> canonical_kept(
            model,
            journal_step(model, reclaimed).model,
        ),
        retired_step(model, reclaimed).value is Ok ==> canonical_kept(
            model,
            retired_step(model, reclaimed).model,
        ),
{
}

proof fn discarding_keeps(model: StoreModel, reclaimed: u32)
    ensures
        journal_discarded(model, reclaimed).value is Ok ==> canonical_kept(
            model,
            journal_discarded(model, reclaimed).model,
        ),
    decreases grouped_pages(model.pages),
{
    step_keeps(model, reclaimed);
    let step = journal_step(model, reclaimed);
    if let Ok((count, more)) = step.value {
        if more && grouped_pages(step.model.pages) < grouped_pages(model.pages) {
            discarding_keeps(step.model, count);
            let whole = journal_discarded(model, reclaimed);
            if whole.value is Ok {
                kept_joins(model, step.model, whole.model);
            }
        }
    }
}

proof fn reclaiming_keeps(model: StoreModel, reclaimed: u32)
    ensures
        retired_reclaimed(model, reclaimed).value is Ok ==> canonical_kept(
            model,
            retired_reclaimed(model, reclaimed).model,
        ),
    decreases grouped_pages(model.pages),
{
    step_keeps(model, reclaimed);
    let step = retired_step(model, reclaimed);
    if let Ok((count, more)) = step.value {
        if more && grouped_pages(step.model.pages) < grouped_pages(model.pages) {
            reclaiming_keeps(step.model, count);
            let whole = retired_reclaimed(model, reclaimed);
            if whole.value is Ok {
                kept_joins(model, step.model, whole.model);
            }
        }
    }
}

/// Reclaiming grouped segments keeps canonical pages.
pub proof fn recovery_keeps(model: StoreModel)
    ensures
        group_recovered(model).value is Ok ==> canonical_kept(model, group_recovered(model).model),
{
    discarding_keeps(model, 0);
    let discarded = journal_discarded(model, 0);
    if let Ok(count) = discarded.value {
        reclaiming_keeps(discarded.model, count);
        if group_recovered(model).value is Ok {
            kept_joins(model, discarded.model, group_recovered(model).model);
        }
    }
}

/// Starting a segment keeps canonical pages.
pub proof fn beginning_keeps(model: StoreModel, after: Option<OwnerRef>)
    ensures
        group_begun(model, after).value is Ok ==> canonical_kept(
            model,
            group_begun(model, after).model,
        ),
{
    recovery_keeps(model);
    let recovered = group_recovered(model);
    if group_begun(model, after).value is Ok {
        assert(canonical_kept(recovered.model, group_begun(model, after).model));
        kept_joins(model, recovered.model, group_begun(model, after).model);
    }
}

/// Publishing a snapshot keeps canonical pages.
pub proof fn publishing_keeps(model: StoreModel, snapshot: GroupSnapshot)
    ensures
        snapshot_published(model, snapshot).value is Ok ==> canonical_kept(
            model,
            snapshot_published(model, snapshot).model,
        ),
{
    let published = snapshot_published(model, snapshot);
    if published.value is Ok {
        let meta = model.load(0, PageKind::Meta)->Ok_0;
        let state = meta.grouped_state()->Ok_0;
        let after = meta.with_group_state(
            crate::mutable::grouped::publish::replaced_state(state, snapshot),
        )->Ok_0;
        let middle = model.put(after);
        assert(canonical_kept(model, middle));
        recovery_keeps(middle);
        kept_joins(model, middle, published.model);
    }
}

} // verus!
