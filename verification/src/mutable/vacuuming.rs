//! What a vacuum keeps and leaves: the owners that it was not allowed to remove,
//! with their payloads, and nothing for another one to do.

use crate::codec::bytes::{group_bytes, le_u32};
use crate::codec::records::Publication;
use crate::error::Error;
use crate::identity::{group_identity, HeapLayout, RootTid};
use crate::mutable::compact::{owners_kept, owners_kept_joins, recovered};
use crate::mutable::laws::{fields_kept, owners_check_kept};
use crate::mutable::page::laws::changed_owner_reads_back;
use crate::mutable::page::laws_link::{link_keeps, same_body, same_body_owner};
use crate::mutable::page::model::{owner_step, Image};
use crate::mutable::page::{OwnerModel, OwnerRef, PageKind, NO_BLOCK};
use crate::mutable::reader::searchable;
use crate::mutable::recovery::{recovery_lists, tidy};
use crate::mutable::roster::{all_owners, records, records_alike, roster, roster_kept};
use crate::mutable::store::{following_of, stored, StoreModel};
use crate::mutable::vacuum::{
    freed_and_counted, owner_fate, owners_judged, page_judged, page_swept, pages_swept, vacuumed,
    with_owner, zeros_freed, VacuumStats,
};
use vstd::prelude::*;

verus! {

broadcast use {group_bytes, group_identity};

/// Judging a page leaves it sound, and the owners that stay as they were.
proof fn judging_keeps_owner(
    image: Image,
    slot: int,
    count: int,
    layout: HeapLayout,
    removes: spec_fn(RootTid) -> bool,
    changed: bool,
    stats: VacuumStats,
    other: u16,
)
    requires
        0 <= slot,
        image.kind == PageKind::Owners,
        image.check(layout) is Ok,
        page_judged(image, slot, count, layout, removes, changed, stats) is Ok,
    ensures
        ({
            let after = page_judged(image, slot, count, layout, removes, changed, stats)->Ok_0.0;
            &&& after.kind == image.kind
            &&& after.block == image.block
            &&& after.bytes.len() == image.bytes.len()
            &&& after.check(layout) is Ok
            &&& (image.owner(other, layout) is Ok && owner_fate(
                image.owner(other, layout)->Ok_0,
                removes,
            ) is None) ==> after.owner(other, layout) == image.owner(other, layout)
        }),
    decreases count - slot,
{
    if slot < count {
        let owner = image.owner(slot as u16, layout)->Ok_0;
        let next = with_owner(stats, owner, removes);
        match owner_fate(owner, removes) {
            None => {
                judging_keeps_owner(image, slot + 1, count, layout, removes, changed, next, other);
            },
            Some(change) => {
                let reference = owner.reference;
                let after = image.changed_owner(reference, change, layout)->Ok_0;
                let total = image.owner_count()->Ok_0;
                changed_owner_reads_back(image, reference, change, layout, other);
                fields_kept(image, reference, change, layout, 12, 0);
                owners_check_kept(image, reference, change, layout, 0, 20 + total * 40);
                judging_keeps_owner(after, slot + 1, count, layout, removes, true, next, other);
            },
        }
    }
}

/// Whether pages that hold no owners stay.
pub open spec fn others_kept(before: StoreModel, after: StoreModel) -> bool {
    &&& after.layout == before.layout
    &&& after.pages.len() == before.pages.len()
    &&& forall|p: int|
        0 <= p < before.pages.len() && before.pages[p].kind != PageKind::Owners
            ==> #[trigger] after.pages[p] == before.pages[p]
}

/// Judging all owners leaves those that stay, and all pages without owners.
proof fn judging_keeps_stored(
    model: StoreModel,
    block: u32,
    tail: u32,
    removes: spec_fn(RootTid) -> bool,
    stats: VacuumStats,
    r: OwnerRef,
)
    requires
        owners_judged(model, block, tail, removes, stats).value is Ok,
        model.owner_of(r) matches Ok(owner) && owner_fate(owner, removes) is None,
    ensures
        ({
            let after = owners_judged(model, block, tail, removes, stats).model;
            &&& after.owner_of(r) == model.owner_of(r)
            &&& others_kept(model, after)
        }),
    decreases tail - block,
{
    let layout = model.layout;
    let image = model.load(block, PageKind::Owners)->Ok_0;
    assert(image == model.pages[block as int]);
    let count = image.owner_count()->Ok_0 as int;
    let (judged, changed, more) = page_judged(
        image,
        0,
        count,
        layout,
        removes,
        false,
        stats,
    )->Ok_0;
    judging_keeps_owner(image, 0, count, layout, removes, false, stats, r.slot);
    let next_model = if changed {
        model.put(judged)
    } else {
        model
    };
    if changed {
        let kept = stored(judged);
        assert(same_body(judged, kept));
        link_keeps(judged, kept, layout);
        same_body_owner(judged, kept, r.slot, layout);
        assert(next_model.pages[block as int] == kept);
        if r.page != block {
            assert(next_model.load(r.page, PageKind::Owners) == model.load(
                r.page,
                PageKind::Owners,
            ));
        }
    }
    assert(next_model.owner_of(r) == model.owner_of(r));
    assert(others_kept(model, next_model));
    if let Some(next) = following_of(judged, tail)->Ok_0 {
        if block < next <= tail {
            judging_keeps_stored(next_model, next, tail, removes, more, r);
            let after = owners_judged(next_model, next, tail, removes, more).model;
            assert forall|p: int|
                0 <= p < model.pages.len() && model.pages[p].kind
                    != PageKind::Owners implies #[trigger] after.pages[p] == model.pages[p] by {
                assert(next_model.pages[p] == model.pages[p]);
            }
        }
    }
}

/// Whether a page is a piece of the payload of an owner.
pub open spec fn piece_of(image: Image, r: OwnerRef) -> bool {
    image.fragment_data() matches Ok((reference, _, _)) && reference == r
}

/// Whether owner pages and the pieces of an owner's payload stay.
pub open spec fn payload_kept(before: StoreModel, after: StoreModel, r: OwnerRef) -> bool {
    &&& owners_kept(before, after)
    &&& after.pages.len() == before.pages.len()
    &&& forall|p: int|
        0 <= p < before.pages.len() && piece_of(before.pages[p], r) ==> #[trigger] after.pages[p]
            == before.pages[p]
}

proof fn payload_joins(first: StoreModel, second: StoreModel, third: StoreModel, r: OwnerRef)
    requires
        payload_kept(first, second, r),
        payload_kept(second, third, r),
    ensures
        payload_kept(first, third, r),
{
    owners_kept_joins(first, second, third);
    assert forall|p: int|
        0 <= p < first.pages.len() && piece_of(first.pages[p], r) implies #[trigger] third.pages[p]
        == first.pages[p] by {
        assert(second.pages[p] == first.pages[p]);
    }
}

/// An owner resolves alike where owner pages stay.
proof fn owner_stays(before: StoreModel, after: StoreModel, r: OwnerRef)
    requires
        owners_kept(before, after),
        before.owner_of(r) is Ok,
    ensures
        after.owner_of(r) == before.owner_of(r),
{
    assert(after.pages[r.page as int] == before.pages[r.page as int]);
    assert(after.load(r.page, PageKind::Owners) == before.load(r.page, PageKind::Owners));
}

/// Whether the metadata stands on the first page.
pub open spec fn metadata_first(model: StoreModel, meta: Image) -> bool {
    &&& model.pages.len() > 0
    &&& model.pages[0].kind == PageKind::Meta
    &&& meta.kind == PageKind::Meta
    &&& meta.block == 0
}

/// Sweeping leaves owners, and the payload of one that is searchable.
proof fn sweeping_keeps(
    model: StoreModel,
    meta: Image,
    block: int,
    pages: int,
    stats: VacuumStats,
    zero: bool,
    r: OwnerRef,
)
    requires
        metadata_first(model, meta),
        1 <= block,
        pages <= u32::MAX,
        pages_swept(model, meta, block, pages, stats, zero).value is Ok,
        model.owner_of(r) matches Ok(owner) && searchable(owner),
    ensures
        ({
            let step = pages_swept(model, meta, block, pages, stats, zero);
            &&& payload_kept(model, step.model, r)
            &&& metadata_first(step.model, step.value->Ok_0.meta)
        }),
    decreases pages - block,
{
    if block < pages {
        let step = page_swept(model, meta, block as u32, stats, zero);
        let sweep = step.value->Ok_0;
        assert(payload_kept(model, step.model, r));
        owner_stays(model, step.model, r);
        sweeping_keeps(
            step.model,
            sweep.meta,
            block + 1,
            pages,
            sweep.stats,
            sweep.zero,
            r,
        );
        let end = pages_swept(
            step.model,
            sweep.meta,
            block + 1,
            pages,
            sweep.stats,
            sweep.zero,
        ).model;
        payload_joins(model, step.model, end, r);
    }
}

/// Freeing pages that were never written leaves owners and payloads.
proof fn zeros_keep(
    model: StoreModel,
    meta: Image,
    block: int,
    pages: int,
    stats: VacuumStats,
    r: OwnerRef,
)
    requires
        metadata_first(model, meta),
        1 <= block,
        pages <= u32::MAX,
        zeros_freed(model, meta, block, pages, stats).value is Ok,
    ensures
        payload_kept(model, zeros_freed(model, meta, block, pages, stats).model, r),
    decreases pages - block,
{
    if block < pages {
        let page = model.load_any(block as u32)->Ok_0;
        if page.kind != PageKind::Zero {
            zeros_keep(model, meta, block + 1, pages, stats, r);
        } else {
            let step = freed_and_counted(model, meta, block as u32, true, stats, true);
            let sweep = step.value->Ok_0;
            assert(payload_kept(model, step.model, r));
            zeros_keep(step.model, sweep.meta, block + 1, pages, sweep.stats, r);
            let end = zeros_freed(step.model, sweep.meta, block + 1, pages, sweep.stats).model;
            payload_joins(model, step.model, end, r);
        }
    }
}

/// A vacuum keeps every searchable owner whose removal was not approved: its
/// record, and each stored piece of its payload.
pub proof fn vacuum_keeps_unapproved(
    model: StoreModel,
    removes: spec_fn(RootTid) -> bool,
    r: OwnerRef,
)
    requires
        vacuumed(model, removes).value is Ok,
        recovered(model).model.owner_of(r) matches Ok(owner) && (searchable(owner) && !removes(
            owner.root,
        )),
        recovered(model).model.pages.len() <= u32::MAX,
    ensures
        ({
            let ready = recovered(model).model;
            let after = vacuumed(model, removes).model;
            &&& after.owner_of(r) == ready.owner_of(r)
            &&& forall|p: int|
                0 <= p < ready.pages.len() && piece_of(ready.pages[p], r)
                    ==> #[trigger] after.pages[p] == ready.pages[p]
        }),
{
    let ready = recovered(model).model;
    let count = recovered(model).value->Ok_0;
    let meta = ready.load(0, PageKind::Meta)->Ok_0;
    let (head, tail) = meta.owner_chain()->Ok_0;
    let begun = crate::mutable::vacuum::vacuum_begun(count);
    let judged = if head == NO_BLOCK {
        ready
    } else {
        owners_judged(ready, head, tail, removes, begun).model
    };
    let stats = if head == NO_BLOCK {
        begun
    } else {
        owners_judged(ready, head, tail, removes, begun).value->Ok_0
    };
    if head != NO_BLOCK {
        judging_keeps_stored(ready, head, tail, removes, begun, r);
    }
    assert(judged.pages[0] == ready.pages[0]);
    let pages = judged.pages.len() as u32;
    let counted = VacuumStats { pages, ..stats };
    sweeping_keeps(judged, meta, 1, pages as int, counted, false, r);
    let swept = pages_swept(judged, meta, 1, pages as int, counted, false);
    let sweep = swept.value->Ok_0;
    let after = vacuumed(model, removes).model;
    if sweep.zero {
        zeros_keep(swept.model, sweep.meta, 1, pages as int, sweep.stats, r);
        payload_joins(judged, swept.model, after, r);
    }
    owner_stays(judged, after, r);
    assert forall|p: int|
        0 <= p < ready.pages.len() && piece_of(ready.pages[p], r) implies #[trigger] after.pages[p]
        == ready.pages[p] by {
        assert(judged.pages[p] == ready.pages[p]);
    }
}

/// An owner after it was judged.
pub open spec fn judged_owner(owner: OwnerModel, removes: spec_fn(RootTid) -> bool) -> OwnerModel {
    match owner_fate(owner, removes) {
        None => owner,
        Some(change) => {
            let (publication, live, data_head) = owner_step(owner, change)->Ok_0;
            OwnerModel { publication, live, data_head, ..owner }
        },
    }
}

/// Owners after they were judged.
pub open spec fn judged_owners(
    list: Seq<OwnerModel>,
    removes: spec_fn(RootTid) -> bool,
) -> Seq<OwnerModel> {
    list.map_values(|owner: OwnerModel| judged_owner(owner, removes))
}

/// Judging a page judges each of its owners from a slot on.
#[verifier::rlimit(80)]
#[verifier::spinoff_prover]
proof fn page_is_judged(
    image: Image,
    slot: int,
    count: int,
    layout: HeapLayout,
    removes: spec_fn(RootTid) -> bool,
    changed: bool,
    stats: VacuumStats,
)
    requires
        0 <= slot,
        image.kind == PageKind::Owners,
        image.check(layout) is Ok,
        image.owner_count() matches Ok(total) && total == count,
        page_judged(image, slot, count, layout, removes, changed, stats) is Ok,
    ensures
        ({
            let (after, now, _) = page_judged(
                image,
                slot,
                count,
                layout,
                removes,
                changed,
                stats,
            )->Ok_0;
            &&& after.kind == image.kind
            &&& after.block == image.block
            &&& after.next() == image.next()
            &&& after.check(layout) is Ok
            &&& after.owner_count() == image.owner_count()
            &&& changed ==> now
            &&& !now ==> after == image
            &&& forall|other: u16|
                slot <= other < count ==> (#[trigger] after.owner(other, layout)) == Ok::<
                    OwnerModel,
                    Error,
                >(judged_owner(image.owner(other, layout)->Ok_0, removes))
            &&& forall|other: u16|
                other < slot ==> #[trigger] after.owner(other, layout) == image.owner(
                    other,
                    layout,
                )
        }),
    decreases count - slot,
{
    if slot < count {
        let owner = image.owner(slot as u16, layout)->Ok_0;
        let next = with_owner(stats, owner, removes);
        let end = page_judged(image, slot, count, layout, removes, changed, stats)->Ok_0.0;
        match owner_fate(owner, removes) {
            None => {
                page_is_judged(image, slot + 1, count, layout, removes, changed, next);
                assert forall|other: u16| slot <= other < count implies (#[trigger] end.owner(
                    other,
                    layout,
                )) == Ok::<OwnerModel, Error>(
                    judged_owner(image.owner(other, layout)->Ok_0, removes),
                ) by {
                    if other == slot {
                        assert(end.owner(other, layout) == image.owner(other, layout));
                    }
                }
            },
            Some(change) => {
                let reference = owner.reference;
                let after = image.changed_owner(reference, change, layout)->Ok_0;
                changed_owner_reads_back(image, reference, change, layout, 0);
                fields_kept(image, reference, change, layout, 12, 0);
                owners_check_kept(image, reference, change, layout, 0, 20 + count * 40);
                assert(after.next() == image.next()) by {
                    reveal(le_u32);
                    assert(le_u32(after.bytes, 12) == le_u32(image.bytes, 12));
                }
                page_is_judged(after, slot + 1, count, layout, removes, true, next);
                assert forall|other: u16| slot <= other < count implies (#[trigger] end.owner(
                    other,
                    layout,
                )) == Ok::<OwnerModel, Error>(
                    judged_owner(image.owner(other, layout)->Ok_0, removes),
                ) by {
                    changed_owner_reads_back(image, reference, change, layout, other);
                    if other == slot {
                        assert(end.owner(other, layout) == after.owner(other, layout));
                    }
                }
                assert forall|other: u16| other < slot implies #[trigger] end.owner(
                    other,
                    layout,
                ) == image.owner(other, layout) by {
                    changed_owner_reads_back(image, reference, change, layout, other);
                    assert(end.owner(other, layout) == after.owner(other, layout));
                }
            },
        }
    }
}

/// A list of owners stays where the pages of its chain do.
proof fn roster_above(before: StoreModel, after: StoreModel, block: u32, tail: u32)
    requires
        after.layout == before.layout,
        after.pages.len() == before.pages.len(),
        roster(before, block, tail) is Some,
        forall|p: int|
            block <= p < before.pages.len() ==> #[trigger] after.pages[p] == before.pages[p],
    ensures
        roster(after, block, tail) == roster(before, block, tail),
    decreases tail - block,
{
    let image = before.load(block, PageKind::Owners)->Ok_0;
    assert(after.pages[block as int] == before.pages[block as int]);
    assert(after.load(block, PageKind::Owners) == before.load(block, PageKind::Owners));
    if let Ok(Some(next)) = following_of(image, tail) {
        roster_above(before, after, next, tail);
    }
}

/// Judging all owners judges each one on their list.
#[verifier::rlimit(40)]
proof fn owners_are_judged(
    model: StoreModel,
    block: u32,
    tail: u32,
    removes: spec_fn(RootTid) -> bool,
    stats: VacuumStats,
)
    requires
        owners_judged(model, block, tail, removes, stats).value is Ok,
    ensures
        ({
            let after = owners_judged(model, block, tail, removes, stats).model;
            &&& roster(model, block, tail) matches Some(list)
            &&& roster(after, block, tail) == Some(judged_owners(list, removes))
            &&& others_kept(model, after)
            &&& forall|p: int| 0 <= p < block && p < model.pages.len() ==> #[trigger] after.pages[p]
                == model.pages[p]
        }),
    decreases tail - block,
{
    let layout = model.layout;
    let image = model.load(block, PageKind::Owners)->Ok_0;
    assert(image == model.pages[block as int]);
    let count = image.owner_count()->Ok_0 as int;
    let (judged, changed, more) = page_judged(
        image,
        0,
        count,
        layout,
        removes,
        false,
        stats,
    )->Ok_0;
    page_is_judged(image, 0, count, layout, removes, false, stats);
    let step = if changed {
        model.put(judged)
    } else {
        model
    };
    let now = step.pages[block as int];
    assert(same_body(judged, now));
    link_keeps(judged, now, layout);
    records_alike(judged, now, layout);
    assert(step.load(block, PageKind::Owners) == Ok::<Image, Error>(now));
    assert(following_of(now, tail) == following_of(image, tail));
    assert(records(judged, layout) =~= judged_owners(records(image, layout), removes)) by {
        assert forall|slot: int| 0 <= slot < count implies records(judged, layout)[slot]
            == judged_owners(records(image, layout), removes)[slot] by {
            assert(judged.owner(slot as u16, layout) is Ok);
        }
    }
    match following_of(judged, tail)->Ok_0 {
        None => {},
        Some(next) => {
            owners_are_judged(step, next, tail, removes, more);
            let after = owners_judged(step, next, tail, removes, more).model;
            assert(after.pages[block as int] == now);
            assert(after.load(block, PageKind::Owners) == Ok::<Image, Error>(now));
            let rest = roster(step, next, tail)->Some_0;
            roster_above(step, model, next, tail);
            assert(judged_owners(records(image, layout) + rest, removes) =~= judged_owners(
                records(image, layout),
                removes,
            ) + judged_owners(rest, removes));
            assert forall|p: int|
                0 <= p < model.pages.len() && model.pages[p].kind
                    != PageKind::Owners implies #[trigger] after.pages[p] == model.pages[p] by {
                assert(step.pages[p] == model.pages[p]);
            }
            assert forall|p: int| 0 <= p < block && p < model.pages.len() implies #[trigger] after.pages[p]
                == model.pages[p] by {
                assert(step.pages[p] == model.pages[p]);
            }
        },
    }
}

/// Whether a sweep leaves a page: it is no fragment of an owner that is gone,
/// and no page that was never written unless such pages wait.
pub open spec fn left_alone(model: StoreModel, p: int, zero: bool) -> bool {
    let image = model.pages[p];
    &&& image.kind == PageKind::Zero ==> zero
    &&& image.kind == PageKind::Fragment ==> (image.fragment_data() matches Ok((reference, _, _))
        && (model.owner_of(reference) matches Ok(owner) && searchable(owner)))
}

/// Whether a sweep leaves a page, but for pages from `block` on that were never
/// written.
pub open spec fn left_waiting(model: StoreModel, p: int, block: int) -> bool {
    left_alone(model, p, p >= block)
}

/// Whether the metadata at hand is that on the first page.
pub open spec fn metadata_stored(model: StoreModel, meta: Image) -> bool {
    &&& metadata_first(model, meta)
    &&& model.pages[0].block == 0
    &&& model.pages[0].bytes == meta.bytes
    &&& meta.bytes.len() >= 64
}

/// Another free head leaves the owner chain and the journal.
proof fn free_head_apart(meta: Image, block: u32)
    requires
        meta.kind == PageKind::Meta,
        meta.bytes.len() >= 64,
        meta.with_free_head(block) is Ok,
    ensures
        ({
            let after = meta.with_free_head(block)->Ok_0;
            &&& after.kind == meta.kind
            &&& after.block == meta.block
            &&& after.bytes.len() == meta.bytes.len()
            &&& after.owner_chain() == meta.owner_chain()
            &&& after.rewrite_journal() == meta.rewrite_journal()
        }),
{
    let after = meta.with_free_head(block)->Ok_0;
    reveal(le_u32);
    assert(le_u32(after.bytes, 40) == le_u32(meta.bytes, 40));
    assert(le_u32(after.bytes, 44) == le_u32(meta.bytes, 44));
    assert(le_u32(after.bytes, 52) == le_u32(meta.bytes, 52));
    assert(le_u32(after.bytes, 56) == le_u32(meta.bytes, 56));
    assert(le_u32(after.bytes, 60) == le_u32(meta.bytes, 60));
}

/// What a sweep keeps.
pub open spec fn sweep_keeps(
    before: StoreModel,
    meta: Image,
    after: StoreModel,
    spent: Image,
    block: int,
) -> bool {
    &&& metadata_stored(after, spent)
    &&& owners_kept(before, after)
    &&& after.pages.len() == before.pages.len()
    &&& spent.owner_chain() == meta.owner_chain()
    &&& spent.rewrite_journal() == meta.rewrite_journal()
    &&& forall|p: int|
        0 < p < block && p < before.pages.len() ==> #[trigger] after.pages[p] == before.pages[p]
}

/// A page that is left alone still is where owners and it stay.
proof fn alone_stays(before: StoreModel, after: StoreModel, p: int, zero: bool, later: bool)
    requires
        owners_kept(before, after),
        0 <= p < before.pages.len(),
        after.pages[p] == before.pages[p],
        left_alone(before, p, zero),
        zero ==> later,
    ensures
        left_alone(after, p, later),
{
    let image = before.pages[p];
    if image.kind == PageKind::Fragment {
        owner_stays(before, after, image.fragment_data()->Ok_0.0);
    }
}

/// A sweep leaves each page that it passed so that it may stay.
#[verifier::rlimit(60)]
#[verifier::spinoff_prover]
proof fn sweep_settles(
    model: StoreModel,
    meta: Image,
    block: int,
    pages: int,
    stats: VacuumStats,
    zero: bool,
)
    requires
        metadata_stored(model, meta),
        1 <= block,
        pages == model.pages.len(),
        pages <= u32::MAX,
        pages_swept(model, meta, block, pages, stats, zero).value is Ok,
        forall|p: int| 1 <= p < block && p < pages ==> #[trigger] left_alone(model, p, zero),
    ensures
        ({
            let step = pages_swept(model, meta, block, pages, stats, zero);
            let sweep = step.value->Ok_0;
            &&& sweep_keeps(model, meta, step.model, sweep.meta, block)
            &&& forall|p: int| 1 <= p < pages ==> #[trigger] left_alone(step.model, p, sweep.zero)
        }),
    decreases pages - block,
{
    if block < pages {
        let step = page_swept(model, meta, block as u32, stats, zero);
        let sweep = step.value->Ok_0;
        let page = model.load_any(block as u32)->Ok_0;
        assert(page == model.pages[block]);
        if step.model != model {
            free_head_apart(meta, block as u32);
        }
        assert(sweep_keeps(model, meta, step.model, sweep.meta, block));
        assert(left_alone(step.model, block, sweep.zero)) by {
            if step.model == model {
                assert(left_alone(model, block, sweep.zero));
            }
        }
        assert forall|p: int| 1 <= p < block + 1 && p < pages implies #[trigger] left_alone(
            step.model,
            p,
            sweep.zero,
        ) by {
            if p < block {
                assert(left_alone(model, p, zero));
                assert(step.model.pages[p] == model.pages[p]);
                alone_stays(model, step.model, p, zero, sweep.zero);
            }
        }
        sweep_settles(
            step.model,
            sweep.meta,
            block + 1,
            pages,
            sweep.stats,
            sweep.zero,
        );
        let end = pages_swept(
            step.model,
            sweep.meta,
            block + 1,
            pages,
            sweep.stats,
            sweep.zero,
        );
        owners_kept_joins(model, step.model, end.model);
        assert forall|p: int| 0 < p < block && p < model.pages.len() implies #[trigger] end.model.pages[p]
            == model.pages[p] by {
            assert(step.model.pages[p] == model.pages[p]);
        }
    }
}

/// Once pages that were never written are free, a sweep leaves every page.
#[verifier::rlimit(60)]
#[verifier::spinoff_prover]
proof fn zeros_settle(model: StoreModel, meta: Image, block: int, pages: int, stats: VacuumStats)
    requires
        metadata_stored(model, meta),
        1 <= block,
        pages == model.pages.len(),
        pages <= u32::MAX,
        zeros_freed(model, meta, block, pages, stats).value is Ok,
        forall|p: int| 1 <= p < pages ==> #[trigger] left_waiting(model, p, block),
    ensures
        ({
            let after = zeros_freed(model, meta, block, pages, stats).model;
            &&& sweep_keeps(model, meta, after, after.pages[0], block)
            &&& forall|p: int| 1 <= p < pages ==> #[trigger] left_alone(after, p, false)
        }),
    decreases pages - block,
{
    if block < pages {
        let page = model.load_any(block as u32)->Ok_0;
        assert(page == model.pages[block]);
        assert(left_waiting(model, block, block));
        if page.kind != PageKind::Zero {
            assert forall|p: int| 1 <= p < pages implies #[trigger] left_waiting(
                model,
                p,
                block + 1,
            ) by {
                assert(left_waiting(model, p, block));
            }
            zeros_settle(model, meta, block + 1, pages, stats);
        } else {
            let step = freed_and_counted(model, meta, block as u32, true, stats, true);
            let sweep = step.value->Ok_0;
            free_head_apart(meta, block as u32);
            assert(sweep_keeps(model, meta, step.model, sweep.meta, block));
            assert forall|p: int| 1 <= p < pages implies #[trigger] left_waiting(
                step.model,
                p,
                block + 1,
            ) by {
                assert(left_waiting(model, p, block));
                if p != block {
                    assert(step.model.pages[p] == model.pages[p]);
                    alone_stays(model, step.model, p, p >= block, p >= block + 1);
                }
            }
            zeros_settle(step.model, sweep.meta, block + 1, pages, sweep.stats);
            let end = zeros_freed(step.model, sweep.meta, block + 1, pages, sweep.stats).model;
            owners_kept_joins(model, step.model, end);
            assert forall|p: int| 0 < p < block && p < model.pages.len() implies #[trigger] end.pages[p]
                == model.pages[p] by {
                assert(step.model.pages[p] == model.pages[p]);
            }
        }
    } else {
        let page = model.pages[0];
        assert(page.owner_chain() == meta.owner_chain());
        assert(page.rewrite_journal() == meta.rewrite_journal());
        assert forall|p: int| 1 <= p < pages implies #[trigger] left_alone(model, p, false) by {
            assert(left_waiting(model, p, block));
        }
    }
}

/// What a vacuum leaves: each owner judged, the journal and every page so that
/// another sweep leaves it.
proof fn vacuum_leaves(model: StoreModel, removes: spec_fn(RootTid) -> bool)
    requires
        vacuumed(model, removes).value is Ok,
        recovered(model).model.pages.len() <= u32::MAX,
    ensures
        ({
            let ready = recovered(model).model;
            let after = vacuumed(model, removes).model;
            &&& all_owners(ready, ready.pages[0]) matches Some(list)
            &&& all_owners(after, after.pages[0]) == Some(judged_owners(list, removes))
            &&& after.pages[0].kind == PageKind::Meta
            &&& after.pages.len() == ready.pages.len()
            &&& after.pages[0].rewrite_journal() == ready.pages[0].rewrite_journal()
            &&& forall|p: int| 1 <= p < after.pages.len() ==> #[trigger] left_alone(after, p, false)
        }),
{
    let ready = recovered(model).model;
    let count = recovered(model).value->Ok_0;
    let meta = ready.load(0, PageKind::Meta)->Ok_0;
    assert(meta == ready.pages[0]);
    let (head, tail) = meta.owner_chain()->Ok_0;
    let begun = crate::mutable::vacuum::vacuum_begun(count);
    let judged = if head == NO_BLOCK {
        ready
    } else {
        owners_judged(ready, head, tail, removes, begun).model
    };
    let stats = if head == NO_BLOCK {
        begun
    } else {
        owners_judged(ready, head, tail, removes, begun).value->Ok_0
    };
    if head != NO_BLOCK {
        owners_are_judged(ready, head, tail, removes, begun);
    } else {
        assert(judged_owners(Seq::empty(), removes) =~= Seq::<OwnerModel>::empty());
    }
    assert(judged.pages[0] == ready.pages[0]);
    let pages = judged.pages.len() as u32;
    let counted = VacuumStats { pages, ..stats };
    let list = all_owners(judged, meta)->Some_0;
    sweep_settles(judged, meta, 1, pages as int, counted, false);
    let swept = pages_swept(judged, meta, 1, pages as int, counted, false);
    let sweep = swept.value->Ok_0;
    let after = vacuumed(model, removes).model;
    if sweep.zero {
        assert forall|p: int| 1 <= p < pages implies #[trigger] left_waiting(
            swept.model,
            p,
            1,
        ) by {
            assert(left_alone(swept.model, p, sweep.zero));
        }
        zeros_settle(swept.model, sweep.meta, 1, pages as int, sweep.stats);
        owners_kept_joins(judged, swept.model, after);
    } else {
        let page = after.pages[0];
        assert(page.owner_chain() == sweep.meta.owner_chain());
        assert(page.rewrite_journal() == sweep.meta.rewrite_journal());
        assert forall|p: int| 1 <= p < after.pages.len() implies #[trigger] left_alone(
            after,
            p,
            false,
        ) by {
            assert(left_alone(swept.model, p, sweep.zero));
        }
    }
    if head != NO_BLOCK {
        roster_kept(judged, after, head, tail);
    }
}

/// A vacuum judges every owner: those whose removal was approved are no longer
/// live, no owner is left unfinished, and all others stay as they were.
pub proof fn vacuum_settles_owners(model: StoreModel, removes: spec_fn(RootTid) -> bool)
    requires
        vacuumed(model, removes).value is Ok,
        recovered(model).model.pages.len() <= u32::MAX,
    ensures
        ({
            let ready = recovered(model).model;
            let after = vacuumed(model, removes).model;
            &&& all_owners(ready, ready.pages[0]) matches Some(list)
            &&& all_owners(after, after.pages[0]) matches Some(left)
            &&& left == judged_owners(list, removes)
            &&& forall|i: int|
                0 <= i < left.len() ==> {
                    let owner = #[trigger] left[i];
                    &&& owner.publication != Publication::Allocated
                    &&& owner.publication != Publication::FragmentsWritten
                    &&& searchable(owner) ==> !removes(owner.root) && owner == list[i]
                    &&& searchable(list[i]) && removes(list[i].root) ==> !owner.live
                }
        }),
{
    vacuum_leaves(model, removes);
}

/// A sweep over pages that it may leave changes nothing.
proof fn sweep_is_idle(
    model: StoreModel,
    meta: Image,
    block: int,
    pages: int,
    stats: VacuumStats,
)
    requires
        1 <= block,
        pages == model.pages.len(),
        pages <= u32::MAX,
        pages_swept(model, meta, block, pages, stats, false).value is Ok,
        forall|p: int| 1 <= p < pages ==> #[trigger] left_alone(model, p, false),
    ensures
        ({
            let step = pages_swept(model, meta, block, pages, stats, false);
            let sweep = step.value->Ok_0;
            &&& step.model == model
            &&& !sweep.zero
            &&& sweep.stats.reclaimed_pages == stats.reclaimed_pages
            &&& sweep.stats.removed_documents == stats.removed_documents
            &&& sweep.stats.abandoned_documents == stats.abandoned_documents
        }),
    decreases pages - block,
{
    if block < pages {
        let step = page_swept(model, meta, block as u32, stats, false);
        assert(left_alone(model, block, false));
        assert(step.model == model);
        let sweep = step.value->Ok_0;
        sweep_is_idle(model, sweep.meta, block + 1, pages, sweep.stats);
    }
}

/// Judging a page whose owners all stay changes nothing.
proof fn judging_is_idle(
    image: Image,
    slot: int,
    count: int,
    layout: HeapLayout,
    removes: spec_fn(RootTid) -> bool,
    stats: VacuumStats,
)
    requires
        0 <= slot,
        count <= u16::MAX,
        page_judged(image, slot, count, layout, removes, false, stats) is Ok,
        forall|i: u16|
            slot <= i < count ==> owner_fate(
                (#[trigger] image.owner(i, layout))->Ok_0,
                removes,
            ) is None,
    ensures
        ({
            let (after, changed, now) = page_judged(
                image,
                slot,
                count,
                layout,
                removes,
                false,
                stats,
            )->Ok_0;
            &&& after == image
            &&& !changed
            &&& now.removed_documents == stats.removed_documents
            &&& now.abandoned_documents == stats.abandoned_documents
            &&& now.reclaimed_pages == stats.reclaimed_pages
        }),
    decreases count - slot,
{
    if slot < count {
        let owner = image.owner(slot as u16, layout)->Ok_0;
        assert(owner_fate(owner, removes) is None);
        let next = with_owner(stats, owner, removes);
        judging_is_idle(image, slot + 1, count, layout, removes, next);
    }
}

/// Judging owners that all stay changes nothing.
proof fn judging_all_is_idle(
    model: StoreModel,
    block: u32,
    tail: u32,
    removes: spec_fn(RootTid) -> bool,
    stats: VacuumStats,
)
    requires
        owners_judged(model, block, tail, removes, stats).value is Ok,
        roster(model, block, tail) matches Some(list) && (forall|i: int|
            0 <= i < list.len() ==> owner_fate(#[trigger] list[i], removes) is None),
    ensures
        ({
            let step = owners_judged(model, block, tail, removes, stats);
            let now = step.value->Ok_0;
            &&& step.model == model
            &&& now.removed_documents == stats.removed_documents
            &&& now.abandoned_documents == stats.abandoned_documents
            &&& now.reclaimed_pages == stats.reclaimed_pages
        }),
    decreases tail - block,
{
    let layout = model.layout;
    let image = model.load(block, PageKind::Owners)->Ok_0;
    let count = image.owner_count()->Ok_0 as int;
    let list = roster(model, block, tail)->Some_0;
    let own = records(image, layout);
    assert forall|i: u16| 0 <= i < count implies owner_fate(
        (#[trigger] image.owner(i, layout))->Ok_0,
        removes,
    ) is None by {
        assert(own[i as int] == image.owner(i, layout)->Ok_0);
        assert(list[i as int] == own[i as int]);
    }
    judging_is_idle(image, 0, count, layout, removes, stats);
    let (judged, changed, more) = page_judged(
        image,
        0,
        count,
        layout,
        removes,
        false,
        stats,
    )->Ok_0;
    if let Some(next) = following_of(judged, tail)->Ok_0 {
        let rest = roster(model, next, tail)->Some_0;
        assert forall|i: int| 0 <= i < rest.len() implies owner_fate(
            #[trigger] rest[i],
            removes,
        ) is None by {
            assert(rest[i] == list[own.len() + i]);
        }
        judging_all_is_idle(model, next, tail, removes, more);
    }
}

/// A second vacuum with the same approvals changes nothing: it removes no
/// document, abandons none and reclaims no page.
pub proof fn vacuum_is_done(model: StoreModel, removes: spec_fn(RootTid) -> bool)
    requires
        tidy(model, model.pages[0]),
        vacuumed(model, removes).value is Ok,
        recovered(model).model.pages.len() <= u32::MAX,
        vacuumed(vacuumed(model, removes).model, removes).value is Ok,
    ensures
        ({
            let after = vacuumed(model, removes).model;
            let again = vacuumed(after, removes);
            let stats = again.value->Ok_0;
            &&& again.model == after
            &&& stats.removed_documents == 0
            &&& stats.abandoned_documents == 0
            &&& stats.reclaimed_pages == 0
        }),
{
    let after = vacuumed(model, removes).model;
    recovery_lists(model, Seq::empty());
    vacuum_leaves(model, removes);
    vacuum_settles_owners(model, removes);
    let meta = after.load(0, PageKind::Meta)->Ok_0;
    assert(meta == after.pages[0]);
    assert(recovered(after).value == Ok::<u32, Error>(0));
    assert(recovered(after).model == after);
    let begun = crate::mutable::vacuum::vacuum_begun(0);
    let (head, tail) = meta.owner_chain()->Ok_0;
    if head != NO_BLOCK {
        let list = roster(after, head, tail)->Some_0;
        assert forall|i: int| 0 <= i < list.len() implies owner_fate(
            #[trigger] list[i],
            removes,
        ) is None by {}
        judging_all_is_idle(after, head, tail, removes, begun);
    }
    let stats = if head == NO_BLOCK {
        begun
    } else {
        owners_judged(after, head, tail, removes, begun).value->Ok_0
    };
    let pages = after.pages.len() as u32;
    sweep_is_idle(after, meta, 1, pages as int, VacuumStats { pages, ..stats });
}

} // verus!
