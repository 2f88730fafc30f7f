//! Callback-authorized removal and recovery-safe fragment and orphan reclamation.
//! The host writer interlock excludes incomplete live writers during this pass.
//! Owner and dictionary identities remain allocated across posting compaction.

use crate::callbacks::RootFilter;
use crate::codec::bytes::{group_bytes, le_u32};
use crate::codec::records::Publication;
use crate::error::{Error, Result};
use crate::identity::{group_identity, HeapLayout, RootTid};
use crate::mutable::compact::{recover, recovered};
use crate::mutable::page::laws::changed_owner_reads_back;
use crate::mutable::page::model::{free_image, Image, TermModel};
use crate::mutable::page::{
    Owner, OwnerChange, OwnerModel, OwnerRef, Page, PageKind, Postings, Term, Terms, BUCKETS,
    NO_BLOCK,
};
use crate::mutable::reader::{searchable, slots_walk};
use crate::mutable::roster::{owners_sound, slots_walked};
use crate::mutable::store::{
    answers, commit_one, commit_two, following, following_of, load, load_any, performs,
    performs_with, same_host, Change, PageStore, Stage, StoreModel,
};
use crate::mutable::writer::has_meta;
use vstd::prelude::*;

verus! {

broadcast use {group_bytes, group_identity};

#[derive(Clone, Copy, Debug, Eq, PartialEq, Structural)]
pub struct VacuumStats {
    pub live_documents: u64,
    pub removed_documents: u64,
    pub abandoned_documents: u64,
    pub reclaimed_pages: u32,
    pub free_pages: u32,
    pub pages: u32,
}

/// Statistics of a pass that met nothing but what recovery reclaimed.
pub open spec fn vacuum_begun(reclaimed: u32) -> VacuumStats {
    VacuumStats {
        live_documents: 0,
        removed_documents: 0,
        abandoned_documents: 0,
        reclaimed_pages: reclaimed,
        free_pages: 0,
        pages: 0,
    }
}

impl Default for VacuumStats {
    fn default() -> (stats: Self)
        ensures
            stats == vacuum_begun(0),
    {
        VacuumStats {
            live_documents: 0,
            removed_documents: 0,
            abandoned_documents: 0,
            reclaimed_pages: 0,
            free_pages: 0,
            pages: 0,
        }
    }
}

/// What becomes of an owner: removed if the callback approves, abandoned if it
/// was never published, else kept.
pub open spec fn owner_fate(owner: OwnerModel, removes: spec_fn(RootTid) -> bool) -> Option<
    OwnerChange,
> {
    match owner.publication {
        Publication::Published => if owner.live && removes(owner.root) {
            Some(OwnerChange::Remove)
        } else {
            None
        },
        Publication::Allocated => Some(OwnerChange::Abandon),
        Publication::FragmentsWritten => Some(OwnerChange::Abandon),
        _ => None,
    }
}

/// The statistics after an owner was met.
pub open spec fn with_owner(
    stats: VacuumStats,
    owner: OwnerModel,
    removes: spec_fn(RootTid) -> bool,
) -> VacuumStats {
    match owner_fate(owner, removes) {
        Some(OwnerChange::Remove) => VacuumStats {
            removed_documents: (stats.removed_documents + 1) as u64,
            ..stats
        },
        Some(_) => VacuumStats {
            abandoned_documents: (stats.abandoned_documents + 1) as u64,
            ..stats
        },
        None => if owner.publication == Publication::Published && owner.live {
            VacuumStats { live_documents: (stats.live_documents + 1) as u64, ..stats }
        } else {
            stats
        },
    }
}

/// An owner page after its slots from `slot` on were judged: the page, whether
/// it changed, and the statistics.
pub open spec fn page_judged(
    image: Image,
    slot: int,
    count: int,
    layout: HeapLayout,
    removes: spec_fn(RootTid) -> bool,
    changed: bool,
    stats: VacuumStats,
) -> Result<(Image, bool, VacuumStats)>
    decreases count - slot,
{
    if slot >= count {
        Ok((image, changed, stats))
    } else {
        match image.owner(slot as u16, layout) {
            Err(error) => Err(error),
            Ok(owner) => match owner_fate(owner, removes) {
                None => page_judged(
                    image,
                    slot + 1,
                    count,
                    layout,
                    removes,
                    changed,
                    with_owner(stats, owner, removes),
                ),
                Some(change) => match image.changed_owner(owner.reference, change, layout) {
                    Err(error) => Err(error),
                    Ok(image) => page_judged(
                        image,
                        slot + 1,
                        count,
                        layout,
                        removes,
                        true,
                        with_owner(stats, owner, removes),
                    ),
                },
            },
        }
    }
}

/// Judging the owners on the chain from `block` to `tail`.
pub open spec fn owners_judged(
    model: StoreModel,
    block: u32,
    tail: u32,
    removes: spec_fn(RootTid) -> bool,
    stats: VacuumStats,
) -> Change<VacuumStats>
    decreases tail - block,
{
    match model.load(block, PageKind::Owners) {
        Err(error) => Change::refused(model, error),
        Ok(image) => match image.owner_count() {
            Err(error) => Change::refused(model, error),
            Ok(count) => match page_judged(
                image,
                0,
                count as int,
                model.layout,
                removes,
                false,
                stats,
            ) {
                Err(error) => Change::refused(model, error),
                Ok((image, changed, stats)) => {
                    let after = if changed {
                        model.put(image)
                    } else {
                        model
                    };
                    match following_of(image, tail) {
                        Err(error) => Change::refused(after, error),
                        Ok(None) => Change::made(after, stats),
                        Ok(Some(next)) => if block < next <= tail {
                            owners_judged(after, next, tail, removes, stats)
                        } else {
                            Change::made(after, stats)
                        },
                    }
                },
            },
        },
    }
}

/// The root of an owner.
pub open spec fn root_pick() -> spec_fn(OwnerModel) -> RootTid {
    |owner: OwnerModel| owner.root
}

/// The roots that a pass asks for: those of the published live owners that are
/// there once recovery is done, in the order of the owner chain.
pub open spec fn vacuum_questions(model: StoreModel) -> Seq<RootTid> {
    let ready = recovered(model).model;
    ready.universe_walk(ready.load(0, PageKind::Meta)->Ok_0, root_pick()).items
}

/// A change of an owner leaves the owners behind it, their number and the link.
proof fn change_keeps_later(
    image: Image,
    reference: OwnerRef,
    change: OwnerChange,
    layout: HeapLayout,
    slot: int,
)
    requires
        image.changed_owner(reference, change, layout) is Ok,
        reference.slot < slot,
        image.bytes.len() >= 16,
    ensures
        ({
            let after = image.changed_owner(reference, change, layout)->Ok_0;
            &&& after.owner_count() == image.owner_count()
            &&& after.next() == image.next()
            &&& slots_walk(after, slot, layout, root_pick()) == slots_walk(
                image,
                slot,
                layout,
                root_pick(),
            )
        }),
    decreases 65536 - slot,
{
    let after = image.changed_owner(reference, change, layout)->Ok_0;
    changed_owner_reads_back(image, reference, change, layout, slot as u16);
    assert(after.next() == image.next()) by {
        reveal(le_u32);
        assert(le_u32(after.bytes, 12) == le_u32(image.bytes, 12));
    }
    if slot < image.owner_count()->Ok_0 {
        change_keeps_later(image, reference, change, layout, slot + 1);
    }
}

/// A page in front of a chain does not matter to it.
proof fn put_keeps_later(model: StoreModel, page: Image, block: u32, tail: u32)
    requires
        model.has(page.block),
        page.block < block,
    ensures
        model.put(page).owners_walk(block, tail, root_pick()) == model.owners_walk(
            block,
            tail,
            root_pick(),
        ),
    decreases tail - block,
{
    let after = model.put(page);
    assert(after.load(block, PageKind::Owners) == model.load(block, PageKind::Owners));
    if let Ok(image) = model.load(block, PageKind::Owners) {
        if let Ok(Some(next)) = following_of(image, tail) {
            if block < next <= tail {
                put_keeps_later(model, page, next, tail);
            }
        }
    }
}

/// Judges the slots of an owner page.
#[verifier::loop_isolation(false)]
fn judge_page<F: RootFilter>(
    page: &mut Page,
    layout: HeapLayout,
    removable: &mut F,
    begun: VacuumStats,
) -> (result: Result<(bool, VacuumStats)>)
    requires
        old(page)@.owner_count() is Ok,
        begun.live_documents <= 0x1_0000_0000_0000,
        begun.removed_documents <= 0x1_0000_0000_0000,
        begun.abandoned_documents <= 0x1_0000_0000_0000,
    ensures
        final(page)@.block == old(page)@.block,
        final(page)@.kind == old(page)@.kind,
        forall|root: RootTid| final(removable).removes(root) == old(removable).removes(root),
        final(removable).certain() == old(removable).certain(),
        final(page)@.next() == old(page)@.next(),
        result is Ok ==> final(removable).asked() == old(removable).asked() + slots_walk(
            old(page)@,
            0,
            layout,
            root_pick(),
        ).items,
        ({
            let expected = page_judged(
                old(page)@,
                0,
                old(page)@.owner_count()->Ok_0 as int,
                layout,
                |root: RootTid| old(removable).removes(root),
                false,
                begun,
            );
            match result {
                Ok((changed, stats)) => expected == Ok::<(Image, bool, VacuumStats), Error>(
                    (final(page)@, changed, stats),
                ) && stats.live_documents <= begun.live_documents + 0x1_0000
                    && stats.removed_documents <= begun.removed_documents + 0x1_0000
                    && stats.abandoned_documents <= begun.abandoned_documents + 0x1_0000,
                Err(error) => !old(removable).certain() || expected == Err::<
                    (Image, bool, VacuumStats),
                    Error,
                >(error),
            }
        }),
{
    let ghost removes = |root: RootTid| old(removable).removes(root);
    let count: u16 = page.owner_count()?;
    let ghost total = page_judged(page@, 0, count as int, layout, removes, false, begun);
    let mut stats: VacuumStats = begun;
    let mut changed: bool = false;
    let mut slot: u16 = 0;
    while slot < count
        invariant
            slot <= count,
            page@.block == old(page)@.block,
            page@.kind == old(page)@.kind,
            forall|root: RootTid|
                removable.removes(root) == old(removable).removes(root),
            removable.certain() == old(removable).certain(),
            page@.next() == old(page)@.next(),
            page@.owner_count() == Ok::<u16, Error>(count),
            removable.asked() + slots_walk(page@, slot as int, layout, root_pick()).items
                == old(removable).asked() + slots_walk(old(page)@, 0, layout, root_pick()).items,
            stats.live_documents <= begun.live_documents + slot,
            stats.removed_documents <= begun.removed_documents + slot,
            stats.abandoned_documents <= begun.abandoned_documents + slot,
            total == page_judged(
                page@,
                slot as int,
                count as int,
                layout,
                removes,
                changed,
                stats,
            ),
        decreases count - slot,
    {
        let owner: Owner<'_> = page.owner(slot, layout)?;
        let ghost model = owner@;
        let ghost image = page@;
        let ghost before = removable.asked();
        let reference: OwnerRef = owner.reference;
        let root: RootTid = owner.root;
        let live: bool = owner.live;
        let publication: Publication = owner.publication;
        let fate: Option<OwnerChange> = match publication {
            Publication::Published => {
                if live {
                    if removable.removable(root)? {
                        stats.removed_documents += 1;
                        Some(OwnerChange::Remove)
                    } else {
                        stats.live_documents += 1;
                        None
                    }
                } else {
                    None
                }
            },
            Publication::Allocated => {
                stats.abandoned_documents += 1;
                Some(OwnerChange::Abandon)
            },
            Publication::FragmentsWritten => {
                stats.abandoned_documents += 1;
                Some(OwnerChange::Abandon)
            },
            _ => None,
        };
        assert(fate == owner_fate(model, removes));
        if let Some(change) = fate {
            page.change_owner(reference, change, layout)?;
            proof {
                change_keeps_later(image, reference, change, layout, slot + 1);
            }
            changed = true;
        }
        proof {
            let rest = slots_walk(image, slot + 1, layout, root_pick()).items;
            if searchable(model) {
                assert(before + (seq![model.root] + rest) =~= before.push(model.root) + rest);
            }
        }
        slot += 1;
    }
    proof {
        assert(removable.asked() + Seq::<RootTid>::empty() =~= removable.asked());
    }
    Ok((changed, stats))
}

/// Judges the owners of the chain.
#[verifier::loop_isolation(false)]
fn judge_owners<S: PageStore, F: RootFilter>(
    store: &mut S,
    head: u32,
    tail: u32,
    removable: &mut F,
    begun: VacuumStats,
) -> (result: Result<VacuumStats>)
    requires
        begun.live_documents == 0,
        begun.removed_documents == 0,
        begun.abandoned_documents == 0,
    ensures
        performs_with(
            old(store).host(),
            final(store).host(),
            result,
            owners_judged(
                old(store).host().model,
                head,
                tail,
                |root: RootTid| old(removable).removes(root),
                begun,
            ),
            old(removable).certain(),
        ),
        result is Ok ==> final(removable).asked() == old(removable).asked()
            + old(store).host().model.owners_walk(head, tail, root_pick()).items,
{
    let ghost removes = |root: RootTid| old(removable).removes(root);
    let ghost total = owners_judged(store.host().model, head, tail, removes, begun);
    let mut stats: VacuumStats = begun;
    let mut block: u32 = head;
    loop
        invariant
            same_host(old(store).host(), store.host()),
            forall|root: RootTid|
                removable.removes(root) == old(removable).removes(root),
            removable.certain() == old(removable).certain(),
            stats.live_documents <= block * 0x1_0000,
            stats.removed_documents <= block * 0x1_0000,
            stats.abandoned_documents <= block * 0x1_0000,
            total == owners_judged(store.host().model, block, tail, removes, stats),
            removable.asked() + store.host().model.owners_walk(block, tail, root_pick()).items
                == old(removable).asked() + old(store).host().model.owners_walk(
                head,
                tail,
                root_pick(),
            ).items,
        decreases tail - block,
    {
        let ghost before = removable.asked();
        let ghost model = store.host().model;
        let mut page: Page = load(store, block, PageKind::Owners)?;
        let ghost image = page@;
        proof {
            let now = |root: RootTid| removable.removes(root);
            assert(now =~= removes);
            let count = image.owner_count()->Ok_0;
            owners_sound(image, 0, 20 + count * 40, model.layout);
            slots_walked(image, 0, model.layout, root_pick());
        }
        let (changed, after): (bool, VacuumStats) = judge_page(
            &mut page,
            store.layout(),
            removable,
            stats,
        )?;
        stats = after;
        if changed {
            commit_one(store, &page)?;
            store.event(Stage::OwnerRemoved)?;
        }
        let ghost here = slots_walk(image, 0, model.layout, root_pick()).items;
        proof {
            assert(following_of(page@, tail) == following_of(image, tail));
        }
        match following(&page, tail)? {
            Some(next) => {
                proof {
                    let rest = model.owners_walk(next, tail, root_pick()).items;
                    put_keeps_later(model, page@, next, tail);
                    assert(before + (here + rest) =~= (before + here) + rest);
                }
                block = next;
            },
            None => {
                proof {
                    assert(before + (here + Seq::<RootTid>::empty()) =~= before + here);
                }
                return Ok(stats);
            },
        }
    }
}

/// Handing a page to the free list: the metadata then.
pub open spec fn page_freed(model: StoreModel, meta: Image, block: u32) -> Change<Image> {
    match meta.free_head() {
        Err(error) => Change::refused(model, error),
        Ok(next) => match free_image(block, next) {
            Err(error) => Change::refused(model, error),
            Ok(page) => match meta.with_free_head(block) {
                Err(error) => Change::refused(model, error),
                Ok(meta) => Change::made(model.put(meta).put(page), meta),
            },
        },
    }
}

fn reclaim<S: PageStore>(store: &mut S, meta: &mut Page, block: u32, zero: bool) -> (result: Result<
    (),
>)
    requires
        has_meta(old(store).host().model, old(meta)@),
        old(store).host().model.has(block),
    ensures
        result is Ok ==> has_meta(final(store).host().model, final(meta)@),
        performs(
            old(store).host(),
            final(store).host(),
            match result {
                Ok(_) => Ok(final(meta)@),
                Err(error) => Err(error),
            },
            page_freed(old(store).host().model, old(meta)@, block),
        ),
{
    let next: u32 = meta.free_head()?;
    let page: Page = if zero {
        Page::free_from_zero(block, next)?
    } else {
        Page::free(block, next)?
    };
    meta.set_free_head(block)?;
    commit_two(store, meta, &page)?;
    store.event(Stage::PageReclaimed)?;
    Ok(())
}

/// The statistics after a page was reclaimed.
pub open spec fn with_reclaimed(stats: VacuumStats) -> Result<VacuumStats> {
    if stats.reclaimed_pages == u32::MAX || stats.free_pages == u32::MAX {
        Err(Error::Limit("vacuum pages"))
    } else {
        Ok(
            VacuumStats {
                reclaimed_pages: (stats.reclaimed_pages + 1) as u32,
                free_pages: (stats.free_pages + 1) as u32,
                ..stats
            },
        )
    }
}

fn count_reclaimed(stats: VacuumStats) -> (result: Result<VacuumStats>)
    ensures
        result == with_reclaimed(stats),
{
    if stats.reclaimed_pages == u32::MAX || stats.free_pages == u32::MAX {
        return Err(Error::Limit("vacuum pages"));
    }
    Ok(
        VacuumStats {
            reclaimed_pages: stats.reclaimed_pages + 1,
            free_pages: stats.free_pages + 1,
            ..stats
        },
    )
}

/// The metadata, the statistics and whether an all-zero page was met.
pub struct Sweep {
    pub meta: Image,
    pub stats: VacuumStats,
    pub zero: bool,
}

/// Freeing a page and counting it.
pub open spec fn freed_and_counted(
    model: StoreModel,
    meta: Image,
    block: u32,
    zero_page: bool,
    stats: VacuumStats,
    zero: bool,
) -> Change<Sweep> {
    let freed = page_freed(model, meta, block);
    match freed.value {
        Err(error) => Change::refused(freed.model, error),
        Ok(meta) => match with_reclaimed(stats) {
            Err(error) => Change::refused(freed.model, error),
            Ok(stats) => Change::made(freed.model, Sweep { meta, stats, zero }),
        },
    }
}

/// Sweeping one page: a fragment of an owner that is gone is freed.
pub open spec fn page_swept(
    model: StoreModel,
    meta: Image,
    block: u32,
    stats: VacuumStats,
    zero: bool,
) -> Change<Sweep> {
    match model.load_any(block) {
        Err(error) => Change::refused(model, error),
        Ok(page) => match page.kind {
            PageKind::Zero => Change::made(model, Sweep { meta, stats, zero: true }),
            PageKind::Free => if stats.free_pages == u32::MAX {
                Change::refused(model, Error::Limit("vacuum pages"))
            } else {
                Change::made(
                    model,
                    Sweep {
                        meta,
                        stats: VacuumStats {
                            free_pages: (stats.free_pages + 1) as u32,
                            ..stats
                        },
                        zero,
                    },
                )
            },
            PageKind::Fragment => match page.fragment_data() {
                Err(error) => Change::refused(model, error),
                Ok((reference, _, _)) => match model.owner_of(reference) {
                    Err(error) => Change::refused(model, error),
                    Ok(owner) => if owner.publication != Publication::Published || !owner.live {
                        freed_and_counted(model, meta, block, false, stats, zero)
                    } else {
                        Change::made(model, Sweep { meta, stats, zero })
                    },
                },
            },
            _ => Change::made(model, Sweep { meta, stats, zero }),
        },
    }
}

/// Sweeping the pages from `block` on.
pub open spec fn pages_swept(
    model: StoreModel,
    meta: Image,
    block: int,
    pages: int,
    stats: VacuumStats,
    zero: bool,
) -> Change<Sweep>
    decreases pages - block,
{
    if block >= pages {
        Change::made(model, Sweep { meta, stats, zero })
    } else {
        let step = page_swept(model, meta, block as u32, stats, zero);
        match step.value {
            Err(error) => step,
            Ok(sweep) => pages_swept(
                step.model,
                sweep.meta,
                block + 1,
                pages,
                sweep.stats,
                sweep.zero,
            ),
        }
    }
}

/// Whether some bucket from `bucket` on leads to a block.
pub open spec fn buckets_mention(image: Image, target: u32, bucket: int) -> Result<bool>
    decreases 512 - bucket,
{
    if bucket >= 512 {
        Ok(false)
    } else {
        match image.bucket(bucket) {
            Err(error) => Err(error),
            Ok((head, tail)) => if head == target || tail == target {
                Ok(true)
            } else {
                buckets_mention(image, target, bucket + 1)
            },
        }
    }
}

/// Whether some owner from `slot` on has its payload at a block.
pub open spec fn owners_mention(image: Image, target: u32, slot: int, count: int, layout: HeapLayout) -> Result<
    bool,
>
    decreases count - slot,
{
    if slot >= count {
        Ok(false)
    } else {
        match image.owner(slot as u16, layout) {
            Err(error) => Err(error),
            Ok(owner) => if owner.data_head == target {
                Ok(true)
            } else {
                owners_mention(image, target, slot + 1, count, layout)
            },
        }
    }
}

/// Whether some term leads to a block.
pub open spec fn terms_mention(outcomes: Seq<Result<TermModel>>, target: u32) -> Result<bool>
    decreases outcomes.len(),
{
    if outcomes.len() == 0 {
        Ok(false)
    } else {
        match outcomes[0] {
            Err(error) => Err(error),
            Ok(term) => if term.head == target || term.tail == target || term.first.page
                == target {
                Ok(true)
            } else {
                terms_mention(outcomes.drop_first(), target)
            },
        }
    }
}

/// Whether some reference leads to a block.
pub open spec fn references_mention(outcomes: Seq<Result<OwnerRef>>, target: u32) -> Result<bool>
    decreases outcomes.len(),
{
    if outcomes.len() == 0 {
        Ok(false)
    } else {
        match outcomes[0] {
            Err(error) => Err(error),
            Ok(owner) => if owner.page == target {
                Ok(true)
            } else {
                references_mention(outcomes.drop_first(), target)
            },
        }
    }
}

/// Whether metadata leads to a block.
pub open spec fn meta_mentions(image: Image, target: u32) -> Result<bool> {
    match image.rewrite_journal() {
        Err(error) => Err(error),
        Ok(journal) => if journal matches Some(journal) && (journal.head == target || journal.tail
            == target) {
            Ok(true)
        } else {
            match image.owner_chain() {
                Err(error) => Err(error),
                Ok((head, tail)) => if head == target || tail == target {
                    Ok(true)
                } else {
                    match image.free_head() {
                        Err(error) => Err(error),
                        Ok(free) => if free == target {
                            Ok(true)
                        } else {
                            buckets_mention(image, target, 0)
                        },
                    }
                },
            }
        },
    }
}

/// Whether a page leads to a block.
pub open spec fn page_mentions(image: Image, target: u32, layout: HeapLayout) -> Result<bool> {
    if image.kind == PageKind::Zero {
        Ok(false)
    } else {
        match image.next() {
            Err(error) => Err(error),
            Ok(next) => if next == target {
                Ok(true)
            } else {
                match image.kind {
                    PageKind::Meta => meta_mentions(image, target),
                    PageKind::Owners => match image.owner_count() {
                        Err(error) => Err(error),
                        Ok(count) => owners_mention(image, target, 0, count as int, layout),
                    },
                    PageKind::Dictionary => match image.terms() {
                        Err(error) => Err(error),
                        Ok(outcomes) => terms_mention(outcomes, target),
                    },
                    PageKind::Postings => postings_mention(image, target),
                    PageKind::SealedPostings => postings_mention(image, target),
                    PageKind::Fragment => match image.fragment_data() {
                        Err(error) => Err(error),
                        Ok((owner, _, _)) => Ok(owner.page == target),
                    },
                    _ => Ok(false),
                }
            },
        }
    }
}

/// Whether a posting page leads to a block.
pub open spec fn postings_mention(image: Image, target: u32) -> Result<bool> {
    match image.posting_term() {
        Err(error) => Err(error),
        Ok(term) => if term.page == target {
            Ok(true)
        } else {
            match image.posting_stream() {
                Err(error) => Err(error),
                Ok(stream) => references_mention(stream.outcomes(), target),
            }
        },
    }
}

/// Whether no page from `block` on leads to the target.
pub open spec fn unreferenced(model: StoreModel, target: u32, block: int, pages: int) -> Result<()>
    decreases pages - block,
{
    if block >= pages {
        Ok(())
    } else {
        match model.load_any(block as u32) {
            Err(error) => Err(error),
            Ok(image) => match page_mentions(image, target, model.layout) {
                Err(error) => Err(error),
                Ok(true) => Err(Error::InvalidState),
                Ok(false) => unreferenced(model, target, block + 1, pages),
            },
        }
    }
}

#[verifier::loop_isolation(false)]
fn meta_leads_to(page: &Page, target: u32) -> (result: Result<bool>)
    ensures
        result == meta_mentions(page@, target),
{
    if let Some(journal) = page.rewrite_journal()? {
        if journal.head == target || journal.tail == target {
            return Ok(true);
        }
    }
    let (head, tail): (u32, u32) = page.owner_chain()?;
    if head == target || tail == target {
        return Ok(true);
    }
    if page.free_head()? == target {
        return Ok(true);
    }
    let mut bucket: usize = 0;
    while bucket < BUCKETS
        invariant
            bucket <= BUCKETS,
            buckets_mention(page@, target, 0) == buckets_mention(page@, target, bucket as int),
        decreases BUCKETS - bucket,
    {
        let (head, tail): (u32, u32) = page.bucket(bucket)?;
        if head == target || tail == target {
            return Ok(true);
        }
        bucket += 1;
    }
    Ok(false)
}

#[verifier::loop_isolation(false)]
fn owners_lead_to(page: &Page, target: u32, layout: HeapLayout) -> (result: Result<bool>)
    ensures
        result == match page@.owner_count() {
            Err(error) => Err(error),
            Ok(count) => owners_mention(page@, target, 0, count as int, layout),
        },
{
    let count: u16 = page.owner_count()?;
    let mut slot: u16 = 0;
    while slot < count
        invariant
            slot <= count,
            owners_mention(page@, target, 0, count as int, layout) == owners_mention(
                page@,
                target,
                slot as int,
                count as int,
                layout,
            ),
        decreases count - slot,
    {
        let owner: Owner<'_> = page.owner(slot, layout)?;
        assert(owner@ == page@.owner(slot, layout)->Ok_0);
        if owner.data_head == target {
            return Ok(true);
        }
        slot += 1;
    }
    Ok(false)
}

#[verifier::loop_isolation(false)]
fn terms_lead_to(page: &Page, target: u32) -> (result: Result<bool>)
    ensures
        result == match page@.terms() {
            Err(error) => Err(error),
            Ok(outcomes) => terms_mention(outcomes, target),
        },
{
    let mut terms: Terms<'_> = page.terms()?;
    let ghost total = terms_mention(terms@, target);
    loop
        invariant
            total == terms_mention(terms@, target),
        decreases terms@.len(),
    {
        let term: Term<'_> = match terms.next() {
            None => {
                return Ok(false);
            },
            Some(term) => term?,
        };
        if term.head == target || term.tail == target || term.first.page == target {
            return Ok(true);
        }
    }
}

#[verifier::loop_isolation(false)]
fn postings_lead_to(page: &Page, target: u32) -> (result: Result<bool>)
    ensures
        result == postings_mention(page@, target),
{
    if page.posting_term()?.page == target {
        return Ok(true);
    }
    let mut owners: Postings<'_> = page.posting_refs()?;
    let ghost total = references_mention(owners@, target);
    loop
        invariant
            total == references_mention(owners@, target),
        decreases owners@.len(),
    {
        let owner: OwnerRef = match owners.next() {
            None => {
                return Ok(false);
            },
            Some(owner) => owner?,
        };
        if owner.page == target {
            return Ok(true);
        }
    }
}

fn leads_to(page: &Page, target: u32, layout: HeapLayout) -> (result: Result<bool>)
    ensures
        result == page_mentions(page@, target, layout),
{
    if page.kind() == PageKind::Zero {
        return Ok(false);
    }
    if page.next()? == target {
        return Ok(true);
    }
    match page.kind() {
        PageKind::Meta => meta_leads_to(page, target),
        PageKind::Owners => owners_lead_to(page, target, layout),
        PageKind::Dictionary => terms_lead_to(page, target),
        PageKind::Postings => postings_lead_to(page, target),
        PageKind::SealedPostings => postings_lead_to(page, target),
        PageKind::Fragment => {
            let (owner, _, _): (OwnerRef, u32, &[u8]) = page.fragment_data()?;
            Ok(owner.page == target)
        },
        _ => Ok(false),
    }
}

/// Rare allocation-orphan recovery uses bounded scratch rather than a
/// relation-sized set.
#[verifier::loop_isolation(false)]
fn check_unreferenced<S: PageStore>(store: &mut S, target: u32, pages: u32) -> (result: Result<()>)
    ensures
        answers(
            old(store).host(),
            final(store).host(),
            result,
            unreferenced(old(store).host().model, target, 0, pages as int),
        ),
{
    let ghost model = store.host().model;
    let mut block: u32 = 0;
    while block < pages
        invariant
            block <= pages,
            store.host() == old(store).host(),
            unreferenced(model, target, 0, pages as int) == unreferenced(
                model,
                target,
                block as int,
                pages as int,
            ),
        decreases pages - block,
    {
        let page: Page = load_any(store, block)?;
        if leads_to(&page, target, store.layout())? {
            return Err(Error::InvalidState);
        }
        block += 1;
    }
    Ok(())
}

/// Freeing the all-zero pages from `block` on that nothing leads to.
pub open spec fn zeros_freed(
    model: StoreModel,
    meta: Image,
    block: int,
    pages: int,
    stats: VacuumStats,
) -> Change<VacuumStats>
    decreases pages - block,
{
    if block >= pages {
        Change::made(model, stats)
    } else {
        match model.load_any(block as u32) {
            Err(error) => Change::refused(model, error),
            Ok(page) => if page.kind != PageKind::Zero {
                zeros_freed(model, meta, block + 1, pages, stats)
            } else {
                match unreferenced(model, block as u32, 0, pages) {
                    Err(error) => Change::refused(model, error),
                    Ok(_) => {
                        let step = freed_and_counted(
                            model,
                            meta,
                            block as u32,
                            true,
                            stats,
                            true,
                        );
                        match step.value {
                            Err(error) => Change::refused(step.model, error),
                            Ok(sweep) => zeros_freed(
                                step.model,
                                sweep.meta,
                                block + 1,
                                pages,
                                sweep.stats,
                            ),
                        }
                    },
                }
            },
        }
    }
}

/// Sweeps one page.
fn sweep_page<S: PageStore>(
    store: &mut S,
    meta: &mut Page,
    block: u32,
    stats: VacuumStats,
    zero: bool,
) -> (result: Result<(VacuumStats, bool)>)
    requires
        has_meta(old(store).host().model, old(meta)@),
    ensures
        result is Ok ==> has_meta(final(store).host().model, final(meta)@),
        performs(
            old(store).host(),
            final(store).host(),
            match result {
                Ok((stats, zero)) => Ok(Sweep { meta: final(meta)@, stats, zero }),
                Err(error) => Err(error),
            },
            page_swept(old(store).host().model, old(meta)@, block, stats, zero),
        ),
{
    let page: Page = load_any(store, block)?;
    match page.kind() {
        PageKind::Zero => Ok((stats, true)),
        PageKind::Free => {
            if stats.free_pages == u32::MAX {
                return Err(Error::Limit("vacuum pages"));
            }
            Ok((VacuumStats { free_pages: stats.free_pages + 1, ..stats }, zero))
        },
        PageKind::Fragment => {
            let (reference, _, _): (OwnerRef, u32, &[u8]) = page.fragment_data()?;
            let owners: Page = load(store, reference.page, PageKind::Owners)?;
            let gone: bool = {
                let owner: Owner<'_> = owners.owner(reference.slot, store.layout())?;
                assert(owner@ == owners@.owner(
                    reference.slot,
                    old(store).host().model.layout,
                )->Ok_0);
                if owner.reference != reference {
                    return Err(Error::InvalidState);
                }
                owner.publication != Publication::Published || !owner.live
            };
            if gone {
                reclaim(store, meta, block, false)?;
                let stats: VacuumStats = count_reclaimed(stats)?;
                return Ok((stats, zero));
            }
            Ok((stats, zero))
        },
        _ => Ok((stats, zero)),
    }
}

/// Frees the all-zero pages that nothing leads to.
#[verifier::loop_isolation(false)]
fn free_zeros<S: PageStore>(store: &mut S, meta: &mut Page, begun: VacuumStats) -> (result: Result<
    VacuumStats,
>)
    requires
        has_meta(old(store).host().model, old(meta)@),
    ensures
        performs(
            old(store).host(),
            final(store).host(),
            result,
            zeros_freed(old(store).host().model, old(meta)@, 1, begun.pages as int, begun),
        ),
{
    let pages: u32 = begun.pages;
    let mut stats: VacuumStats = begun;
    let mut block: u32 = 1;
    let ghost total = zeros_freed(store.host().model, meta@, 1, pages as int, begun);
    while block < pages
        invariant
            block >= 1,
            same_host(old(store).host(), store.host()),
            has_meta(store.host().model, meta@),
            total == zeros_freed(
                store.host().model,
                meta@,
                block as int,
                pages as int,
                stats,
            ),
        decreases pages - block,
    {
        let page: Page = load_any(store, block)?;
        if page.kind() == PageKind::Zero {
            check_unreferenced(store, block, pages)?;
            reclaim(store, meta, block, true)?;
            stats = count_reclaimed(stats)?;
        }
        block += 1;
    }
    Ok(stats)
}

/// Vacuuming behind the judged owners: dead fragments, then all-zero pages.
pub open spec fn storage_vacuumed(model: StoreModel, meta: Image, stats: VacuumStats) -> Change<
    VacuumStats,
> {
    let pages = model.pages.len() as u32;
    let swept = pages_swept(
        model,
        meta,
        1,
        pages as int,
        VacuumStats { pages, ..stats },
        false,
    );
    match swept.value {
        Err(error) => Change::refused(swept.model, error),
        Ok(sweep) => if sweep.zero {
            zeros_freed(swept.model, sweep.meta, 1, pages as int, sweep.stats)
        } else {
            Change::made(swept.model, sweep.stats)
        },
    }
}

/// Vacuuming a relation.
pub open spec fn vacuumed(model: StoreModel, removes: spec_fn(RootTid) -> bool) -> Change<
    VacuumStats,
> {
    let reclaimed = recovered(model);
    match reclaimed.value {
        Err(error) => Change::refused(reclaimed.model, error),
        Ok(count) => match reclaimed.model.load(0, PageKind::Meta) {
            Err(error) => Change::refused(reclaimed.model, error),
            Ok(meta) => match meta.owner_chain() {
                Err(error) => Change::refused(reclaimed.model, error),
                Ok((head, tail)) => {
                    let judged = if head == NO_BLOCK {
                        Change::made(reclaimed.model, vacuum_begun(count))
                    } else {
                        owners_judged(reclaimed.model, head, tail, removes, vacuum_begun(count))
                    };
                    match judged.value {
                        Err(error) => Change::refused(judged.model, error),
                        Ok(stats) => storage_vacuumed(judged.model, meta, stats),
                    }
                },
            },
        },
    }
}

/// Reclaims dead fragments, then all-zero pages.
#[verifier::loop_isolation(false)]
fn vacuum_storage<S: PageStore>(store: &mut S, meta: &mut Page, begun: VacuumStats) -> (result:
    Result<VacuumStats>)
    requires
        has_meta(old(store).host().model, old(meta)@),
    ensures
        performs(
            old(store).host(),
            final(store).host(),
            result,
            storage_vacuumed(old(store).host().model, old(meta)@, begun),
        ),
{
    let pages: u32 = store.blocks()?;
    let mut stats: VacuumStats = VacuumStats { pages, ..begun };
    let mut zero: bool = false;
    let mut block: u32 = 1;
    let ghost total = pages_swept(store.host().model, meta@, 1, pages as int, stats, false);
    while block < pages
        invariant
            block >= 1,
            stats.pages == pages,
            same_host(old(store).host(), store.host()),
            has_meta(store.host().model, meta@),
            total == pages_swept(
                store.host().model,
                meta@,
                block as int,
                pages as int,
                stats,
                zero,
            ),
        decreases pages - block,
    {
        let (after, met): (VacuumStats, bool) = sweep_page(store, meta, block, stats, zero)?;
        stats = after;
        zero = met;
        block += 1;
    }
    if zero {
        return free_zeros(store, meta, stats);
    }
    Ok(stats)
}

/// Removes each callback-approved owner once, then reclaims dead fragments.
///
/// # Errors
/// Rejects corruption or any host or callback failure. Partial completed batches
/// are durable and idempotent on the next pass; no published live owner is
/// reclaimed. Zero-page recovery checks every possible incoming reference before
/// reuse.
pub fn vacuum<S: PageStore, F: RootFilter>(store: &mut S, removable: &mut F) -> (result: Result<
    VacuumStats,
>)
    ensures
        performs_with(
            old(store).host(),
            final(store).host(),
            result,
            vacuumed(old(store).host().model, |root: RootTid| old(removable).removes(root)),
            old(removable).certain(),
        ),
        result is Ok ==> final(removable).asked() == old(removable).asked() + vacuum_questions(
            old(store).host().model,
        ),
{
    let count: u32 = recover(store)?;
    let mut meta: Page = load(store, 0, PageKind::Meta)?;
    let (head, tail): (u32, u32) = meta.owner_chain()?;
    let begun: VacuumStats = VacuumStats { reclaimed_pages: count, ..VacuumStats::default() };
    let ghost model = store.host().model;
    proof {
        assert(removable.asked() + Seq::<RootTid>::empty() =~= removable.asked());
    }
    let stats: VacuumStats = if head == NO_BLOCK {
        begun
    } else {
        judge_owners(store, head, tail, removable, begun)?
    };
    proof {
        if head != NO_BLOCK {
            judging_keeps_blocks(
                model,
                head,
                tail,
                |root: RootTid| old(removable).removes(root),
                begun,
            );
        }
    }
    vacuum_storage(store, &mut meta, stats)
}

/// Judging the slots of a page leaves its place and kind.
proof fn judging_keeps_place(
    image: Image,
    slot: int,
    count: int,
    layout: HeapLayout,
    removes: spec_fn(RootTid) -> bool,
    changed: bool,
    stats: VacuumStats,
)
    ensures
        page_judged(image, slot, count, layout, removes, changed, stats) matches Ok((after, _, _))
            ==> after.block == image.block && after.kind == image.kind,
    decreases count - slot,
{
    if slot < count {
        if let Ok(owner) = image.owner(slot as u16, layout) {
            let next = with_owner(stats, owner, removes);
            match owner_fate(owner, removes) {
                None => {
                    judging_keeps_place(image, slot + 1, count, layout, removes, changed, next);
                },
                Some(change) => {
                    if let Ok(after) = image.changed_owner(owner.reference, change, layout) {
                        judging_keeps_place(after, slot + 1, count, layout, removes, true, next);
                    }
                },
            }
        }
    }
}

/// Judging owners neither adds nor drops blocks.
proof fn judging_keeps_blocks(
    model: StoreModel,
    block: u32,
    tail: u32,
    removes: spec_fn(RootTid) -> bool,
    stats: VacuumStats,
)
    ensures
        owners_judged(model, block, tail, removes, stats).model.pages.len() == model.pages.len(),
    decreases tail - block,
{
    if let Ok(image) = model.load(block, PageKind::Owners) {
        if let Ok(count) = image.owner_count() {
            judging_keeps_place(image, 0, count as int, model.layout, removes, false, stats);
            if let Ok((judged, changed, after)) = page_judged(
                image,
                0,
                count as int,
                model.layout,
                removes,
                false,
                stats,
            ) {
                let next_model = if changed {
                    model.put(judged)
                } else {
                    model
                };
                if let Ok(Some(next)) = following_of(judged, tail) {
                    if block < next <= tail {
                        judging_keeps_blocks(next_model, next, tail, removes, after);
                    }
                }
            }
        }
    }
}

} // verus!
