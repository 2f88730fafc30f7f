//! The allocation journal of grouped snapshots: pages are appended to it,
//! published with it, and reclaimed through it.

use crate::codec::bytes::group_bytes;
use crate::error::{Error, Result};
use crate::identity::{group_identity, Incarnation, SegmentId};
use crate::mutable::grouped::anchors::store_state;
use crate::mutable::page::grouped_model::GroupModel;
use crate::mutable::page::model::{free_image, Image};
use crate::mutable::page::{
    GroupJournal, GroupRetired, GroupSnapshot, GroupState, OwnerRef, Page, PageKind, RewritePhase,
    GROUP_DELTA_SEGMENTS, GROUP_RETIRED_SEGMENTS, NO_BLOCK,
};
use crate::mutable::steps::block_taken;
use crate::mutable::store::{
    answers, commit_one, commit_three, commit_two, load, performs, posting_next, posting_next_of,
    same_host, Change, PageStore, Stage, StoreModel,
};
use crate::mutable::writer::{has_meta, take_block};
use vstd::prelude::*;

verus! {

broadcast use {group_bytes, group_identity};

/// How many pages hold grouped records.
pub open spec fn grouped_pages(pages: Seq<Image>) -> nat
    decreases pages.len(),
{
    if pages.len() == 0 {
        0
    } else {
        grouped_pages(pages.drop_last()) + if pages.last().kind == PageKind::Grouped {
            1nat
        } else {
            0
        }
    }
}

proof fn grouped_pages_updated(pages: Seq<Image>, index: int, image: Image)
    requires
        0 <= index < pages.len(),
    ensures
        grouped_pages(pages.update(index, image)) + (if pages[index].kind == PageKind::Grouped {
            1nat
        } else {
            0
        }) == grouped_pages(pages) + (if image.kind == PageKind::Grouped {
            1nat
        } else {
            0
        }),
    decreases pages.len(),
{
    let updated = pages.update(index, image);
    if index == pages.len() - 1 {
        assert(updated.drop_last() =~= pages.drop_last());
    } else {
        grouped_pages_updated(pages.drop_last(), index, image);
        assert(updated.drop_last() =~= pages.drop_last().update(index, image));
    }
}

/// Whether the pages of a chain all belong to a segment and end at its tail:
/// how many they are.
pub open spec fn group_chain_inspected(
    model: StoreModel,
    id: SegmentId,
    block: u32,
    tail: u32,
    remaining: u32,
    count: int,
) -> Result<u32>
    decreases remaining,
{
    match model.load(block, PageKind::Grouped) {
        Err(error) => Err(error),
        Ok(page) => match page.group_identity() {
            Err(error) => Err(error),
            Ok((owner, _)) => match page.next() {
                Err(error) => Err(error),
                Ok(next) => if owner != id || (block == tail && next != NO_BLOCK) {
                    Err(Error::InvalidState)
                } else {
                    match posting_next_of(page, tail, remaining) {
                        Err(error) => Err(error),
                        Ok(None) => Ok((count + 1) as u32),
                        Ok(Some(next)) => if remaining > 0 {
                            group_chain_inspected(
                                model,
                                id,
                                next,
                                tail,
                                (remaining - 1) as u32,
                                count + 1,
                            )
                        } else {
                            Err(Error::InvalidState)
                        },
                    }
                },
            },
        },
    }
}

/// The number of pages of a segment's chain.
pub open spec fn group_inspected(model: StoreModel, id: SegmentId, head: u32, tail: u32) -> Result<
    u32,
> {
    if head == NO_BLOCK {
        if tail == NO_BLOCK {
            Ok(0)
        } else {
            Err(Error::InvalidState)
        }
    } else {
        group_chain_inspected(model, id, head, tail, model.pages.len() as u32, 0)
    }
}

#[verifier::loop_isolation(false)]
pub(crate) fn inspect<S: PageStore>(store: &mut S, id: SegmentId, head: u32, tail: u32) -> (result:
    Result<u32>)
    ensures
        answers(
            old(store).host(),
            final(store).host(),
            result,
            group_inspected(old(store).host().model, id, head, tail),
        ),
{
    if head == NO_BLOCK {
        return if tail == NO_BLOCK {
            Ok(0)
        } else {
            Err(Error::InvalidState)
        };
    }
    let ghost model = store.host().model;
    let blocks: u32 = store.blocks()?;
    let mut remaining: u32 = blocks;
    let mut block: u32 = head;
    let mut count: u32 = 0;
    loop
        invariant
            store.host() == old(store).host(),
            count + remaining <= blocks,
            group_inspected(model, id, head, tail) == group_chain_inspected(
                model,
                id,
                block,
                tail,
                remaining,
                count as int,
            ),
        decreases remaining,
    {
        let page: Page = load(store, block, PageKind::Grouped)?;
        let (owner, _): (SegmentId, crate::mutable::page::GroupPageKind) = page.group_identity()?;
        let next: u32 = page.next()?;
        if owner != id || (block == tail && next != NO_BLOCK) {
            return Err(Error::InvalidState);
        }
        match posting_next(&page, tail, &mut remaining)? {
            Some(next) => {
                block = next;
                count = count + 1;
            },
            None => {
                return Ok(count + 1);
            },
        }
    }
}

/// Whether a segment is active, in a delta or retired.
pub open spec fn segment_known(state: GroupModel, id: SegmentId) -> bool {
    ||| state.active matches Some(active) && active.id == id
    ||| exists|i: int|
        0 <= i < state.deltas.len() && (#[trigger] state.deltas[i] matches Some(delta)
            && delta.snapshot.id == id)
    ||| exists|i: int|
        0 <= i < state.retired.len() && (#[trigger] state.retired[i] matches Some(retired)
            && retired.id == id)
}

/// The block behind the head of a chain; none behind its tail.
pub open spec fn chain_rest(model: StoreModel, head: u32, tail: u32) -> Result<u32> {
    match model.load(head, PageKind::Grouped) {
        Err(error) => Err(error),
        Ok(page) => if head == tail {
            Ok(NO_BLOCK)
        } else {
            match page.next() {
                Err(error) => Err(error),
                Ok(next) => if next == NO_BLOCK {
                    Err(Error::InvalidState)
                } else {
                    Ok(next)
                },
            }
        },
    }
}

/// Freeing the head of a chain and storing the state then: how many pages were
/// reclaimed now.
pub open spec fn head_freed(
    model: StoreModel,
    meta: Image,
    head: u32,
    state: GroupModel,
    reclaimed: u32,
) -> Change<(u32, bool)> {
    match meta.free_head() {
        Err(error) => Change::refused(model, error),
        Ok(free_head) => match free_image(head, free_head) {
            Err(error) => Change::refused(model, error),
            Ok(free) => match meta.with_free_head(head) {
                Err(error) => Change::refused(model, error),
                Ok(meta) => match meta.with_group_state(state) {
                    Err(error) => Change::refused(model, error),
                    Ok(meta) => if reclaimed == u32::MAX {
                        Change::refused(
                            model.put(meta).put(free),
                            Error::Limit("group recovery pages"),
                        )
                    } else {
                        Change::made(
                            model.put(meta).put(free),
                            ((reclaimed + 1) as u32, true),
                        )
                    },
                },
            },
        },
    }
}

/// One step of discarding an unpublished journal, and whether more may follow.
pub open spec fn journal_step(model: StoreModel, reclaimed: u32) -> Change<(u32, bool)> {
    match model.load(0, PageKind::Meta) {
        Err(error) => Change::refused(model, error),
        Ok(meta) => match meta.grouped_state() {
            Err(error) => Change::refused(model, error),
            Ok(state) => match state.journal {
                None => Change::made(model, (reclaimed, false)),
                Some(journal) => match group_inspected(
                    model,
                    journal.id,
                    journal.head,
                    journal.tail,
                ) {
                    Err(error) => Change::refused(model, error),
                    Ok(_) => if segment_known(state, journal.id) {
                        Change::refused(model, Error::InvalidState)
                    } else if journal.head == NO_BLOCK {
                        match meta.with_group_state(GroupModel { journal: None, ..state }) {
                            Err(error) => Change::refused(model, error),
                            Ok(meta) => Change::made(model.put(meta), (reclaimed, false)),
                        }
                    } else {
                        match chain_rest(model, journal.head, journal.tail) {
                            Err(error) => Change::refused(model, error),
                            Ok(next) => head_freed(
                                model,
                                meta,
                                journal.head,
                                GroupModel {
                                    journal: if next != NO_BLOCK {
                                        Some(GroupJournal { head: next, ..journal })
                                    } else {
                                        None
                                    },
                                    ..state
                                },
                                reclaimed,
                            ),
                        }
                    },
                },
            },
        },
    }
}

/// Discarding an unpublished journal: how many pages were reclaimed.
pub open spec fn journal_discarded(model: StoreModel, reclaimed: u32) -> Change<u32>
    decreases grouped_pages(model.pages),
{
    let step = journal_step(model, reclaimed);
    match step.value {
        Err(error) => Change::refused(step.model, error),
        Ok((reclaimed, more)) => if more && grouped_pages(step.model.pages) < grouped_pages(
            model.pages,
        ) {
            journal_discarded(step.model, reclaimed)
        } else {
            Change::made(step.model, reclaimed)
        },
    }
}

/// The place of the first retired segment.
pub open spec fn first_retired(retired: Seq<Option<GroupRetired>>, index: int) -> Option<int>
    decreases retired.len() - index,
{
    if index >= retired.len() {
        None
    } else if retired[index] is Some {
        Some(index)
    } else {
        first_retired(retired, index + 1)
    }
}

/// The retired segments without the one at `index`.
pub open spec fn without_retired(retired: Seq<Option<GroupRetired>>, index: int) -> Seq<
    Option<GroupRetired>,
> {
    Seq::new(
        retired.len(),
        |i: int|
            if i < index {
                retired[i]
            } else if i + 1 < retired.len() {
                retired[i + 1]
            } else {
                None
            },
    )
}

/// One step of reclaiming retired segments, and whether more may follow.
pub open spec fn retired_step(model: StoreModel, reclaimed: u32) -> Change<(u32, bool)> {
    match model.load(0, PageKind::Meta) {
        Err(error) => Change::refused(model, error),
        Ok(meta) => match meta.grouped_state() {
            Err(error) => Change::refused(model, error),
            Ok(state) => match first_retired(state.retired, 0) {
                None => Change::made(model, (reclaimed, false)),
                Some(index) => {
                    let retiring = state.retired[index]->Some_0;
                    match group_inspected(model, retiring.id, retiring.head, retiring.tail) {
                        Err(error) => Change::refused(model, error),
                        Ok(_) => match chain_rest(model, retiring.head, retiring.tail) {
                            Err(error) => Change::refused(model, error),
                            Ok(next) => head_freed(
                                model,
                                meta,
                                retiring.head,
                                GroupModel {
                                    retired: if next == NO_BLOCK {
                                        without_retired(state.retired, index)
                                    } else {
                                        state.retired.update(
                                            index,
                                            Some(GroupRetired { head: next, ..retiring }),
                                        )
                                    },
                                    ..state
                                },
                                reclaimed,
                            ),
                        },
                    }
                },
            },
        },
    }
}

/// Reclaiming all retired segments: how many pages were reclaimed.
pub open spec fn retired_reclaimed(model: StoreModel, reclaimed: u32) -> Change<u32>
    decreases grouped_pages(model.pages),
{
    let step = retired_step(model, reclaimed);
    match step.value {
        Err(error) => Change::refused(step.model, error),
        Ok((reclaimed, more)) => if more && grouped_pages(step.model.pages) < grouped_pages(
            model.pages,
        ) {
            retired_reclaimed(step.model, reclaimed)
        } else {
            Change::made(step.model, reclaimed)
        },
    }
}

/// Reclaiming unpublished and retired pages: how many.
pub open spec fn group_recovered(model: StoreModel) -> Change<u32> {
    let discarded = journal_discarded(model, 0);
    match discarded.value {
        Err(error) => Change::refused(discarded.model, error),
        Ok(reclaimed) => retired_reclaimed(discarded.model, reclaimed),
    }
}

/// Whether a segment is active, in a delta or retired.
#[verifier::loop_isolation(false)]
fn knows_segment(state: &GroupState, id: SegmentId) -> (known: bool)
    ensures
        known == segment_known(state@, id),
{
    if let Some(active) = state.active {
        if active.id == id {
            return true;
        }
    }
    let mut index: usize = 0;
    while index < GROUP_DELTA_SEGMENTS
        invariant
            index <= 16,
            forall|i: int|
                0 <= i < index ==> !(#[trigger] state@.deltas[i] matches Some(delta)
                    && delta.snapshot.id == id),
        decreases 16 - index,
    {
        if let Some(delta) = state.deltas[index] {
            if delta.snapshot.id == id {
                assert(state@.deltas[index as int] == Some(delta));
                return true;
            }
        }
        index += 1;
    }
    let mut index: usize = 0;
    while index < GROUP_RETIRED_SEGMENTS
        invariant
            index <= 17,
            forall|i: int|
                0 <= i < index ==> !(#[trigger] state@.retired[i] matches Some(retired)
                    && retired.id == id),
        decreases 17 - index,
    {
        if let Some(retired) = state.retired[index] {
            if retired.id == id {
                assert(state@.retired[index as int] == Some(retired));
                return true;
            }
        }
        index += 1;
    }
    false
}

/// The block behind the head of a chain.
fn rest_of_chain<S: PageStore>(store: &mut S, head: u32, tail: u32) -> (result: Result<u32>)
    ensures
        answers(
            old(store).host(),
            final(store).host(),
            result,
            chain_rest(old(store).host().model, head, tail),
        ),
{
    let page: Page = load(store, head, PageKind::Grouped)?;
    if head == tail {
        return Ok(NO_BLOCK);
    }
    let next: u32 = page.next()?;
    if next == NO_BLOCK {
        return Err(Error::InvalidState);
    }
    Ok(next)
}

/// Frees the head of a chain and stores the state then.
fn free_head<S: PageStore>(
    store: &mut S,
    meta: &mut Page,
    head: u32,
    state: GroupState,
    reclaimed: u32,
) -> (result: Result<(u32, bool)>)
    requires
        has_meta(old(store).host().model, old(meta)@),
        old(store).host().model.has(head),
        old(meta)@.bytes.len() >= 4160,
    ensures
        performs(
            old(store).host(),
            final(store).host(),
            result,
            head_freed(old(store).host().model, old(meta)@, head, state@, reclaimed),
        ),
{
    let free: Page = Page::free(head, meta.free_head()?)?;
    meta.set_free_head(head)?;
    store_state(meta, state)?;
    commit_two(store, meta, &free)?;
    store.event(Stage::GroupReclaimed)?;
    match reclaimed.checked_add(1) {
        Some(reclaimed) => Ok((reclaimed, true)),
        None => Err(Error::Limit("group recovery pages")),
    }
}

/// One step of discarding an unpublished journal.
fn discard_step<S: PageStore>(store: &mut S, reclaimed: u32) -> (result: Result<(u32, bool)>)
    ensures
        performs(
            old(store).host(),
            final(store).host(),
            result,
            journal_step(old(store).host().model, reclaimed),
        ),
{
    let mut meta: Page = load(store, 0, PageKind::Meta)?;
    let mut state: GroupState = meta.grouped_state()?;
    let journal: GroupJournal = match state.journal {
        Some(journal) => journal,
        None => {
            return Ok((reclaimed, false));
        },
    };
    inspect(store, journal.id, journal.head, journal.tail)?;
    if knows_segment(&state, journal.id) {
        return Err(Error::InvalidState);
    }
    let ghost before = state@;
    if journal.head == NO_BLOCK {
        state.journal = None;
        assert(state@ =~= GroupModel { journal: None, ..before });
        store_state(&mut meta, state)?;
        commit_one(store, &meta)?;
        return Ok((reclaimed, false));
    }
    let next: u32 = rest_of_chain(store, journal.head, journal.tail)?;
    state.journal = if next != NO_BLOCK {
        Some(GroupJournal { head: next, ..journal })
    } else {
        None
    };
    assert(state@ =~= GroupModel { journal: state.journal, ..before });
    free_head(store, &mut meta, journal.head, state, reclaimed)
}

/// Finds the first retired segment.
#[verifier::loop_isolation(false)]
fn find_retired(state: &GroupState) -> (found: Option<(usize, GroupRetired)>)
    ensures
        match first_retired(state@.retired, 0) {
            None => found is None,
            Some(index) => found matches Some((place, retired)) && place == index && place < 17
                && state@.retired[index] == Some(retired),
        },
{
    let mut index: usize = 0;
    while index < GROUP_RETIRED_SEGMENTS
        invariant
            index <= 17,
            first_retired(state@.retired, 0) == first_retired(state@.retired, index as int),
        decreases 17 - index,
    {
        if let Some(retired) = state.retired[index] {
            return Some((index, retired));
        }
        index += 1;
    }
    None
}

/// Drops a retired segment.
#[verifier::loop_isolation(false)]
fn shift_retired(state: &mut GroupState, index: usize)
    requires
        index < 17,
    ensures
        final(state)@ == (GroupModel {
            retired: without_retired(old(state)@.retired, index as int),
            ..old(state)@
        }),
{
    let mut slot: usize = index;
    let ghost before = state.retired@;
    while slot < GROUP_RETIRED_SEGMENTS - 1
        invariant
            index <= slot <= 16,
            state.active == old(state).active,
            state.journal == old(state).journal,
            state.deltas == old(state).deltas,
            forall|i: int|
                0 <= i < 17 ==> #[trigger] state.retired@[i] == if index <= i < slot {
                    before[i + 1]
                } else {
                    before[i]
                },
        decreases 16 - slot,
    {
        state.retired[slot] = state.retired[slot + 1];
        slot += 1;
    }
    state.retired[GROUP_RETIRED_SEGMENTS - 1] = None;
    assert(state@.retired =~= without_retired(before, index as int));
}

/// One step of reclaiming retired segments.
fn reclaim_step<S: PageStore>(store: &mut S, reclaimed: u32) -> (result: Result<(u32, bool)>)
    ensures
        performs(
            old(store).host(),
            final(store).host(),
            result,
            retired_step(old(store).host().model, reclaimed),
        ),
{
    let mut meta: Page = load(store, 0, PageKind::Meta)?;
    let mut state: GroupState = meta.grouped_state()?;
    let (index, retiring): (usize, GroupRetired) = match find_retired(&state) {
        Some(found) => found,
        None => {
            return Ok((reclaimed, false));
        },
    };
    inspect(store, retiring.id, retiring.head, retiring.tail)?;
    let next: u32 = rest_of_chain(store, retiring.head, retiring.tail)?;
    let ghost before = state@;
    if next == NO_BLOCK {
        shift_retired(&mut state, index);
    } else {
        state.retired[index] = Some(GroupRetired { head: next, ..retiring });
        assert(state@ =~= GroupModel {
            retired: before.retired.update(
                index as int,
                Some(GroupRetired { head: next, ..retiring }),
            ),
            ..before
        });
    }
    free_head(store, &mut meta, retiring.head, state, reclaimed)
}

/// Freeing the head of a grouped chain leaves fewer grouped pages.
proof fn freeing_shrinks(
    model: StoreModel,
    meta: Image,
    head: u32,
    state: GroupModel,
    reclaimed: u32,
)
    requires
        model.load(0, PageKind::Meta) == Ok::<Image, Error>(meta),
        model.load(head, PageKind::Grouped) is Ok,
    ensures
        head_freed(model, meta, head, state, reclaimed).value is Ok ==> grouped_pages(
            head_freed(model, meta, head, state, reclaimed).model.pages,
        ) < grouped_pages(model.pages),
{
    let change = head_freed(model, meta, head, state, reclaimed);
    if change.value is Ok {
        let free = free_image(head, meta.free_head()->Ok_0)->Ok_0;
        let after = meta.with_free_head(head)->Ok_0.with_group_state(state)->Ok_0;
        let middle = model.put(after);
        grouped_pages_updated(model.pages, 0, crate::mutable::store::stored(after));
        grouped_pages_updated(middle.pages, head as int, crate::mutable::store::stored(free));
    }
}

/// Reclaims only unpublished or retired grouped chains under reader quiescence.
#[verifier::loop_isolation(false)]
pub(crate) fn recover<S: PageStore>(store: &mut S) -> (result: Result<u32>)
    ensures
        performs(
            old(store).host(),
            final(store).host(),
            result,
            group_recovered(old(store).host().model),
        ),
{
    let ghost first = journal_discarded(store.host().model, 0);
    let mut reclaimed: u32 = 0;
    let mut more: bool = true;
    while more
        invariant
            same_host(old(store).host(), store.host()),
            if more {
                first == journal_discarded(store.host().model, reclaimed)
            } else {
                first == Change::made(store.host().model, reclaimed)
            },
        decreases
                grouped_pages(store.host().model.pages),
                if more {
                    1int
                } else {
                    0int
                },
    {
        let ghost before = store.host().model;
        proof {
            step_shrinks(before, reclaimed);
        }
        let (count, again): (u32, bool) = discard_step(store, reclaimed)?;
        reclaimed = count;
        more = again;
    }
    let ghost second = retired_reclaimed(store.host().model, reclaimed);
    more = true;
    while more
        invariant
            same_host(old(store).host(), store.host()),
            if more {
                second == retired_reclaimed(store.host().model, reclaimed)
            } else {
                second == Change::made(store.host().model, reclaimed)
            },
        decreases
                grouped_pages(store.host().model.pages),
                if more {
                    1int
                } else {
                    0int
                },
    {
        let ghost before = store.host().model;
        proof {
            step_shrinks(before, reclaimed);
        }
        let (count, again): (u32, bool) = reclaim_step(store, reclaimed)?;
        reclaimed = count;
        more = again;
    }
    Ok(reclaimed)
}

/// A step that asks for more leaves fewer grouped pages; the last one does not
/// add any.
proof fn step_shrinks(model: StoreModel, reclaimed: u32)
    ensures
        journal_step(model, reclaimed).value matches Ok((_, more)) ==> if more {
            grouped_pages(journal_step(model, reclaimed).model.pages) < grouped_pages(model.pages)
        } else {
            grouped_pages(journal_step(model, reclaimed).model.pages) <= grouped_pages(model.pages)
        },
        retired_step(model, reclaimed).value matches Ok((_, more)) ==> if more {
            grouped_pages(retired_step(model, reclaimed).model.pages) < grouped_pages(model.pages)
        } else {
            grouped_pages(retired_step(model, reclaimed).model.pages) <= grouped_pages(model.pages)
        },
{
    if let Ok(meta) = model.load(0, PageKind::Meta) {
        if let Ok(state) = meta.grouped_state() {
            if let Some(journal) = state.journal {
                if journal.head == NO_BLOCK {
                    if let Ok(after) = meta.with_group_state(
                        GroupModel { journal: None, ..state },
                    ) {
                        grouped_pages_updated(
                            model.pages,
                            0,
                            crate::mutable::store::stored(after),
                        );
                    }
                } else if let Ok(next) = chain_rest(model, journal.head, journal.tail) {
                    freeing_shrinks(
                        model,
                        meta,
                        journal.head,
                        GroupModel {
                            journal: if next != NO_BLOCK {
                                Some(GroupJournal { head: next, ..journal })
                            } else {
                                None
                            },
                            ..state
                        },
                        reclaimed,
                    );
                }
            }
            if let Some(index) = first_retired(state.retired, 0) {
                let retiring = state.retired[index]->Some_0;
                if let Ok(next) = chain_rest(model, retiring.head, retiring.tail) {
                    freeing_shrinks(
                        model,
                        meta,
                        retiring.head,
                        GroupModel {
                            retired: if next == NO_BLOCK {
                                without_retired(state.retired, index)
                            } else {
                                state.retired.update(
                                    index,
                                    Some(GroupRetired { head: next, ..retiring }),
                                )
                            },
                            ..state
                        },
                        reclaimed,
                    );
                }
            }
        }
    }
}

/// Starting a segment: its snapshot, with nothing in it.
pub open spec fn group_begun(model: StoreModel, after: Option<OwnerRef>) -> Change<GroupSnapshot> {
    let recovered = group_recovered(model);
    match recovered.value {
        Err(error) => Change::refused(recovered.model, error),
        Ok(_) => segment_reserved(recovered.model, after),
    }
}

/// Reserving a segment number and its journal.
pub open spec fn segment_reserved(model: StoreModel, after: Option<OwnerRef>) -> Change<
    GroupSnapshot,
> {
    match model.load(0, PageKind::Meta) {
        Err(error) => Change::refused(model, error),
        Ok(meta) => match meta.grouped_state() {
            Err(error) => Change::refused(model, error),
            Ok(state) => match meta.with_reserved() {
                Err(error) => Change::refused(model, error),
                Ok((incarnation, meta)) => {
                    let id = SegmentId::of(incarnation.get());
                    match meta.with_group_state(
                        GroupModel {
                            journal: Some(
                                GroupJournal {
                                    id,
                                    head: NO_BLOCK,
                                    tail: NO_BLOCK,
                                    phase: RewritePhase::Building,
                                },
                            ),
                            ..state
                        },
                    ) {
                        Err(error) => Change::refused(model, error),
                        Ok(meta) => Change::made(model.put(meta), empty_snapshot(id, after)),
                    }
                },
            },
        },
    }
}

/// A snapshot of a segment without pages.
pub open spec fn empty_snapshot(id: SegmentId, after: Option<OwnerRef>) -> GroupSnapshot {
    GroupSnapshot {
        id,
        head: NO_BLOCK,
        tail: NO_BLOCK,
        root: NO_BLOCK,
        after,
        frontier_root: None,
        frontier_valid: false,
    }
}

/// Starts a segment behind an owner.
pub(crate) fn begin<S: PageStore>(store: &mut S, after: Option<OwnerRef>) -> (result: Result<
    GroupSnapshot,
>)
    ensures
        performs(
            old(store).host(),
            final(store).host(),
            result,
            group_begun(old(store).host().model, after),
        ),
{
    recover(store)?;
    let mut meta: Page = load(store, 0, PageKind::Meta)?;
    let mut state: GroupState = meta.grouped_state()?;
    let ghost before = state@;
    let incarnation: Incarnation = meta.reserve_incarnation()?;
    let id: SegmentId = match SegmentId::new(incarnation.get()) {
        Ok(id) => id,
        Err(_) => {
            return Err(Error::InvalidState);
        },
    };
    state.journal = Some(
        GroupJournal { id, head: NO_BLOCK, tail: NO_BLOCK, phase: RewritePhase::Building },
    );
    assert(state@ =~= GroupModel { journal: state.journal, ..before });
    store_state(&mut meta, state)?;
    commit_one(store, &meta)?;
    store.event(Stage::GroupReserved)?;
    Ok(
        GroupSnapshot {
            id,
            head: NO_BLOCK,
            tail: NO_BLOCK,
            root: NO_BLOCK,
            after,
            frontier_root: None,
            frontier_valid: false,
        },
    )
}

/// Whether a journal is that of a snapshot under construction.
pub open spec fn journal_of(journal: GroupJournal, snapshot: GroupSnapshot) -> bool {
    &&& journal.id == snapshot.id
    &&& journal.phase == RewritePhase::Building
    &&& journal.head == snapshot.head
    &&& journal.tail == snapshot.tail
}

/// A block taken for a page of a segment, with the metadata and state then.
pub struct Slot {
    pub block: u32,
    pub meta: Page,
    pub state: GroupState,
    pub journal: GroupJournal,
}

/// A slot as a value.
#[verifier::ext_equal]
pub struct SlotModel {
    pub block: u32,
    pub meta: Image,
    pub state: GroupModel,
    pub journal: GroupJournal,
}

impl View for Slot {
    type V = SlotModel;

    open spec fn view(&self) -> SlotModel {
        SlotModel {
            block: self.block,
            meta: self.meta@,
            state: self.state@,
            journal: self.journal,
        }
    }
}

/// Taking a block for the next page of a segment.
pub open spec fn slot_taken(model: StoreModel, snapshot: GroupSnapshot) -> Change<SlotModel> {
    match model.load(0, PageKind::Meta) {
        Err(error) => Change::refused(model, error),
        Ok(meta) => match meta.grouped_state() {
            Err(error) => Change::refused(model, error),
            Ok(state) => match state.journal {
                None => Change::refused(model, Error::InvalidState),
                Some(journal) => if !journal_of(journal, snapshot) {
                    Change::refused(model, Error::InvalidState)
                } else {
                    let taken = block_taken(model, meta);
                    match taken.value {
                        Err(error) => Change::refused(taken.model, error),
                        Ok((block, meta)) => Change::made(
                            taken.model,
                            SlotModel { block, meta, state, journal },
                        ),
                    }
                },
            },
        },
    }
}

/// Appending a page to the journal of a segment: the snapshot then.
pub open spec fn page_attached(
    model: StoreModel,
    snapshot: GroupSnapshot,
    slot: SlotModel,
    page: Image,
) -> Change<GroupSnapshot> {
    let journal = slot.journal;
    match page.group_identity() {
        Err(error) => Change::refused(model, error),
        Ok((id, _)) => match page.next() {
            Err(error) => Change::refused(
                model,
                if id != snapshot.id {
                    Error::InvalidState
                } else {
                    error
                },
            ),
            Ok(next) => if id != snapshot.id || next != NO_BLOCK {
                Change::refused(model, Error::InvalidState)
            } else {
                let head = if journal.head == NO_BLOCK {
                    slot.block
                } else {
                    journal.head
                };
                let after = GroupSnapshot { head, tail: slot.block, ..snapshot };
                match slot.meta.with_group_state(
                    GroupModel {
                        journal: Some(GroupJournal { head, tail: slot.block, ..journal }),
                        ..slot.state
                    },
                ) {
                    Err(error) => Change::refused(model, error),
                    Ok(meta) => if journal.tail == NO_BLOCK {
                        Change::made(model.put(meta).put(page), after)
                    } else {
                        page_linked(model, meta, page, slot.block, journal.tail, after)
                    },
                }
            },
        },
    }
}

/// Linking a page behind the last one of its segment.
pub open spec fn page_linked(
    model: StoreModel,
    meta: Image,
    page: Image,
    block: u32,
    tail: u32,
    snapshot: GroupSnapshot,
) -> Change<GroupSnapshot> {
    match model.load(tail, PageKind::Grouped) {
        Err(error) => Change::refused(model, error),
        Ok(previous) => match previous.group_identity() {
            Err(error) => Change::refused(model, error),
            Ok((id, _)) => match previous.next() {
                Err(error) => Change::refused(
                    model,
                    if id != snapshot.id {
                        Error::InvalidState
                    } else {
                        error
                    },
                ),
                Ok(next) => if id != snapshot.id || next != NO_BLOCK {
                    Change::refused(model, Error::InvalidState)
                } else {
                    match previous.with_next(block) {
                        Err(error) => Change::refused(model, error),
                        Ok(previous) => Change::made(
                            model.put(meta).put(previous).put(page),
                            snapshot,
                        ),
                    }
                },
            },
        },
    }
}

/// Appending a page that is made for its block: the snapshot then.
#[verifier::opaque]
pub open spec fn page_appended(
    model: StoreModel,
    snapshot: GroupSnapshot,
    make: spec_fn(u32) -> Result<Image>,
) -> Change<GroupSnapshot> {
    let taken = slot_taken(model, snapshot);
    match taken.value {
        Err(error) => Change::refused(taken.model, error),
        Ok(slot) => match make(slot.block) {
            Err(error) => Change::refused(taken.model, error),
            Ok(page) => page_attached(taken.model, snapshot, slot, page),
        },
    }
}

/// Whether a slot was just taken.
pub open spec fn slot_ready(model: StoreModel, slot: SlotModel) -> bool {
    &&& has_meta(model, slot.meta)
    &&& slot.meta.bytes.len() >= 4160
    &&& slot.block != 0
    &&& crate::mutable::compact::unwritten(model, slot.block)
}

/// Takes a block for the next page of a segment.
pub(crate) fn take_slot<S: PageStore>(store: &mut S, snapshot: &GroupSnapshot) -> (result: Result<
    Slot,
>)
    ensures
        result matches Ok(slot) ==> slot_ready(final(store).host().model, slot@),
        performs(
            old(store).host(),
            final(store).host(),
            match result {
                Ok(slot) => Ok(slot@),
                Err(error) => Err(error),
            },
            slot_taken(old(store).host().model, *snapshot),
        ),
{
    let mut meta: Page = load(store, 0, PageKind::Meta)?;
    let state: GroupState = meta.grouped_state()?;
    let journal: GroupJournal = match state.journal {
        Some(journal) => journal,
        None => {
            return Err(Error::InvalidState);
        },
    };
    if journal.id != snapshot.id || journal.phase != RewritePhase::Building || journal.head
        != snapshot.head || journal.tail != snapshot.tail {
        return Err(Error::InvalidState);
    }
    let block: u32 = take_block(store, &mut meta)?;
    Ok(Slot { block, meta, state, journal })
}

/// Appends a page to the journal of a segment.
pub(crate) fn attach_page<S: PageStore>(
    store: &mut S,
    snapshot: &mut GroupSnapshot,
    slot: Slot,
    page: &Page,
) -> (result: Result<u32>)
    requires
        slot_ready(old(store).host().model, slot@),
        page@.block == slot.block,
    ensures
        result matches Ok(block) ==> block == slot.block && final(snapshot).tail == block,
        performs(
            old(store).host(),
            final(store).host(),
            match result {
                Ok(_) => Ok(*final(snapshot)),
                Err(error) => Err(error),
            },
            page_attached(old(store).host().model, *old(snapshot), slot@, page@),
        ),
{
    let block: u32 = slot.block;
    let journal: GroupJournal = slot.journal;
    let mut meta: Page = slot.meta;
    let mut state: GroupState = slot.state;
    let ghost before = state@;
    if page.group_identity()?.0 != snapshot.id {
        return Err(Error::InvalidState);
    }
    if page.next()? != NO_BLOCK {
        return Err(Error::InvalidState);
    }
    let head: u32 = if journal.head == NO_BLOCK {
        block
    } else {
        journal.head
    };
    state.journal = Some(GroupJournal { head, tail: block, ..journal });
    assert(state@ =~= GroupModel { journal: state.journal, ..before });
    store_state(&mut meta, state)?;
    if journal.tail == NO_BLOCK {
        commit_two(store, &meta, page)?;
    } else {
        let mut previous: Page = load(store, journal.tail, PageKind::Grouped)?;
        if previous.group_identity()?.0 != snapshot.id {
            return Err(Error::InvalidState);
        }
        if previous.next()? != NO_BLOCK {
            return Err(Error::InvalidState);
        }
        previous.set_next(block)?;
        commit_three(store, &meta, &previous, page)?;
    }
    snapshot.head = head;
    snapshot.tail = block;
    store.event(Stage::GroupStored)?;
    Ok(block)
}

} // verus!
