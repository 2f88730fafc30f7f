//! Publication of grouped snapshots and of the deltas that continue them.

use crate::codec::bytes::group_bytes;
use crate::error::{Error, Result};
use crate::identity::group_identity;
use crate::mutable::grouped::anchors::store_state;
use crate::mutable::grouped::journal::{
    group_inspected, group_recovered, inspect, journal_of, recover,
};
use crate::mutable::page::grouped_model::GroupModel;
use crate::mutable::page::model::Image;
use crate::mutable::page::{
    GroupDelta, GroupRetired, GroupSnapshot, GroupState, OwnerRef, Page, PageKind, RewritePhase,
    GROUP_DELTA_SEGMENTS, GROUP_RETIRED_SEGMENTS, NO_BLOCK,
};
use crate::mutable::store::{
    answers, commit_one, load, performs, Change, PageStore, Stage, StoreModel,
};
use vstd::prelude::*;

verus! {

broadcast use {group_bytes, group_identity};

/// Whether a catalog root is a node of the segment.
pub open spec fn root_checked(model: StoreModel, snapshot: GroupSnapshot, root: u32) -> Result<()> {
    if root == NO_BLOCK {
        Ok(())
    } else {
        match model.load(root, PageKind::Grouped) {
            Err(error) => Err(error),
            Ok(page) => match page.group_identity() {
                Err(error) => Err(error),
                Ok((id, _)) => if id != snapshot.id {
                    Err(Error::InvalidState)
                } else {
                    match page.group_node_info() {
                        Err(error) => Err(error),
                        Ok(_) => Ok(()),
                    }
                },
            },
        }
    }
}

/// The number of pages of a complete build, which its journal holds.
pub open spec fn build_verified(model: StoreModel, state: GroupModel, snapshot: GroupSnapshot) -> Result<
    u32,
> {
    if snapshot.frontier_root is None && snapshot.root != snapshot.tail {
        Err(Error::InvalidState)
    } else {
        match group_inspected(model, snapshot.id, snapshot.head, snapshot.tail) {
            Err(error) => Err(error),
            Ok(written) => match root_checked(model, snapshot, snapshot.root) {
                Err(error) => Err(error),
                Ok(_) => match (match snapshot.frontier_root {
                    Some(root) => root_checked(model, snapshot, root),
                    None => Ok(()),
                }) {
                    Err(error) => Err(error),
                    Ok(_) => match state.journal {
                        None => Err(Error::InvalidState),
                        Some(journal) => if journal_of(journal, snapshot) {
                            Ok(written)
                        } else {
                            Err(Error::InvalidState)
                        },
                    },
                },
            },
        }
    }
}

fn check_root<S: PageStore>(store: &mut S, snapshot: &GroupSnapshot, root: u32) -> (result: Result<
    (),
>)
    ensures
        answers(
            old(store).host(),
            final(store).host(),
            result,
            root_checked(old(store).host().model, *snapshot, root),
        ),
{
    if root == NO_BLOCK {
        return Ok(());
    }
    let page: Page = load(store, root, PageKind::Grouped)?;
    if page.group_identity()?.0 != snapshot.id {
        return Err(Error::InvalidState);
    }
    page.group_node_info()?;
    Ok(())
}

fn verify_build<S: PageStore>(store: &mut S, state: &GroupState, snapshot: &GroupSnapshot) -> (result:
    Result<u32>)
    ensures
        answers(
            old(store).host(),
            final(store).host(),
            result,
            build_verified(old(store).host().model, state@, *snapshot),
        ),
{
    if snapshot.frontier_root.is_none() && snapshot.root != snapshot.tail {
        return Err(Error::InvalidState);
    }
    let written: u32 = inspect(store, snapshot.id, snapshot.head, snapshot.tail)?;
    check_root(store, snapshot, snapshot.root)?;
    if let Some(root) = snapshot.frontier_root {
        check_root(store, snapshot, root)?;
    }
    match state.journal {
        Some(journal) => {
            if journal.id != snapshot.id || journal.phase != RewritePhase::Building || journal.head
                != snapshot.head || journal.tail != snapshot.tail {
                return Err(Error::InvalidState);
            }
            Ok(written)
        },
        None => Err(Error::InvalidState),
    }
}

/// The retirement of a snapshot with pages.
pub open spec fn retirement(snapshot: GroupSnapshot) -> Seq<GroupRetired> {
    if snapshot.head == NO_BLOCK {
        Seq::empty()
    } else {
        seq![GroupRetired { id: snapshot.id, head: snapshot.head, tail: snapshot.tail }]
    }
}

/// The retirements of the deltas from `from` up to `below`.
pub open spec fn delta_retirements(deltas: Seq<Option<GroupDelta>>, from: int, below: int) -> Seq<
    GroupRetired,
>
    decreases below - from,
{
    if below <= from {
        Seq::empty()
    } else {
        delta_retirements(deltas, from, below - 1) + match deltas[below - 1] {
            Some(delta) => retirement(delta.snapshot),
            None => Seq::empty(),
        }
    }
}

/// A queue of retirements with its free places.
pub open spec fn queued(retirements: Seq<GroupRetired>) -> Seq<Option<GroupRetired>> {
    Seq::new(
        17,
        |i: int|
            if i < retirements.len() {
                Some(retirements[i])
            } else {
                None
            },
    )
}

/// All that a state holds in published segments.
pub open spec fn all_retirements(state: GroupModel) -> Seq<GroupRetired> {
    (match state.active {
        Some(active) => retirement(active),
        None => Seq::empty(),
    }) + delta_retirements(state.deltas, 0, 16)
}

proof fn retirements_bounded(deltas: Seq<Option<GroupDelta>>, from: int, below: int)
    requires
        0 <= from <= below,
    ensures
        delta_retirements(deltas, from, below).len() <= below - from,
    decreases below - from,
{
    if below > from {
        retirements_bounded(deltas, from, below - 1);
    }
}

/// The state after a snapshot replaced all segments.
pub open spec fn replaced_state(state: GroupModel, snapshot: GroupSnapshot) -> GroupModel {
    GroupModel {
        active: Some(snapshot),
        retired: queued(all_retirements(state)),
        ..GroupModel::none()
    }
}

/// Publishing a state and reclaiming what it retires: pages reclaimed and written.
pub open spec fn state_published(
    model: StoreModel,
    meta: Image,
    state: GroupModel,
    written: u32,
) -> Change<(u32, u32)> {
    match meta.with_group_state(state) {
        Err(error) => Change::refused(model, error),
        Ok(meta) => {
            let recovered = group_recovered(model.put(meta));
            match recovered.value {
                Err(error) => Change::refused(recovered.model, error),
                Ok(reclaimed) => Change::made(recovered.model, (reclaimed, written)),
            }
        },
    }
}

/// Publishing a snapshot in place of all segments.
pub open spec fn snapshot_published(model: StoreModel, snapshot: GroupSnapshot) -> Change<
    (u32, u32),
> {
    match model.load(0, PageKind::Meta) {
        Err(error) => Change::refused(model, error),
        Ok(meta) => match meta.grouped_state() {
            Err(error) => Change::refused(model, error),
            Ok(state) => match build_verified(model, state, snapshot) {
                Err(error) => Change::refused(model, error),
                Ok(written) => if state.has_retired() {
                    Change::refused(model, Error::InvalidState)
                } else {
                    state_published(model, meta, replaced_state(state, snapshot), written)
                },
            },
        },
    }
}

/// Stores a state and reclaims what it retires.
fn publish_state<S: PageStore>(store: &mut S, meta: &mut Page, state: GroupState, written: u32) -> (result:
    Result<(u32, u32)>)
    requires
        old(store).host().model.load(0, PageKind::Meta) == Ok::<Image, Error>(old(meta)@),
        old(meta)@.bytes.len() >= 4160,
    ensures
        performs(
            old(store).host(),
            final(store).host(),
            result,
            state_published(old(store).host().model, old(meta)@, state@, written),
        ),
{
    store_state(meta, state)?;
    commit_one(store, meta)?;
    store.event(Stage::GroupPublished)?;
    let reclaimed: u32 = recover(store)?;
    Ok((reclaimed, written))
}

/// Whether anything is retired already.
fn any_retired(state: &GroupState) -> (any: bool)
    ensures
        any == state@.has_retired(),
{
    let mut index: usize = 0;
    while index < GROUP_RETIRED_SEGMENTS
        invariant
            index <= 17,
            forall|i: int| 0 <= i < index ==> (#[trigger] state@.retired[i]) is None,
        decreases 17 - index,
    {
        if state.retired[index].is_some() {
            assert(state@.retired[index as int] is Some);
            return true;
        }
        index += 1;
    }
    false
}

/// Queues the retirement of a snapshot with pages.
fn queue_retirement(fresh: &mut GroupState, used: usize, snapshot: &GroupSnapshot, before: Ghost<Seq<GroupRetired>>) -> (
now: usize)
    requires
        used < 17,
        before@.len() == used,
        old(fresh)@.retired == queued(before@),
    ensures
        final(fresh)@ == (GroupModel {
            retired: queued(before@ + retirement(*snapshot)),
            ..old(fresh)@
        }),
        now == (before@ + retirement(*snapshot)).len(),
{
    let ghost all = before@ + retirement(*snapshot);
    if snapshot.head != NO_BLOCK {
        fresh.retired[used] = Some(
            GroupRetired { id: snapshot.id, head: snapshot.head, tail: snapshot.tail },
        );
        assert(fresh@.retired =~= queued(all));
        return used + 1;
    }
    assert(all =~= before@);
    used
}

/// Queues the retirements of the deltas from `from` up to `below`.
#[verifier::loop_isolation(false)]
fn queue_deltas(
    fresh: &mut GroupState,
    begun: usize,
    state: &GroupState,
    from: usize,
    below: usize,
    before: Ghost<Seq<GroupRetired>>,
)
    requires
        from <= below <= 16,
        begun <= 1,
        before@.len() == begun,
        old(fresh)@.retired == queued(before@),
    ensures
        final(fresh)@ == (GroupModel {
            retired: queued(
                before@ + delta_retirements(state@.deltas, from as int, below as int),
            ),
            ..old(fresh)@
        }),
{
    let mut used: usize = begun;
    let mut index: usize = from;
    assert(before@ + delta_retirements(state@.deltas, from as int, from as int) =~= before@);
    while index < below
        invariant
            from <= index <= below,
            fresh@ == (GroupModel {
                retired: queued(
                    before@ + delta_retirements(state@.deltas, from as int, index as int),
                ),
                ..old(fresh)@
            }),
            used == (before@ + delta_retirements(state@.deltas, from as int, index as int)).len(),
        decreases below - index,
    {
        let ghost early = before@ + delta_retirements(state@.deltas, from as int, index as int);
        proof {
            retirements_bounded(state@.deltas, from as int, index as int);
        }
        if let Some(delta) = state.deltas[index] {
            assert(state@.deltas[index as int] == Some(delta));
            used = queue_retirement(fresh, used, &delta.snapshot, Ghost(early));
            assert(early + retirement(delta.snapshot) =~= before@ + delta_retirements(
                state@.deltas,
                from as int,
                index + 1,
            ));
        } else {
            assert(before@ + delta_retirements(state@.deltas, from as int, index + 1) =~= early);
        }
        index += 1;
    }
}

/// Publishes a snapshot in place of all segments: pages reclaimed and written.
pub(crate) fn publish<S: PageStore>(store: &mut S, snapshot: &GroupSnapshot) -> (result: Result<
    (u32, u32),
>)
    ensures
        performs(
            old(store).host(),
            final(store).host(),
            result,
            snapshot_published(old(store).host().model, *snapshot),
        ),
{
    let mut meta: Page = load(store, 0, PageKind::Meta)?;
    let state: GroupState = meta.grouped_state()?;
    let written: u32 = verify_build(store, &state, snapshot)?;
    if any_retired(&state) {
        return Err(Error::InvalidState);
    }
    let mut fresh: GroupState = GroupState::default();
    fresh.active = Some(*snapshot);
    let ghost mut noted: Seq<GroupRetired> = Seq::empty();
    assert(fresh@.retired =~= queued(noted));
    let mut used: usize = 0;
    if let Some(active) = state.active {
        used = queue_retirement(&mut fresh, 0, &active, Ghost(noted));
        proof {
            noted = noted + retirement(active);
            assert(noted =~= retirement(active));
        }
    }
    queue_deltas(&mut fresh, used, &state, 0, GROUP_DELTA_SEGMENTS, Ghost(noted));
    assert(fresh@ =~= replaced_state(state@, *snapshot));
    publish_state(store, &mut meta, fresh, written)
}

/// The state after a delta replaced those from `from` on.
pub open spec fn delta_state_with(
    state: GroupModel,
    delta: GroupDelta,
    from: int,
    count: int,
) -> GroupModel {
    GroupModel {
        active: state.active,
        journal: None,
        deltas: Seq::new(
            16,
            |i: int|
                if i < from {
                    state.deltas[i]
                } else if i == from {
                    Some(delta)
                } else {
                    None
                },
        ),
        retired: queued(delta_retirements(state.deltas, from, count)),
    }
}

/// Whether a delta continues the published state, in place of those from `from` on.
pub open spec fn delta_continues(
    state: GroupModel,
    before: Option<OwnerRef>,
    from: int,
    count: int,
) -> bool {
    &&& state.active is Some
    &&& !state.has_retired()
    &&& from <= count
    &&& from < 16
    &&& from == count ==> (match state.spec_latest() {
        Some(latest) => latest.after,
        None => None,
    }) == before
    &&& from < count ==> (state.deltas[from] matches Some(delta) && delta.before == before)
}

/// Publishing a delta in place of those from `from` on.
pub open spec fn delta_published(
    model: StoreModel,
    snapshot: GroupSnapshot,
    before: Option<OwnerRef>,
    level: u8,
    from: int,
) -> Change<(u32, u32)> {
    if snapshot.frontier_root is Some || snapshot.frontier_valid || level >= 16 {
        Change::refused(model, Error::InvalidState)
    } else {
        match model.load(0, PageKind::Meta) {
            Err(error) => Change::refused(model, error),
            Ok(meta) => match meta.grouped_state() {
                Err(error) => Change::refused(model, error),
                Ok(state) => match build_verified(model, state, snapshot) {
                    Err(error) => Change::refused(model, error),
                    Ok(written) => {
                        let count = state.deltas_below(16) as int;
                        if !delta_continues(state, before, from, count) {
                            Change::refused(model, Error::InvalidState)
                        } else {
                            state_published(
                                model,
                                meta,
                                delta_state_with(
                                    state,
                                    GroupDelta { snapshot, before, level },
                                    from,
                                    count,
                                ),
                                written,
                            )
                        }
                    },
                },
            },
        }
    }
}

/// Publishes a delta in place of those from `replace_from` on: pages reclaimed
/// and written.
#[verifier::loop_isolation(false)]
pub fn publish_delta<S: PageStore>(
    store: &mut S,
    snapshot: &GroupSnapshot,
    before: Option<OwnerRef>,
    level: u8,
    replace_from: usize,
) -> (result: Result<(u32, u32)>)
    ensures
        performs(
            old(store).host(),
            final(store).host(),
            result,
            delta_published(
                old(store).host().model,
                *snapshot,
                before,
                level,
                replace_from as int,
            ),
        ),
{
    if snapshot.frontier_root.is_some() || snapshot.frontier_valid || level >= 16 {
        return Err(Error::InvalidState);
    }
    let mut meta: Page = load(store, 0, PageKind::Meta)?;
    let state: GroupState = meta.grouped_state()?;
    let written: u32 = verify_build(store, &state, snapshot)?;
    let count: usize = state.delta_count();
    if !continues(&state, before, replace_from, count) {
        return Err(Error::InvalidState);
    }
    let fresh: GroupState = with_delta(
        &state,
        GroupDelta { snapshot: *snapshot, before, level },
        replace_from,
        count,
    );
    publish_state(store, &mut meta, fresh, written)
}

/// Whether a delta continues the published state.
fn continues(state: &GroupState, before: Option<OwnerRef>, from: usize, count: usize) -> (answer: bool)
    requires
        count <= 16,
    ensures
        answer == delta_continues(state@, before, from as int, count as int),
{
    if state.active.is_none() || any_retired(state) || from > count || from >= 16 {
        return false;
    }
    if from == count {
        let after: Option<OwnerRef> = match state.latest() {
            Some(latest) => latest.after,
            None => None,
        };
        after == before
    } else {
        match state.deltas[from] {
            Some(delta) => {
                assert(state@.deltas[from as int] == Some(delta));
                delta.before == before
            },
            None => {
                assert(state@.deltas[from as int] is None);
                false
            },
        }
    }
}

/// The state after a delta replaced those from `from` on.
#[verifier::loop_isolation(false)]
fn with_delta(state: &GroupState, delta: GroupDelta, from: usize, count: usize) -> (fresh: GroupState)
    requires
        from <= count <= 16,
        from < 16,
    ensures
        fresh@ == delta_state_with(state@, delta, from as int, count as int),
{
    let mut fresh: GroupState = GroupState::default();
    fresh.active = state.active;
    let ghost noted: Seq<GroupRetired> = Seq::empty();
    assert(fresh@.retired =~= queued(noted));
    queue_deltas(&mut fresh, 0, state, from, count, Ghost(noted));
    assert(noted + delta_retirements(state@.deltas, from as int, count as int)
        =~= delta_retirements(state@.deltas, from as int, count as int));
    let ghost retired = fresh@.retired;
    let mut index: usize = 0;
    while index < from
        invariant
            index <= from,
            fresh.active == state.active,
            fresh.journal is None,
            fresh@.retired == retired,
            forall|i: int|
                0 <= i < 16 ==> #[trigger] fresh.deltas@[i] == if i < index {
                    state.deltas@[i]
                } else {
                    None
                },
        decreases from - index,
    {
        let ghost early = fresh.deltas@;
        let kept: Option<GroupDelta> = state.deltas[index];
        fresh.deltas[index] = kept;
        assert(fresh.deltas@ =~= early.update(index as int, kept));
        index += 1;
    }
    let ghost early = fresh.deltas@;
    fresh.deltas[from] = Some(delta);
    assert(fresh.deltas@ =~= early.update(from as int, Some(delta)));
    assert(fresh@.deltas =~= delta_state_with(state@, delta, from as int, count as int).deltas);
    assert(fresh@ =~= delta_state_with(state@, delta, from as int, count as int));
    fresh
}

} // verus!
