//! What a snapshot covers: when it must be rebuilt, which terms went on beyond
//! it, what publishing it retires and what its rows stand for.

use crate::error::{Error, Result};
use crate::grouped::bitmap::PageOffsets;
use crate::grouped::members::Member;
use crate::identity::{group_identity, HeapLayout, RootTid};
use crate::mask::{empty_mask, is_empty, member, none, with_member_holds};
use crate::mutable::count::behind;
use crate::mutable::grouped::anchors::record_word;
use crate::mutable::grouped::capture::{posting_record, posting_words};
use crate::mutable::grouped::frontier::{last_listed, term_changed, two_changed};
use crate::mutable::grouped::publish::{
    all_retirements, delta_retirements, delta_state_with, replaced_state, retirement,
};
use crate::mutable::grouped::rebuild::{posting_collected, record_fields};
use crate::mutable::grouped::suffixes::boundary_met;
use crate::mutable::listing::{
    chain_list, page_references, pages_fit, references_of, term_found_listed,
};
use crate::mutable::page::grouped_model::GroupModel;
use crate::mutable::page::model::{Image, TermModel};
use crate::mutable::page::{GroupRetired, GroupSnapshot, OwnerRef, PageKind, TermRef, NO_BLOCK};
use crate::mutable::roster::{all_owners, last_owners, records, roster_last};
use crate::mutable::store::{posting_next_of, StoreModel};
use crate::text::text_bytes;
use vstd::prelude::*;

verus! {

broadcast use group_identity;

/// A rebuild is needed unless an active snapshot reaches to the newest of all
/// owners, and with anchors still vouches for its frontier.
pub proof fn rebuilds_follow_owners(model: StoreModel, meta: Image, anchored: bool)
    requires
        model.load(0, PageKind::Meta) == Ok::<Image, Error>(meta),
        all_owners(model, meta) is Some,
        model.rebuild_needed(anchored) is Ok,
    ensures
        ({
            let list = all_owners(model, meta)->Some_0;
            let state = meta.grouped_state()->Ok_0;
            !model.rebuild_needed(anchored)->Ok_0 <==> (state.active matches Some(snapshot) && {
                &&& if list.len() == 0 {
                    snapshot.after is None
                } else {
                    snapshot.after == Some(list.last().reference)
                }
                &&& anchored ==> snapshot.frontier_valid
            })
        }),
{
    let (head, tail) = meta.owner_chain()->Ok_0;
    let state = meta.grouped_state()->Ok_0;
    if state.active is Some && head != NO_BLOCK {
        let image = model.load(tail, PageKind::Owners)->Ok_0;
        assert(model.newest_owner(tail) is Ok);
        assert(last_owners(model, model, tail));
        let front = roster_last(model, model, head, tail);
        let here = records(image, model.layout);
        assert(here.len() > 0);
        assert((front + here).last() == here.last());
        assert(here.last() == image.owner((image.owner_count()->Ok_0 - 1) as u16, model.layout)->Ok_0);
    }
}

/// Whether the references of a list ascend by incarnation.
pub open spec fn ascends(list: Seq<OwnerRef>) -> bool {
    forall|i: int, j: int|
        0 <= i < j < list.len() ==> (#[trigger] list[i]).incarnation.get() < (
        #[trigger] list[j]).incarnation.get()
}

/// Whether some reference of a list has an incarnation from a target on.
pub open spec fn reaches(list: Seq<OwnerRef>, target: u64) -> bool {
    exists|i: int| 0 <= i < list.len() && (#[trigger] list[i]).incarnation.get() >= target
}

/// A chain ends with the references of its tail page.
proof fn chain_ends(model: StoreModel, term: TermRef, block: u32, tail: u32, remaining: u32) -> (front:
    Seq<OwnerRef>)
    requires
        chain_list(model, term, block, tail, remaining) is Some,
    ensures
        model.load_posting(tail, term) is Ok,
        chain_list(model, term, block, tail, remaining)->Some_0 == front + page_references(
            model.load_posting(tail, term)->Ok_0,
        ),
    decreases remaining,
{
    let image = model.load_posting(block, term)->Ok_0;
    match posting_next_of(image, tail, remaining)->Ok_0 {
        None => {
            assert(image.block == block);
            let front = Seq::<OwnerRef>::empty();
            assert(front + page_references(image) =~= page_references(image));
            front
        },
        Some(next) => {
            let rest = chain_ends(model, term, next, tail, (remaining - 1) as u32);
            let front = page_references(image) + rest;
            let last = page_references(model.load_posting(tail, term)->Ok_0);
            assert(front + last =~= page_references(image) + (rest + last));
            front
        },
    }
}

/// The last reference of a page is the last that is listed.
proof fn listed_last(pending: Seq<Result<OwnerRef>>, previous: OwnerRef)
    requires
        last_listed(pending, previous) is Ok,
    ensures
        pending.len() == 0 ==> last_listed(pending, previous)->Ok_0 == previous,
        pending.len() > 0 ==> last_listed(pending, previous) == pending.last(),
    decreases pending.len(),
{
    if pending.len() > 0 {
        let rest = pending.drop_first();
        listed_last(rest, pending[0]->Ok_0);
        if rest.len() > 0 {
            assert(rest.last() == pending.last());
        }
    }
}

/// A list that ascends reaches a target by its last reference.
proof fn reached_by_last(list: Seq<OwnerRef>, target: u64)
    requires
        list.len() > 0,
        ascends(list),
    ensures
        reaches(list, target) == (list.last().incarnation.get() >= target),
{
    if reaches(list, target) {
        let i = choose|i: int|
            0 <= i < list.len() && (#[trigger] list[i]).incarnation.get() >= target;
        let last = list.len() - 1;
        assert(list[last] == list.last());
        if i < last {
            assert(list[i].incarnation.get() < list[last].incarnation.get());
        }
    }
    if list.last().incarnation.get() >= target {
        assert(list[list.len() - 1].incarnation.get() >= target);
    }
}

/// An entry has changed since a target where its list reaches it.
proof fn entry_changed(model: StoreModel, entry: TermModel, target: u64)
    requires
        crate::mutable::listing::entry_list(model, entry) matches Some(list) && ascends(list),
        term_changed(model, entry, target) is Ok,
    ensures
        term_changed(model, entry, target)->Ok_0 == reaches(
            crate::mutable::listing::entry_list(model, entry)->Some_0,
            target,
        ),
{
    let list = crate::mutable::listing::entry_list(model, entry)->Some_0;
    assert(list[0] == entry.first);
    reached_by_last(list, target);
    if entry.first.incarnation.get() >= target {
        assert(list[0].incarnation.get() >= target);
    } else if entry.head != NO_BLOCK {
        let size = model.pages.len() as u32;
        let front = chain_ends(model, entry.reference, entry.head, entry.tail, size);
        let image = model.load_posting(entry.tail, entry.reference)->Ok_0;
        let outcomes = image.posting_stream()->Ok_0.outcomes();
        let last = page_references(image);
        listed_last(outcomes, entry.first);
        assert(last.last() == outcomes.last()->Ok_0);
        assert((seq![entry.first] + (front + last)).last() == last.last());
    }
}

/// Whether a term's references are at hand and ascend.
pub open spec fn orderly(model: StoreModel, meta: Image, text: Seq<u8>) -> bool {
    references_of(model, meta, text) matches Some(list) && ascends(list)
}

/// A term has changed since a target exactly where one of its references has an
/// incarnation from the target on.
pub proof fn changed_terms_reach(model: StoreModel, meta: Image, text: Seq<u8>, target: u64)
    requires
        pages_fit(model),
        orderly(model, meta, text),
        model.find_term(meta, text) is Ok,
    ensures
        match model.find_term(meta, text)->Ok_0 {
            None => !reaches(references_of(model, meta, text)->Some_0, target),
            Some((image, reference)) => image.term(reference) matches Ok(entry) && (term_changed(
                model,
                entry,
                target,
            ) matches Ok(changed) ==> changed == reaches(
                references_of(model, meta, text)->Some_0,
                target,
            )),
        },
{
    term_found_listed(model, meta, text);
    if let Some((image, reference)) = model.find_term(meta, text)->Ok_0 {
        let entry = image.term(reference)->Ok_0;
        if term_changed(model, entry, target) is Ok {
            entry_changed(model, entry, target);
        }
    }
}

/// Whether a name is given whose references reach a target.
pub open spec fn goes_on(
    model: StoreModel,
    meta: Image,
    names: Seq<Option<&str>>,
    target: u64,
    index: int,
) -> bool {
    names[index] matches Some(name) && reaches(
        references_of(model, meta, text_bytes(name))->Some_0,
        target,
    )
}

/// Whether a name from an index on has references that reach a target.
pub open spec fn one_goes_on(
    model: StoreModel,
    meta: Image,
    names: Seq<Option<&str>>,
    target: u64,
    from: int,
) -> bool {
    exists|i: int| from <= i < names.len() && #[trigger] goes_on(model, meta, names, target, i)
}

/// Whether two names from an index on have references that reach a target.
pub open spec fn two_go_on(
    model: StoreModel,
    meta: Image,
    names: Seq<Option<&str>>,
    target: u64,
    from: int,
) -> bool {
    exists|i: int, j: int|
        from <= i < j < names.len() && #[trigger] goes_on(model, meta, names, target, i)
            && #[trigger] goes_on(model, meta, names, target, j)
}

/// What goes on from an index on does so there or behind it.
proof fn names_split(
    model: StoreModel,
    meta: Image,
    names: Seq<Option<&str>>,
    target: u64,
    index: int,
)
    requires
        0 <= index < names.len(),
    ensures
        one_goes_on(model, meta, names, target, index) == (goes_on(
            model,
            meta,
            names,
            target,
            index,
        ) || one_goes_on(model, meta, names, target, index + 1)),
        two_go_on(model, meta, names, target, index) == ((goes_on(
            model,
            meta,
            names,
            target,
            index,
        ) && one_goes_on(model, meta, names, target, index + 1)) || two_go_on(
            model,
            meta,
            names,
            target,
            index + 1,
        )),
{
}

#[verifier::rlimit(60)]
#[verifier::spinoff_prover]
proof fn counted_from(
    model: StoreModel,
    meta: Image,
    names: Seq<Option<&str>>,
    target: u64,
    index: int,
    met: int,
)
    requires
        pages_fit(model),
        forall|i: int|
            0 <= i < names.len() ==> ((#[trigger] names[i]) matches Some(name) ==> orderly(
                model,
                meta,
                text_bytes(name),
            )),
        0 <= index,
        met >= 0,
        two_changed(model, meta, names, target, index, met) is Ok,
    ensures
        two_changed(model, meta, names, target, index, met)->Ok_0 == if met > 0 {
            one_goes_on(model, meta, names, target, index)
        } else {
            two_go_on(model, meta, names, target, index)
        },
    decreases names.len() - index,
{
    if index < names.len() {
        let here = goes_on(model, meta, names, target, index);
        if let Some(name) = names[index] {
            let text = text_bytes(name);
            assert(orderly(model, meta, text));
            changed_terms_reach(model, meta, text, target);
        }
        if here {
            if met == 0 {
                counted_from(model, meta, names, target, index + 1, met + 1);
            }
        } else {
            counted_from(model, meta, names, target, index + 1, met);
        }
        names_split(model, meta, names, target, index);
    }
}

/// Two terms of a query went on beyond a snapshot exactly where two of its names
/// have references of incarnations from the target on.
pub proof fn frontiers_count_terms(
    model: StoreModel,
    meta: Image,
    names: Seq<Option<&str>>,
    target: u64,
)
    requires
        pages_fit(model),
        forall|i: int|
            0 <= i < names.len() ==> ((#[trigger] names[i]) matches Some(name) ==> orderly(
                model,
                meta,
                text_bytes(name),
            )),
        two_changed(model, meta, names, target, 0, 0) is Ok,
    ensures
        two_changed(model, meta, names, target, 0, 0)->Ok_0 == two_go_on(
            model,
            meta,
            names,
            target,
            0,
        ),
{
    counted_from(model, meta, names, target, 0, 0);
}

/// Whether the references up to a place are sound and each stands behind the one
/// before it, the first behind the given one.
pub open spec fn runs_up(pending: Seq<Result<OwnerRef>>, previous: OwnerRef, place: int) -> bool {
    &&& 0 <= place < pending.len()
    &&& forall|j: int|
        0 <= j <= place ==> (#[trigger] pending[j]) is Ok && behind(
            pending[j]->Ok_0,
            if j == 0 {
                previous
            } else {
                pending[j - 1]->Ok_0
            },
        )
}

/// The boundary of an anchor is met exactly where a page lists an owner of that
/// incarnation behind owners in order.
pub proof fn boundaries_are_listed(
    pending: Seq<Result<OwnerRef>>,
    previous: OwnerRef,
    last: u64,
)
    ensures
        boundary_met(pending, previous, last) is Ok <==> exists|k: int| #[trigger]
            runs_up(pending, previous, k) && pending[k]->Ok_0.incarnation.get() == last,
    decreases pending.len(),
{
    if pending.len() > 0 {
        if let Ok(owner) = pending[0] {
            let rest = pending.drop_first();
            boundaries_are_listed(rest, owner, last);
            if behind(owner, previous) {
                assert forall|k: int| #[trigger] runs_up(rest, owner, k) implies runs_up(
                    pending,
                    previous,
                    k + 1,
                ) by {
                    assert forall|j: int| 0 <= j <= k + 1 implies (#[trigger] pending[j]) is Ok
                        && behind(
                        pending[j]->Ok_0,
                        if j == 0 {
                            previous
                        } else {
                            pending[j - 1]->Ok_0
                        },
                    ) by {
                        if j > 0 {
                            assert(rest[j - 1] == pending[j]);
                            if j > 1 {
                                assert(rest[j - 2] == pending[j - 1]);
                            }
                        }
                    }
                }
                assert(runs_up(pending, previous, 0));
                if boundary_met(pending, previous, last) is Ok {
                    if owner.incarnation.get() != last {
                        let k = choose|k: int| #[trigger]
                            runs_up(rest, owner, k) && rest[k]->Ok_0.incarnation.get() == last;
                        assert(rest[k] == pending[k + 1]);
                        assert(runs_up(pending, previous, k + 1));
                    }
                }
            }
            if exists|k: int| #[trigger]
                runs_up(pending, previous, k) && pending[k]->Ok_0.incarnation.get() == last {
                let k = choose|k: int| #[trigger]
                    runs_up(pending, previous, k) && pending[k]->Ok_0.incarnation.get() == last;
                assert(pending[0] is Ok && behind(owner, previous));
                if k > 0 {
                    ascended(pending, previous, k);
                    assert forall|j: int| 0 <= j <= k - 1 implies (#[trigger] rest[j]) is Ok
                        && behind(
                        rest[j]->Ok_0,
                        if j == 0 {
                            owner
                        } else {
                            rest[j - 1]->Ok_0
                        },
                    ) by {
                        assert(rest[j] == pending[j + 1]);
                        if j > 0 {
                            assert(rest[j - 1] == pending[j]);
                        }
                    }
                    assert(runs_up(rest, owner, k - 1));
                    assert(rest[k - 1] == pending[k]);
                }
            }
        } else {
            assert forall|k: int| !#[trigger] runs_up(pending, previous, k) by {
                if runs_up(pending, previous, k) {
                    assert(pending[0] is Ok);
                }
            }
        }
    }
}

/// The first of references in order has the least incarnation.
proof fn ascended(pending: Seq<Result<OwnerRef>>, previous: OwnerRef, place: int)
    requires
        runs_up(pending, previous, place),
        place > 0,
    ensures
        pending[0]->Ok_0.incarnation.get() < pending[place]->Ok_0.incarnation.get(),
    decreases place,
{
    assert(behind(pending[place]->Ok_0, pending[place - 1]->Ok_0));
    if place > 1 {
        assert(runs_up(pending, previous, place - 1));
        ascended(pending, previous, place - 1);
    }
}

/// Whether a state publishes a snapshot: as its base or as one of its deltas.
pub open spec fn publishes(state: GroupModel, snapshot: GroupSnapshot, from: int, below: int) -> bool {
    exists|i: int|
        from <= i < below && ((#[trigger] state.deltas[i]) matches Some(delta) && delta.snapshot
            == snapshot)
}

/// The pages of a snapshot as a queue holds them.
pub open spec fn of_snapshot(snapshot: GroupSnapshot) -> GroupRetired {
    GroupRetired { id: snapshot.id, head: snapshot.head, tail: snapshot.tail }
}

/// Whether a queue holds the pages of a snapshot.
pub open spec fn retires(queue: Seq<Option<GroupRetired>>, snapshot: GroupSnapshot) -> bool {
    queue.contains(Some(of_snapshot(snapshot)))
}

/// Whether a retirement is that of a snapshot.
pub open spec fn is_of(retired: GroupRetired, snapshot: GroupSnapshot) -> bool {
    retired == of_snapshot(snapshot) && snapshot.head != NO_BLOCK
}

/// Whether a retirement is that of one of the deltas of a state.
pub open spec fn of_delta(state: GroupModel, from: int, below: int, retired: GroupRetired) -> bool {
    exists|i: int|
        from <= i < below && ((#[trigger] state.deltas[i]) matches Some(delta) && is_of(
            retired,
            delta.snapshot,
        ))
}

proof fn deltas_retired(state: GroupModel, from: int, below: int)
    requires
        0 <= from <= below,
    ensures
        ({
            let all = delta_retirements(state.deltas, from, below);
            &&& all.len() <= below - from
            &&& forall|i: int|
                from <= i < below ==> ((#[trigger] state.deltas[i]) matches Some(delta) ==> (
                delta.snapshot.head != NO_BLOCK ==> all.contains(of_snapshot(delta.snapshot))))
            &&& forall|k: int|
                0 <= k < all.len() ==> of_delta(state, from, below, #[trigger] all[k])
        }),
    decreases below - from,
{
    if below > from {
        deltas_retired(state, from, below - 1);
        let less = delta_retirements(state.deltas, from, below - 1);
        let all = delta_retirements(state.deltas, from, below);
        let more = match state.deltas[below - 1] {
            Some(delta) => retirement(delta.snapshot),
            None => Seq::empty(),
        };
        assert(all == less + more);
        assert forall|i: int| from <= i < below implies ((#[trigger] state.deltas[i]) matches Some(
            delta,
        ) ==> (delta.snapshot.head != NO_BLOCK ==> all.contains(of_snapshot(delta.snapshot)))) by {
            if let Some(delta) = state.deltas[i] {
                if delta.snapshot.head != NO_BLOCK {
                    let retired = of_snapshot(delta.snapshot);
                    if i < below - 1 {
                        let k = choose|k: int| 0 <= k < less.len() && less[k] == retired;
                        assert(all[k] == retired);
                    } else {
                        assert(all[less.len() as int] == retired);
                    }
                }
            }
        }
        assert forall|k: int| 0 <= k < all.len() implies of_delta(
            state,
            from,
            below,
            #[trigger] all[k],
        ) by {
            if k < less.len() {
                assert(all[k] == less[k]);
                assert(of_delta(state, from, below - 1, less[k]));
            } else {
                assert(all[k] == more[k - less.len()]);
                assert(is_of(all[k], state.deltas[below - 1]->Some_0.snapshot));
            }
        }
    }
}

/// Publishing a snapshot makes it all that is searched, and retires exactly the
/// pages of what was published before.
pub proof fn publishing_retires_the_rest(
    state: GroupModel,
    snapshot: GroupSnapshot,
    other: GroupSnapshot,
)
    ensures
        ({
            let after = replaced_state(state, snapshot);
            &&& after.active == Some(snapshot)
            &&& after.journal is None
            &&& forall|i: int| 0 <= i < 16 ==> (#[trigger] after.deltas[i]) is None
            &&& other.head != NO_BLOCK && (state.active == Some(other) || publishes(
                state,
                other,
                0,
                16,
            )) ==> retires(after.retired, other)
            &&& forall|k: int|
                0 <= k < 17 ==> ((#[trigger] after.retired[k]) matches Some(retired) ==> (
                (state.active matches Some(active) && is_of(retired, active)) || of_delta(
                    state,
                    0,
                    16,
                    retired,
                )))
        }),
{
    deltas_retired(state, 0, 16);
    let after = replaced_state(state, snapshot);
    let all = all_retirements(state);
    let first = match state.active {
        Some(active) => retirement(active),
        None => Seq::empty(),
    };
    let rest = delta_retirements(state.deltas, 0, 16);
    assert(all == first + rest);
    assert(all.len() <= 17);
    if other.head != NO_BLOCK {
        let retired = of_snapshot(other);
        if state.active == Some(other) {
            assert(all[0] == retired);
            assert(after.retired[0] == Some(retired));
        } else if publishes(state, other, 0, 16) {
            let i = choose|i: int|
                0 <= i < 16 && ((#[trigger] state.deltas[i]) matches Some(delta) && delta.snapshot
                    == other);
            assert(rest.contains(retired));
            let k = choose|k: int| 0 <= k < rest.len() && rest[k] == retired;
            assert(all[first.len() + k] == retired);
            assert(after.retired[first.len() + k] == Some(retired));
        }
    }
    assert forall|k: int| 0 <= k < 17 implies ((#[trigger] after.retired[k]) matches Some(retired)
        ==> ((state.active matches Some(active) && is_of(retired, active)) || of_delta(
        state,
        0,
        16,
        retired,
    ))) by {
        if k < all.len() {
            assert(after.retired[k] == Some(all[k]));
            if k < first.len() {
                assert(all[k] == first[k]);
            } else {
                assert(all[k] == rest[k - first.len()]);
            }
        }
    }
}

/// Publishing a delta keeps the snapshot and the deltas before it, and retires
/// exactly the pages of the deltas that it replaces.
pub proof fn deltas_replace_later_ones(
    state: GroupModel,
    delta: crate::mutable::page::GroupDelta,
    from: int,
    count: int,
    other: GroupSnapshot,
)
    requires
        0 <= from <= count <= 16,
        from < 16,
    ensures
        ({
            let after = delta_state_with(state, delta, from, count);
            &&& after.active == state.active
            &&& after.journal is None
            &&& forall|i: int| 0 <= i < from ==> (#[trigger] after.deltas[i]) == state.deltas[i]
            &&& after.deltas[from] == Some(delta)
            &&& forall|i: int| from < i < 16 ==> (#[trigger] after.deltas[i]) is None
            &&& other.head != NO_BLOCK && publishes(state, other, from, count) ==> retires(
                after.retired,
                other,
            )
            &&& forall|k: int|
                0 <= k < 17 ==> ((#[trigger] after.retired[k]) matches Some(retired) ==> of_delta(
                    state,
                    from,
                    count,
                    retired,
                ))
        }),
{
    deltas_retired(state, from, count);
    let after = delta_state_with(state, delta, from, count);
    let all = delta_retirements(state.deltas, from, count);
    if other.head != NO_BLOCK && publishes(state, other, from, count) {
        let retired = of_snapshot(other);
        let i = choose|i: int|
            from <= i < count && ((#[trigger] state.deltas[i]) matches Some(old) && old.snapshot
                == other);
        assert(all.contains(retired));
        let k = choose|k: int| 0 <= k < all.len() && all[k] == retired;
        assert(after.retired[k] == Some(retired));
    }
    assert forall|k: int| 0 <= k < 17 implies ((#[trigger] after.retired[k]) matches Some(retired)
        ==> of_delta(state, from, count, retired)) by {
        if k < all.len() {
            assert(after.retired[k] == Some(all[k]));
        }
    }
}

/// Whether pages of a group mark an offset.
pub open spec fn marks(pages: Seq<PageOffsets>, page: int, bit: int) -> bool {
    exists|k: int|
        0 <= k < pages.len() && (#[trigger] pages[k]).page == page && member(pages[k].offsets@, bit)
}

/// A collected posting is marked beside all that were marked, and nothing else is.
pub proof fn collecting_marks_one(
    before: Seq<PageOffsets>,
    after: Seq<PageOffsets>,
    root: RootTid,
    page: int,
    bit: int,
)
    requires
        posting_collected(before, after, root),
        0 <= bit < 512,
        1 <= root.offset() <= 512,
    ensures
        marks(after, page, bit) <==> marks(before, page, bit) || (page == root.block() % 256 && bit
            == root.offset() - 1),
{
    let here = root.block() % 256;
    let set = root.offset() - 1;
    let last = after.len() - 1;
    assert forall|k: int| 0 <= k < last implies (#[trigger] after[k]) == before[k] by {
        assert(after.drop_last()[k] == after[k]);
        if before.len() > 0 && before.last().page == here {
            assert(before.drop_last()[k] == before[k]);
        }
    }
    let grown = if before.len() > 0 && before.last().page == here {
        before.last().offsets@
    } else {
        none(8)
    };
    with_member_holds(grown, set, bit);
    empty_mask(none(8));
    assert(is_empty(none(8)));
    if marks(after, page, bit) {
        let k = choose|k: int|
            0 <= k < after.len() && (#[trigger] after[k]).page == page && member(
                after[k].offsets@,
                bit,
            );
        if k < last {
            assert(before[k].page == page);
        } else if before.len() > 0 && before.last().page == here {
            assert(before[last].page == here);
        }
    }
    if marks(before, page, bit) {
        let k = choose|k: int|
            0 <= k < before.len() && (#[trigger] before[k]).page == page && member(
                before[k].offsets@,
                bit,
            );
        assert(after[k].page == page);
    }
    assert(after[last].page == here);
}

/// A captured row stands for its posting: the term, the root and the incarnation
/// are read back from it.
pub proof fn captured_rows_read_back(
    layout: HeapLayout,
    term: u64,
    root: RootTid,
    owner: OwnerRef,
)
    requires
        root.block() < NO_BLOCK,
        1 <= root.offset() <= layout.max_offset(),
        0 < owner.page < NO_BLOCK,
        owner.incarnation.get() > 0,
    ensures
        record_fields(posting_record(term, root, owner), layout) == Some(
            (term, Member { root, incarnation: owner.incarnation }),
        ),
{
    let words = posting_words(term, root, owner);
    record_word(words, 0);
    record_word(words, 1);
    record_word(words, 2);
    record_word(words, 3);
    let slot = owner.page * 0x1_0000 + owner.slot;
    assert(slot / 0x1_0000 == owner.page);
    let key = root.spec_key();
    assert(key / 0x1_0000 == root.block());
    assert(key % 0x1_0000 == root.offset());
}

} // verus!
