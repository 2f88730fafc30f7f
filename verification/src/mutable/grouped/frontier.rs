//! Owners beyond the grouped snapshot's incarnation fence.
//! Exact boolean membership never substitutes for host snapshot visibility.

use crate::codec::records::Publication;
use crate::error::{Error, Result};
use crate::grouped::query::node_valid;
use crate::grouped::Node;
use crate::identity::{group_identity, HeapLayout, RootTid};
use crate::mutable::grouped::suffixes::{seek_suffixes, suffixes_sought};
use crate::mutable::grouped::scan::{matched, members_under, program_value, ExactSink, Program};
use crate::mutable::count::behind;
use crate::mutable::page::model::Image;
use crate::mutable::page::{
    GroupSnapshot, Owner, OwnerModel, OwnerRef, Page, PageKind, Postings, Term, TermModel,
    NO_BLOCK,
};
use crate::mutable::query::{
    dropped, dropped_keeps, dropped_twice, known, listed_under, passes, place, term_list,
    open_cursor, term_list_order, terms_of, undamaged, Cursor,
};
use crate::mutable::reader::searchable;
use crate::mutable::store::{
    answers, find_term, following, following_of, load, load_posting, Host, PageStore, Stage,
    StoreModel,
};
use core::mem::size_of;
use crate::mask::{bit, mask_has, member};
use crate::memory::{capacity, try_reserve_exact, Scratch};
use crate::mutable::membership::{name_bytes, stored_terms, TermMembership};
use crate::mutable::query::{fragments, read_fragments};
use crate::mutable::walk::Walk;
use crate::text::text_bytes;
use vstd::prelude::*;

verus! {

broadcast use group_identity;

/// All owners of a page from a slot on.
pub open spec fn all_slots(image: Image, slot: int, layout: HeapLayout) -> Walk<OwnerModel>
    decreases 65536 - slot,
{
    match image.owner_count() {
        Err(error) => Walk::failed(error),
        Ok(count) => if slot >= count {
            Walk::nothing()
        } else {
            match image.owner(slot as u16, layout) {
                Err(error) => Walk::failed(error),
                Ok(owner) => Walk::one(owner).and(all_slots(image, slot + 1, layout)),
            }
        },
    }
}

/// All owners on the chain from a slot of a block to the tail.
pub open spec fn chain_owners(model: StoreModel, block: u32, slot: int, tail: u32) -> Walk<OwnerModel>
    decreases tail - block,
{
    match model.load(block, PageKind::Owners) {
        Err(error) => Walk::failed(error),
        Ok(image) => all_slots(image, slot, model.layout).and(
            match following_of(image, tail) {
                Err(error) => Walk::failed(error),
                Ok(None) => Walk::nothing(),
                Ok(Some(next)) => if block < next <= tail {
                    chain_owners(model, next, 0, tail)
                } else {
                    Walk::nothing()
                },
            },
        ),
    }
}

/// An owner and whether it is part of the answer.
pub struct Judged {
    pub owner: OwnerModel,
    pub present: bool,
}

/// The roots of the owners that are part of the answer.
pub open spec fn judged_roots(judged: Seq<Judged>) -> Seq<RootTid>
    decreases judged.len(),
{
    if judged.len() == 0 {
        Seq::empty()
    } else if judged.last().present {
        judged_roots(judged.drop_last()).push(judged.last().owner.root)
    } else {
        judged_roots(judged.drop_last())
    }
}

/// Whether owners were judged by a ruling: those that are searchable, beyond
/// the floor and not beyond the ceiling.
pub open spec fn judged_by(
    judged: Seq<Judged>,
    ruling: spec_fn(OwnerModel, bool) -> bool,
    floor: u64,
    ceiling: u64,
) -> bool {
    forall|i: int| 0 <= i < judged.len() ==> judged_well(#[trigger] judged[i], ruling, floor, ceiling)
}

pub open spec fn judged_well(
    judged: Judged,
    ruling: spec_fn(OwnerModel, bool) -> bool,
    floor: u64,
    ceiling: u64,
) -> bool {
    &&& floor < judged.owner.reference.incarnation.get() <= ceiling
    &&& if searchable(judged.owner) {
        ruling(judged.owner, judged.present)
    } else {
        !judged.present
    }
}

/// The owners that were judged.
pub open spec fn judged_owners(judged: Seq<Judged>) -> Seq<OwnerModel> {
    judged.map_values(|one: Judged| one.owner)
}

/// Whether all owners of a stream up to the ceiling were judged.
pub open spec fn judged_all(walk: Walk<OwnerModel>, judged: Seq<Judged>, ceiling: u64) -> bool {
    &&& judged_owners(judged).is_prefix_of(walk.items)
    &&& if judged.len() < walk.items.len() {
        walk.items[judged.len() as int].reference.incarnation.get() > ceiling
    } else {
        walk.end is Ok
    }
}

/// Decides whether an owner is part of the answer.
trait Judge<S: PageStore> {
    /// Whether the judge is ready for owners behind a place of the store.
    spec fn ready(&self, model: StoreModel, at: Option<OwnerRef>) -> bool;

    /// Which answer an owner gets.
    spec fn ruling(&self, model: StoreModel) -> spec_fn(OwnerModel, bool) -> bool;

    /// Which errors an owner can lead to.
    spec fn faults(&self, model: StoreModel) -> spec_fn(OwnerModel, Error) -> bool;

    /// For which owners memory may not suffice.
    spec fn lacking(&self) -> spec_fn(OwnerModel) -> bool;

    /// Judges an owner; nothing where memory does not suffice.
    fn judge(&mut self, store: &mut S, owner: &Owner<'_>, at: Ghost<Option<OwnerRef>>) -> (result:
        Result<Option<bool>>)
        requires
            old(self).ready(old(store).host().model, at@),
            passes(owner.reference, at@, true),
            old(store).host().model.owner_of(owner.reference) == Ok::<OwnerModel, Error>(owner@),
        ensures
            final(store).host() == old(store).host(),
            final(self).ruling(old(store).host().model) == old(self).ruling(
                old(store).host().model,
            ),
            final(self).faults(old(store).host().model) == old(self).faults(
                old(store).host().model,
            ),
            result matches Err(error) ==> !old(store).host().reliable || (old(self).faults(
                old(store).host().model,
            ))(owner@, error),
            final(self).lacking() == old(self).lacking(),
            result == Ok::<Option<bool>, Error>(None) ==> (old(self).lacking())(owner@),
            result matches Ok(Some(_)) ==> final(self).ready(
                old(store).host().model,
                Some(owner.reference),
            ),
            result matches Ok(Some(present)) ==> (old(self).ruling(old(store).host().model))(
                owner@,
                present,
            ),
    ;
}

/// Whether owners stand one behind the other, behind a previous one and beyond
/// the floor.
#[verifier::opaque]
pub open spec fn in_line(items: Seq<OwnerModel>, previous: Option<OwnerRef>, floor: u64) -> bool {
    forall|i: int| 0 <= i < items.len() ==> #[trigger] stands_in_line(items, i, previous, floor)
}

/// Whether an owner of a stream stands behind the one before it.
pub open spec fn stands_in_line(
    items: Seq<OwnerModel>,
    index: int,
    previous: Option<OwnerRef>,
    floor: u64,
) -> bool {
    let owner = items[index];
    let before = if index == 0 {
        previous
    } else {
        Some(items[index - 1].reference)
    };
    owner.reference.incarnation.get() > floor && (before matches Some(earlier) ==> behind(
        owner.reference,
        earlier,
    ))
}

/// Whether an owner of a stream fails to be judged.
pub open spec fn some_fault(
    items: Seq<OwnerModel>,
    faults: spec_fn(OwnerModel, Error) -> bool,
    error: Error,
) -> bool {
    exists|i: int| 0 <= i < items.len() && searchable(#[trigger] items[i]) && faults(items[i], error)
}

/// Whether memory may not suffice for an owner of a stream.
#[verifier::opaque]
pub open spec fn some_lacking(items: Seq<OwnerModel>, lacking: spec_fn(OwnerModel) -> bool) -> bool {
    exists|i: int| 0 <= i < items.len() && searchable(#[trigger] items[i]) && lacking(items[i])
}

/// Whether judging a stream of owners can end in an error: the stream is
/// damaged or out of order, or one of its owners fails to be judged.
#[verifier::opaque]
pub open spec fn stream_fails(
    walk: Walk<OwnerModel>,
    previous: Option<OwnerRef>,
    floor: u64,
    faults: spec_fn(OwnerModel, Error) -> bool,
    error: Error,
) -> bool {
    ||| walk.end == Err::<(), Error>(error)
    ||| error == Error::InvalidState && !in_line(walk.items, previous, floor)
    ||| some_fault(walk.items, faults, error)
}

/// One more owner in line.
proof fn in_line_pushed(
    items: Seq<OwnerModel>,
    owner: OwnerModel,
    previous: Option<OwnerRef>,
    floor: u64,
)
    requires
        in_line(items, previous, floor),
        stands_in_line(items.push(owner), items.len() as int, previous, floor),
    ensures
        in_line(items.push(owner), previous, floor),
{
    reveal(in_line);
    let more = items.push(owner);
    assert forall|i: int| 0 <= i < more.len() implies #[trigger] stands_in_line(more, i,
        previous,
        floor,
    ) by {
        if i < items.len() {
            assert(stands_in_line(items, i, previous, floor));
        }
    }
}

/// An owner of a stream that keeps it from being judged.
proof fn stopped_at(
    walk: Walk<OwnerModel>,
    index: int,
    previous: Option<OwnerRef>,
    floor: u64,
    faults: spec_fn(OwnerModel, Error) -> bool,
    error: Error,
)
    requires
        0 <= index < walk.items.len(),
        (error == Error::InvalidState && !stands_in_line(walk.items, index,
            previous,
            floor,
        )) || (searchable(walk.items[index]) && faults(walk.items[index], error)),
    ensures
        stream_fails(walk, previous, floor, faults, error),
{
    reveal(in_line);
    reveal(stream_fails);
}

/// Owners in line have room for at most so many incarnations.
proof fn in_line_few(items: Seq<OwnerModel>, previous: Option<OwnerRef>, floor: u64, ceiling: u64)
    requires
        in_line(items, previous, floor),
        forall|i: int|
            0 <= i < items.len() ==> (#[trigger] items[i]).reference.incarnation.get() <= ceiling,
    ensures
        items.len() > 0 ==> items.len() <= items.last().reference.incarnation.get() - floor,
        items.len() > 0 ==> items.len() <= ceiling - floor,
    decreases items.len(),
{
    reveal(in_line);
    if items.len() > 0 {
        let rest = items.drop_last();
        let index = items.len() - 1;
        assert(stands_in_line(items, index, previous, floor));
        assert forall|i: int| 0 <= i < rest.len() implies #[trigger] stands_in_line(rest, i,
            previous,
            floor,
        ) by {
            assert(stands_in_line(items, i, previous, floor));
        }
        in_line_few(rest, previous, floor, ceiling);
        if rest.len() > 0 {
            assert(rest.last() == items[index - 1]);
        }
    }
}

/// What keeps a part of a stream from being judged keeps the stream from it.
proof fn part_fails(
    walk: Walk<OwnerModel>,
    met: Seq<OwnerModel>,
    part: Walk<OwnerModel>,
    previous: Option<OwnerRef>,
    floor: u64,
    faults: spec_fn(OwnerModel, Error) -> bool,
    error: Error,
)
    requires
        (met + part.items).is_prefix_of(walk.items),
        part.end is Err ==> walk.end == part.end,
        stream_fails(
            part,
            if met.len() == 0 {
                previous
            } else {
                Some(met.last().reference)
            },
            floor,
            faults,
            error,
        ),
    ensures
        stream_fails(walk, previous, floor, faults, error),
{
    reveal(in_line);
    reveal(stream_fails);
    let before = if met.len() == 0 {
        previous
    } else {
        Some(met.last().reference)
    };
    let joined = met + part.items;
    assert(joined =~= walk.items.take(joined.len() as int));
    if some_fault(part.items, faults, error) {
        let i = choose|i: int|
            0 <= i < part.items.len() && searchable(#[trigger] part.items[i]) && faults(
                part.items[i],
                error,
            );
        assert(joined[met.len() + i] == part.items[i]);
        assert(walk.items[met.len() + i] == part.items[i]);
    } else if error == Error::InvalidState && !in_line(part.items, before, floor) {
        let i = choose|i: int|
            0 <= i < part.items.len() && !#[trigger] stands_in_line(part.items, i,
                before,
                floor,
            );
        let k = met.len() + i;
        assert(joined[k] == part.items[i]);
        assert(walk.items[k] == part.items[i]);
        if i > 0 {
            assert(joined[k - 1] == part.items[i - 1]);
            assert(walk.items[k - 1] == joined[k - 1]);
        } else if met.len() > 0 {
            assert(joined[k - 1] == met.last());
            assert(walk.items[k - 1] == joined[k - 1]);
        }
        assert(!stands_in_line(walk.items, k, previous, floor));
    }
}

/// Owners in line behind owners in line.
proof fn in_line_joined(
    left: Seq<OwnerModel>,
    right: Seq<OwnerModel>,
    previous: Option<OwnerRef>,
    floor: u64,
)
    requires
        in_line(left, previous, floor),
        in_line(
            right,
            if left.len() == 0 {
                previous
            } else {
                Some(left.last().reference)
            },
            floor,
        ),
    ensures
        in_line(left + right, previous, floor),
{
    reveal(in_line);
    let both = left + right;
    let before = if left.len() == 0 {
        previous
    } else {
        Some(left.last().reference)
    };
    assert forall|i: int| 0 <= i < both.len() implies #[trigger] stands_in_line(both, i,
        previous,
        floor,
    ) by {
        if i < left.len() {
            assert(stands_in_line(left, i, previous, floor));
        } else {
            let k = i - left.len();
            assert(stands_in_line(right, k, before, floor));
        }
    }
}

/// Fewer owners are judged than there are incarnations between floor and ceiling.
proof fn judged_few(
    judged: Seq<Judged>,
    ruling: spec_fn(OwnerModel, bool) -> bool,
    floor: u64,
    ceiling: u64,
    previous: Option<OwnerRef>,
)
    requires
        judged_by(judged, ruling, floor, ceiling),
        in_line(judged_owners(judged), previous, floor),
    ensures
        judged.len() > 0 ==> judged.len() <= ceiling - floor,
        judged_roots(judged).len() <= judged.len(),
{
    let owners = judged_owners(judged);
    assert forall|i: int| 0 <= i < owners.len() implies (
    #[trigger] owners[i]).reference.incarnation.get() <= ceiling by {
        assert(judged_well(judged[i], ruling, floor, ceiling));
    }
    in_line_few(owners, previous, floor, ceiling);
    roots_few(judged);
}

proof fn roots_few(judged: Seq<Judged>)
    ensures
        judged_roots(judged).len() <= judged.len(),
    decreases judged.len(),
{
    if judged.len() > 0 {
        roots_few(judged.drop_last());
    }
}

/// How the judgement of a page ends.
#[derive(Clone, Copy, PartialEq, Eq, Structural)]
enum PageEnd {
    Complete,
    Fence,
    Unknown,
}

/// The owner met last.
spec fn last_judged(judged: Seq<Judged>, at: Option<OwnerRef>) -> Option<OwnerRef> {
    if judged.len() == 0 {
        at
    } else {
        Some(judged.last().owner.reference)
    }
}

/// Whether an owner stands behind the one met last.
pub(crate) fn follows_last(owner: OwnerRef, last: Option<OwnerRef>) -> (follows: bool)
    ensures
        follows == (last matches Some(last) ==> behind(owner, last)),
{
    match last {
        None => true,
        Some(last) => (owner.page > last.page || (owner.page == last.page && owner.slot
            > last.slot)) && owner.incarnation.get() > last.incarnation.get(),
    }
}

/// Judges the owners of a page from a slot on.
#[verifier::loop_isolation(false)]
fn judge_page<S: PageStore, J: Judge<S>>(
    store: &mut S,
    page: &Page,
    from: u16,
    previous: &mut Option<OwnerRef>,
    floor: u64,
    ceiling: u64,
    judge: &mut J,
    output: &mut Vec<RootTid>,
    at: Ghost<Option<OwnerRef>>,
) -> (result: Result<(PageEnd, Ghost<Seq<Judged>>)>)
    requires
        old(store).host().model.load(page@.block, PageKind::Owners) == Ok::<Image, Error>(page@),
        old(judge).ready(old(store).host().model, at@),
        *old(previous) == at@ || *old(previous) is Some,
        at@ matches Some(owner) ==> (*old(previous) matches Some(last) && place(owner) <= place(
            last,
        )),
    ensures
        final(store).host() == old(store).host(),
        final(judge).ruling(old(store).host().model) == old(judge).ruling(
            old(store).host().model,
        ),
        final(judge).faults(old(store).host().model) == old(judge).faults(
            old(store).host().model,
        ),
        result matches Err(error) ==> !old(store).host().reliable || stream_fails(
            all_slots(page@, from as int, old(store).host().model.layout),
            *old(previous),
            floor,
            old(judge).faults(old(store).host().model),
            error,
        ),
        final(judge).lacking() == old(judge).lacking(),
        result matches Ok((end, judged)) ==> {
            let walk = all_slots(page@, from as int, old(store).host().model.layout);
            &&& end == PageEnd::Unknown ==> some_lacking(walk.items, old(judge).lacking())
            &&& in_line(judged_owners(judged@), *old(previous), floor)
            &&& judged_by(
                judged@,
                old(judge).ruling(old(store).host().model),
                floor,
                ceiling,
            )
            &&& judged_owners(judged@).is_prefix_of(walk.items)
            &&& final(output)@ == old(output)@ + judged_roots(judged@)
            &&& end == PageEnd::Complete ==> {
                &&& judged@.len() == walk.items.len()
                &&& walk.end is Ok
                &&& *final(previous) == last_judged(judged@, *old(previous))
                &&& exists|now: Option<OwnerRef>| #[trigger]
                    final(judge).ready(old(store).host().model, now) && (
                    now matches Some(owner) ==> (*final(previous) matches Some(last)
                        && place(owner) <= place(last))) && (*final(previous) == now || *final(previous) is Some)
            }
            &&& end == PageEnd::Fence ==> judged@.len() < walk.items.len()
                && walk.items[judged@.len() as int].reference.incarnation.get() > ceiling
        },
{
    let ghost model = store.host().model;
    let ghost walk = all_slots(page@, from as int, model.layout);
    let ghost ruling = judge.ruling(model);
    let ghost faults = judge.faults(model);
    let ghost mut judged: Seq<Judged> = Seq::empty();
    let ghost mut now: Option<OwnerRef> = at@;
    proof {
        assert(walk.end matches Err(error) ==> stream_fails(
            walk,
            *previous,
            floor,
            faults,
            error,
        )) by {
            reveal(stream_fails);
        }
        assert(in_line(judged_owners(judged), *previous, floor)) by {
            reveal(in_line);
        }
    }
    let slots: u16 = page.owner_count()?;
    let mut slot: u16 = from;
    proof {
        assert(output@ =~= output@ + judged_roots(judged));
        assert(walk.items =~= judged_owners(judged) + walk.items);
    }
    while slot < slots
        invariant
            from <= slot,
            from <= slots ==> slot <= slots,
            store.host() == old(store).host(),
            judge.ruling(model) == ruling,
            judge.faults(model) == faults,
            judge.lacking() == old(judge).lacking(),
            in_line(judged_owners(judged), *old(previous), floor),
            judge.ready(model, now),
            now matches Some(owner) ==> (*previous matches Some(last) && place(owner) <= place(
                last,
            )),
            *previous == now || *previous is Some,
            *previous == last_judged(judged, *old(previous)),
            judged_by(judged, ruling, floor, ceiling),
            output@ == old(output)@ + judged_roots(judged),
            walk.items == judged_owners(judged) + all_slots(page@, slot as int, model.layout).items,
            walk.end == all_slots(page@, slot as int, model.layout).end,
        decreases slots - slot,
    {
        let owner: Owner<'_> = page.owner(slot, store.layout())?;
        assert(owner@ == page@.owner(slot, model.layout)->Ok_0);
        let ghost tail = all_slots(page@, slot + 1, model.layout).items;
        proof {
            assert(walk.items =~= judged_owners(judged) + (seq![owner@] + tail));
            assert(walk.items[judged.len() as int] == owner@);
            if judged.len() > 0 {
                assert(walk.items[judged.len() - 1] == judged_owners(judged).last());
            }
        }
        let ghost standing = stands_in_line(walk.items, judged.len() as int,
            *old(previous),
            floor,
        );
        slot += 1;
        let incarnation: u64 = owner.reference.incarnation.get();
        let straight: bool = incarnation > floor && follows_last(owner.reference, *previous);
        if !straight {
            proof {
                assert(!standing);
                stopped_at(
                    walk,
                    judged.len() as int,
                    *old(previous),
                    floor,
                    faults,
                    Error::InvalidState,
                );
            }
            return Err(Error::InvalidState);
        }
        let ghost before = judged;
        let ghost rest = all_slots(page@, slot as int, model.layout).items;
        assert(walk.items =~= judged_owners(judged) + (seq![owner@] + rest));
        assert(standing);
        // stop at the allocation fence captured before this scan.
        if incarnation > ceiling {
            assert(walk.items[judged.len() as int] == owner@);
            return Ok((PageEnd::Fence, Ghost(judged)));
        }
        *previous = Some(owner.reference);
        let mut present: bool = false;
        if owner.publication == Publication::Published && owner.live {
            match judge.judge(store, &owner, Ghost(now)) {
                Err(error) => {
                    proof {
                        if store.host().reliable {
                            stopped_at(
                                walk,
                                judged.len() as int,
                                *old(previous),
                                floor,
                                faults,
                                error,
                            );
                        }
                    }
                    return Err(error);
                },
                Ok(None) => {
                    proof {
                        reveal(some_lacking);
                        assert(searchable(walk.items[judged.len() as int]));
                    }
                    return Ok((PageEnd::Unknown, Ghost(judged)));
                },
                Ok(Some(answer)) => {
                    present = answer;
                },
            }
            proof {
                now = Some(owner.reference);
            }
        }
        if present {
            output.push(owner.root);
        }
        proof {
            let one = Judged { owner: owner@, present };
            judged = judged.push(one);
            assert(judged.drop_last() =~= before);
            assert(judged_owners(judged) =~= judged_owners(before).push(owner@));
            in_line_pushed(judged_owners(before), owner@, *old(previous), floor);
            assert(walk.items =~= judged_owners(judged) + rest);
            assert(output@ =~= old(output)@ + judged_roots(judged));
            assert forall|i: int| 0 <= i < judged.len() implies judged_well(
                #[trigger] judged[i],
                ruling,
                floor,
                ceiling,
            ) by {
                if i < before.len() {
                    assert(judged_well(before[i], ruling, floor, ceiling));
                }
            }
        }
    }
    proof {
        assert(all_slots(page@, slot as int, model.layout).items =~= Seq::empty());
        assert(walk.items =~= judged_owners(judged));
        assert(judge.ready(model, now));
    }
    Ok((PageEnd::Complete, Ghost(judged)))
}

/// Programs agree where the memberships of their terms do.
proof fn program_same(
    nodes: Seq<Node>,
    index: int,
    terms: int,
    left: spec_fn(int) -> bool,
    right: spec_fn(int) -> bool,
)
    requires
        0 <= index < nodes.len(),
        forall|i: int| 0 <= i < nodes.len() ==> node_valid(#[trigger] nodes[i], i, terms),
        forall|t: int| 0 <= t < terms ==> #[trigger] left(t) == right(t),
    ensures
        program_value(nodes, index, left) == program_value(nodes, index, right),
    decreases index,
{
    assert(node_valid(nodes[index], index, terms));
    match nodes[index] {
        Node::Term(term) => {
            assert(left(term as int) == right(term as int));
        },
        Node::All => {},
        Node::Not(child) => program_same(nodes, child as int, terms, left, right),
        Node::And(one, two) => {
            program_same(nodes, one as int, terms, left, right);
            program_same(nodes, two as int, terms, left, right);
        },
        Node::Or(one, two) => {
            program_same(nodes, one as int, terms, left, right);
            program_same(nodes, two as int, terms, left, right);
        },
        Node::Difference(one, two) => {
            program_same(nodes, one as int, terms, left, right);
            program_same(nodes, two as int, terms, left, right);
        },
    }
}

/// The terms among names.
pub open spec fn name_texts(names: Seq<Option<&str>>) -> Set<Seq<u8>> {
    Set::new(
        |text: Seq<u8>|
            exists|i: int|
                0 <= i < names.len() && name_bytes(#[trigger] names[i]) == Some(text),
    )
}

/// The answer of a program by the terms that an owner is listed under.
pub open spec fn posting_ruling(
    model: StoreModel,
    meta: Image,
    nodes: Seq<Node>,
    names: Seq<Option<&str>>,
) -> spec_fn(OwnerModel, bool) -> bool {
    |owner: OwnerModel, present: bool|
        undamaged(model, meta, name_texts(names)) ==> present == program_value(
            nodes,
            nodes.len() - 1,
            members_under(names, terms_of(model, meta, owner.reference)),
        )
}

/// Postings lead to no error where they are undamaged.
pub open spec fn posting_faults(
    model: StoreModel,
    meta: Image,
    names: Seq<Option<&str>>,
) -> spec_fn(OwnerModel, Error) -> bool {
    |owner: OwnerModel, error: Error| !undamaged(model, meta, name_texts(names))
}

/// Judges by the posting chains of the terms.
struct ByPostings<'p, 'q> {
    nodes: &'p Vec<Node>,
    names: &'p Vec<Option<&'q str>>,
    cursors: Vec<Option<Cursor<'q>>>,
    meta: Ghost<Image>,
}

impl<'p, 'q> ByPostings<'p, 'q> {
    spec fn cursor_ready(
        &self,
        model: StoreModel,
        at: Option<OwnerRef>,
        index: int,
    ) -> bool {
        match (self.names@[index], self.cursors@[index]) {
            (Some(name), Some(cursor)) => {
                &&& cursor.wf()
                &&& cursor.text == name
                &&& undamaged(model, self.meta@, name_texts(self.names@)) ==> cursor.rest(model) == Some(
                    dropped(
                        term_list(model, self.meta@, text_bytes(name))->Some_0,
                        at,
                        at is None,
                    ),
                )
            },
            (None, None) => true,
            _ => false,
        }
    }
}

impl<'p, 'q, S: PageStore> Judge<S> for ByPostings<'p, 'q> {
    closed spec fn ready(&self, model: StoreModel, at: Option<OwnerRef>) -> bool {
        &&& self.nodes@.len() > 0
        &&& self.cursors@.len() == self.names@.len()
        &&& forall|i: int|
            0 <= i < self.nodes@.len() ==> node_valid(
                #[trigger] self.nodes@[i],
                i,
                self.names@.len() as int,
            )
        &&& forall|i: int|
            0 <= i < self.names@.len() ==> #[trigger] self.cursor_ready(model, at, i)
    }

    closed spec fn ruling(&self, model: StoreModel) -> spec_fn(OwnerModel, bool) -> bool {
        posting_ruling(model, self.meta@, self.nodes@, self.names@)
    }

    closed spec fn faults(&self, model: StoreModel) -> spec_fn(OwnerModel, Error) -> bool {
        posting_faults(model, self.meta@, self.names@)
    }

    closed spec fn lacking(&self) -> spec_fn(OwnerModel) -> bool {
        |owner: OwnerModel| false
    }

    #[verifier::loop_isolation(false)]
    fn judge(&mut self, store: &mut S, owner: &Owner<'_>, at: Ghost<Option<OwnerRef>>) -> (result:
        Result<Option<bool>>) {
        let ghost model = store.host().model;
        let ghost meta = self.meta@;
        let wanted: OwnerRef = owner.reference;
        let mut members: Vec<bool> = Vec::new();
        let ghost under = terms_of(model, meta, wanted);
        let ghost expected = members_under(self.names@, under);
        let ghost sound = undamaged(model, meta, name_texts(self.names@));
        let mut index: usize = 0;
        while index < self.cursors.len()
            invariant
                index <= self.cursors@.len(),
                members@.len() == index,
                store.host() == old(store).host(),
                self.nodes == old(self).nodes,
                self.names == old(self).names,
                self.meta == old(self).meta,
                self.cursors@.len() == old(self).cursors@.len(),
                forall|i: int|
                    0 <= i < index ==> #[trigger] self.cursor_ready(model, Some(wanted), i),
                forall|i: int|
                    index <= i < self.cursors@.len() ==> #[trigger] self.cursors@[i] == old(self).cursors@[i],
                sound ==> forall|t: int| 0 <= t < index ==> #[trigger] members@[t] == expected(t),
            decreases self.cursors@.len() - index,
        {
            let ghost before = *self;
            assert(old(self).cursor_ready(model, at@, index as int));
            let mut member: bool = false;
            match &mut self.cursors[index] {
                None => {},
                Some(cursor) => {
                    assert(name_bytes(self.names@[index as int]) == Some(text_bytes(cursor.text)));
                    member = is_member(
                        store,
                        cursor,
                        owner,
                        at,
                        Ghost(meta),
                        Ghost(name_texts(self.names@)),
                    )?;
                },
            }
            members.push(member);
            assert forall|i: int| 0 <= i < index + 1 implies #[trigger] self.cursor_ready(
                model,
                Some(wanted),
                i,
            ) by {
                if i < index {
                    assert(before.cursor_ready(model, Some(wanted), i));
                    assert(self.cursors@[i] == before.cursors@[i]);
                }
            }
            index += 1;
        }
        let present: bool = matched(self.nodes, &members)?;
        proof {
            if sound {
                program_same(
                    self.nodes@,
                    self.nodes@.len() - 1,
                    self.names@.len() as int,
                    |term: int| members@[term],
                    expected,
                );
            }
        }
        Ok(Some(present))
    }
}

/// Whether an owner is listed under the term of a cursor that stands before it.
fn is_member<S: PageStore>(
    store: &mut S,
    cursor: &mut Cursor<'_>,
    owner: &Owner<'_>,
    at: Ghost<Option<OwnerRef>>,
    meta: Ghost<Image>,
    texts: Ghost<Set<Seq<u8>>>,
) -> (result: Result<bool>)
    requires
        old(cursor).wf(),
        texts@.contains(text_bytes(old(cursor).text)),
        passes(owner.reference, at@, true),
        old(store).host().model.owner_of(owner.reference) == Ok::<OwnerModel, Error>(owner@),
        undamaged(old(store).host().model, meta@, texts@) ==> old(cursor).rest(old(store).host().model)
            == Some(
            dropped(
                term_list(old(store).host().model, meta@, text_bytes(old(cursor).text))->Some_0,
                at@,
                at@ is None,
            ),
        ),
    ensures
        final(store).host() == old(store).host(),
        final(cursor).text == old(cursor).text,
        result is Err ==> !old(store).host().reliable || !undamaged(
            old(store).host().model,
            meta@,
            texts@,
        ),
        result matches Ok(member) ==> {
            &&& final(cursor).wf()
            &&& undamaged(old(store).host().model, meta@, texts@) ==> {
                &&& member == listed_under(
                    old(store).host().model,
                    meta@,
                    owner.reference,
                    text_bytes(old(cursor).text),
                )
                &&& final(cursor).rest(old(store).host().model) == Some(
                    dropped(
                        term_list(
                            old(store).host().model,
                            meta@,
                            text_bytes(old(cursor).text),
                        )->Some_0,
                        Some(owner.reference),
                        false,
                    ),
                )
            }
        },
{
    let ghost model = store.host().model;
    let wanted: OwnerRef = owner.reference;
    let ghost text = text_bytes(cursor.text);
    let ghost list = term_list(model, meta@, text)->Some_0;
    proof {
        if undamaged(model, meta@, texts@) {
            listed_once(model, meta@, texts@, cursor.text, at@, owner@);
        }
    }
    let found: Option<OwnerRef> = cursor.seek(store, Some(wanted), false)?;
    proof {
        if undamaged(model, meta@, texts@) {
            dropped_twice(list, at@, at@ is None, Some(wanted), false);
            dropped_keeps(list, Some(wanted), false, wanted);
            let rest = dropped(list, Some(wanted), false);
            cursor.rest_head(model);
            if list.contains(wanted) {
                let k = choose|k: int| 0 <= k < list.len() && list[k] == rest[0];
                assert(place(list[k]) == place(wanted));
            }
        }
    }
    Ok(
        match found {
            Some(found) => found == wanted,
            None => false,
        },
    )
}

/// Around an owner of the store, a term's list holds the owner or nothing at
/// its place; where it holds it, it comes first.
proof fn listed_once(
    model: StoreModel,
    meta: Image,
    texts: Set<Seq<u8>>,
    text: &str,
    at: Option<OwnerRef>,
    owner: OwnerModel,
)
    requires
        undamaged(model, meta, texts),
        texts.contains(text_bytes(text)),
        model.owner_of(owner.reference) == Ok::<OwnerModel, Error>(owner),
    ensures
        ({
            let list = term_list(model, meta, text_bytes(text))->Some_0;
            &&& term_list(model, meta, text_bytes(text)) is Some
            &&& crate::mutable::query::in_order(list)
            &&& crate::mutable::query::agrees(
                dropped(list, at, at is None),
                Some(owner.reference),
            )
            &&& forall|i: int|
                0 <= i < list.len() && place(#[trigger] list[i]) == place(owner.reference)
                    ==> list[i] == owner.reference
        }),
{
    let term = text_bytes(text);
    let list = term_list(model, meta, term)->Some_0;
    assert(term_list(model, meta, term) is Some) by {
        reveal(undamaged);
    }
    term_list_order(model, meta, term);
    assert forall|i: int|
        0 <= i < list.len() && place(#[trigger] list[i]) == place(
            owner.reference,
        ) implies list[i] == owner.reference by {
        assert(list.contains(list[i]));
        assert(listed_under(model, meta, list[i], term));
        assert(known(model, meta, texts, list[i]));
        crate::mutable::query::known_resolved(model, meta, texts, list[i]);
        assert(list[i].page == owner.reference.page && list[i].slot == owner.reference.slot);
    }
    let rest = dropped(list, at, at is None);
    dropped_keeps(list, at, at is None, owner.reference);
    assert forall|i: int|
        0 <= i < rest.len() && place(#[trigger] rest[i]) == place(
            owner.reference,
        ) implies rest[i] == owner.reference by {
        assert(list.contains(rest[i]));
        let k = choose|k: int| 0 <= k < list.len() && list[k] == rest[i];
        assert(place(list[k]) == place(owner.reference));
    }
}

/// The whole payload of an owner.
pub open spec fn whole_payload(model: StoreModel, owner: OwnerModel) -> Option<Seq<u8>> {
    if owner.inline.len() > 0 {
        Some(owner.inline)
    } else {
        fragments(model, owner, owner.data_head, 0, model.pages.len() as u32)
    }
}

/// The answer of a program by the terms of an owner's payload.
pub open spec fn payload_ruling(
    model: StoreModel,
    nodes: Seq<Node>,
    names: Seq<Option<&str>>,
) -> spec_fn(OwnerModel, bool) -> bool {
    |owner: OwnerModel, present: bool|
        whole_payload(model, owner) matches Some(bytes) && (stored_terms(
            bytes,
            owner.tokens,
            owner.terms,
        ) matches Ok(terms) && present == program_value(
            nodes,
            nodes.len() - 1,
            members_under(names, |term: Seq<u8>| terms.contains(term)),
        ))
}

/// A payload leads to an error where it is not whole, or not a document with
/// the owner's counts.
pub open spec fn payload_faults(model: StoreModel) -> spec_fn(OwnerModel, Error) -> bool {
    |owner: OwnerModel, error: Error|
        match whole_payload(model, owner) {
            None => true,
            Some(bytes) => stored_terms(bytes, owner.tokens, owner.terms) matches Err(fault)
                && fault == error,
        }
}

/// Memory does not suffice for a payload of fragments that is larger than the
/// limit, and may not suffice for one larger than the scratch that was given.
pub open spec fn payload_lacking(limit: int, given: int) -> spec_fn(OwnerModel) -> bool {
    |owner: OwnerModel|
        owner.inline.len() == 0 && (owner.data_bytes > limit || owner.data_bytes > given)
}

/// An owner whose payload holds the terms that it is listed under is judged the
/// same by its payload and by its postings.
pub proof fn payloads_judge_as_postings(
    model: StoreModel,
    meta: Image,
    nodes: Seq<Node>,
    names: Seq<Option<&str>>,
    owner: OwnerModel,
    present: bool,
)
    requires
        undamaged(model, meta, name_texts(names)),
        nodes.len() > 0,
        forall|i: int|
            0 <= i < nodes.len() ==> node_valid(#[trigger] nodes[i], i, names.len() as int),
        whole_payload(model, owner) matches Some(bytes) && (stored_terms(
            bytes,
            owner.tokens,
            owner.terms,
        ) matches Ok(terms) && forall|term: Seq<u8>| #[trigger]
            terms.contains(term) == listed_under(model, meta, owner.reference, term)),
    ensures
        (payload_ruling(model, nodes, names))(owner, present) == (posting_ruling(
            model,
            meta,
            nodes,
            names,
        ))(owner, present),
{
    let bytes = whole_payload(model, owner)->Some_0;
    let terms = stored_terms(bytes, owner.tokens, owner.terms)->Ok_0;
    program_same(
        nodes,
        nodes.len() - 1,
        names.len() as int,
        members_under(names, |term: Seq<u8>| terms.contains(term)),
        members_under(names, terms_of(model, meta, owner.reference)),
    );
}

/// Judges by the payloads of the owners.
struct ByPayload<'p, 'q> {
    nodes: &'p Vec<Node>,
    membership: TermMembership<'p, 'q>,
    terms: usize,
    scratch: Scratch,
    limit: usize,
    given: Ghost<int>,
}

impl<'p, 'q> ByPayload<'p, 'q> {
    /// Evaluates the program on a payload.
    #[verifier::loop_isolation(false)]
    fn decide(&self, bytes: &[u8], tokens: u32, terms: u32) -> (result: Result<bool>)
        requires
            self.nodes@.len() > 0,
            self.terms == self.membership.asked().len(),
            self.terms <= 64,
            forall|i: int|
                0 <= i < self.nodes@.len() ==> node_valid(
                    #[trigger] self.nodes@[i],
                    i,
                    self.terms as int,
                ),
        ensures
            result matches Err(error) ==> (stored_terms(bytes@, tokens, terms) matches Err(fault)
                && fault == error),
            result matches Ok(present) ==> (stored_terms(bytes@, tokens, terms) matches Ok(list)
                && present == program_value(
                self.nodes@,
                self.nodes@.len() - 1,
                members_under(self.membership.asked(), |term: Seq<u8>| list.contains(term)),
            )),
    {
        let mask: u64 = self.membership.read(bytes, tokens, terms)?;
        let ghost list = stored_terms(bytes@, tokens, terms)->Ok_0;
        let ghost names = self.membership.asked();
        let ghost under = |term: Seq<u8>| list.contains(term);
        let ghost expected = members_under(names, under);
        let words: [u64; 1] = [mask];
        let mut members: Vec<bool> = Vec::new();
        let mut index: usize = 0;
        while index < self.terms
            invariant
                index <= self.terms,
                members@.len() == index,
                forall|t: int| 0 <= t < index ==> #[trigger] members@[t] == expected(t),
            decreases self.terms - index,
        {
            let held: bool = mask_has(&words, index);
            proof {
                assert(words@[0] == mask);
                assert(held == bit(mask, index as int));
                assert(bit(mask, index as int) == expected(index as int));
            }
            members.push(held);
            index += 1;
        }
        let present: bool = matched(self.nodes, &members)?;
        proof {
            program_same(
                self.nodes@,
                self.nodes@.len() - 1,
                self.terms as int,
                |term: int| members@[term],
                expected,
            );
        }
        Ok(present)
    }
}

impl<'p, 'q, S: PageStore> Judge<S> for ByPayload<'p, 'q> {
    closed spec fn ready(&self, model: StoreModel, at: Option<OwnerRef>) -> bool {
        &&& self.nodes@.len() > 0
        &&& self.terms == self.membership.asked().len()
        &&& self.terms <= 64
        &&& self.given@ <= self.scratch@.held <= self.limit
        &&& forall|i: int|
            0 <= i < self.nodes@.len() ==> node_valid(
                #[trigger] self.nodes@[i],
                i,
                self.terms as int,
            )
    }

    closed spec fn ruling(&self, model: StoreModel) -> spec_fn(OwnerModel, bool) -> bool {
        payload_ruling(model, self.nodes@, self.membership.asked())
    }

    closed spec fn faults(&self, model: StoreModel) -> spec_fn(OwnerModel, Error) -> bool {
        payload_faults(model)
    }

    closed spec fn lacking(&self) -> spec_fn(OwnerModel) -> bool {
        payload_lacking(self.limit as int, self.given@)
    }

    fn judge(&mut self, store: &mut S, owner: &Owner<'_>, at: Ghost<Option<OwnerRef>>) -> (result:
        Result<Option<bool>>) {
        if owner.inline.len() > 0 {
            return Ok(Some(self.decide(owner.inline, owner.tokens, owner.terms)?));
        }
        let total: usize = owner.data_bytes as usize;
        if total > self.limit {
            return Ok(None);
        }
        self.scratch.clear();
        if !self.scratch.grow(total, self.limit) {
            return Ok(None);
        }
        read_fragments(store, owner, &mut self.scratch)?;
        Ok(Some(self.decide(self.scratch.bytes(), owner.tokens, owner.terms)?))
    }
}

/// The owners beyond a snapshot.
pub open spec fn frontier_owners(model: StoreModel, meta: Image, snapshot: GroupSnapshot) -> Walk<
    OwnerModel,
> {
    match meta.owner_chain() {
        Err(error) => Walk::failed(error),
        Ok((head, tail)) => {
            let (block, slot) = match snapshot.after {
                Some(owner) => (owner.page, owner.slot + 1),
                None => (head, 0),
            };
            if block == NO_BLOCK {
                Walk::nothing()
            } else {
                chain_owners(model, block, slot, tail)
            }
        },
    }
}

/// Where the owners beyond a snapshot start.
fn frontier_start(meta: &Page, snapshot: &GroupSnapshot) -> (result: Result<(u32, u16, u32)>)
    ensures
        result matches Err(error) ==> meta@.owner_chain() matches Err(fault) && fault == error
            || error == Error::InvalidState && (snapshot.after matches Some(owner) && owner.slot
            == u16::MAX),
        result matches Ok((block, slot, tail)) ==> (meta@.owner_chain() matches Ok((head, end))
            && end == tail && match snapshot.after {
            Some(owner) => block == owner.page && slot == owner.slot + 1,
            None => block == head && slot == 0,
        }),
{
    let (head, tail): (u32, u32) = meta.owner_chain()?;
    match snapshot.after {
        Some(owner) => match owner.slot.checked_add(1) {
            Some(slot) => Ok((owner.page, slot, tail)),
            None => Err(Error::InvalidState),
        },
        None => Ok((head, 0, tail)),
    }
}

/// Judgements one behind the other.
proof fn judged_join(left: Seq<Judged>, right: Seq<Judged>)
    ensures
        judged_roots(left + right) == judged_roots(left) + judged_roots(right),
        judged_owners(left + right) == judged_owners(left) + judged_owners(right),
    decreases right.len(),
{
    assert(judged_owners(left + right) =~= judged_owners(left) + judged_owners(right));
    if right.len() > 0 {
        judged_join(left, right.drop_last());
        assert((left + right).drop_last() =~= left + right.drop_last());
        assert(judged_roots(left + right) =~= judged_roots(left) + judged_roots(right));
    } else {
        assert(left + right =~= left);
        assert(judged_roots(left) =~= judged_roots(left) + judged_roots(right));
    }
}

/// Takes the roots of one owner page at a time.
trait Batch {
    spec fn got(&self) -> Seq<RootTid>;

    /// What does not change.
    spec fn rest(&self) -> Seq<(u32, Seq<u64>)>;

    /// Whether nothing is refused while there is room.
    spec fn willing(&self) -> bool;

    /// How many roots there is room for.
    spec fn room(&self) -> Option<int>;

    fn take(&mut self, roots: &Vec<RootTid>) -> (result: Result<()>)
        ensures
            final(self).rest() == old(self).rest(),
            final(self).willing() == old(self).willing(),
            final(self).room() == old(self).room(),
            old(self).willing() && (old(self).room() matches Some(room) ==> old(self).got().len()
                + roots@.len() <= room) ==> result is Ok,
            result is Ok ==> final(self).got() == old(self).got() + roots@,
    ;
}

/// Keeps roots up to a limit.
struct Buffer {
    roots: Vec<RootTid>,
    limit: usize,
}

impl Batch for Buffer {
    closed spec fn got(&self) -> Seq<RootTid> {
        self.roots@
    }

    closed spec fn rest(&self) -> Seq<(u32, Seq<u64>)> {
        Seq::empty()
    }

    closed spec fn willing(&self) -> bool {
        true
    }

    closed spec fn room(&self) -> Option<int> {
        Some(self.limit as int)
    }

    fn take(&mut self, roots: &Vec<RootTid>) -> (result: Result<()>) {
        if roots.len() > self.limit || self.roots.len() > self.limit - roots.len() {
            return Err(Error::InvalidState);
        }
        let ghost before = self.roots@;
        let mut index: usize = 0;
        assert(before =~= before + roots@.take(0));
        while index < roots.len()
            invariant
                index <= roots@.len(),
                self.limit == old(self).limit,
                self.roots@ == before + roots@.take(index as int),
            decreases roots@.len() - index,
        {
            self.roots.push(roots[index]);
            assert(self.roots@ =~= before + roots@.take(index + 1));
            index += 1;
        }
        assert(roots@.take(index as int) =~= roots@);
        Ok(())
    }
}

/// Hands roots to a consumer.
#[verifier::loop_isolation(false)]
pub(crate) fn hand_over<T: ExactSink>(sink: &mut T, roots: &Vec<RootTid>) -> (result: Result<()>)
    ensures
        final(sink).pages() == old(sink).pages(),
        final(sink).accepting() == old(sink).accepting(),
        old(sink).accepting() ==> result is Ok,
        result is Ok ==> final(sink).roots() == old(sink).roots() + roots@,
{
    let mut index: usize = 0;
    assert(sink.roots() =~= sink.roots() + roots@.take(0));
    while index < roots.len()
        invariant
            index <= roots@.len(),
            sink.pages() == old(sink).pages(),
            sink.accepting() == old(sink).accepting(),
            sink.roots() == old(sink).roots() + roots@.take(index as int),
        decreases roots@.len() - index,
    {
        sink.tid(roots[index])?;
        assert(sink.roots() =~= old(sink).roots() + roots@.take(index + 1));
        index += 1;
    }
    assert(roots@.take(index as int) =~= roots@);
    Ok(())
}

impl<T: ExactSink> Batch for T {
    closed spec fn got(&self) -> Seq<RootTid> {
        self.roots()
    }

    closed spec fn rest(&self) -> Seq<(u32, Seq<u64>)> {
        self.pages()
    }

    closed spec fn willing(&self) -> bool {
        self.accepting()
    }

    closed spec fn room(&self) -> Option<int> {
        None
    }

    fn take(&mut self, roots: &Vec<RootTid>) -> (result: Result<()>) {
        hand_over(self, roots)
    }
}

/// Whether the owner that a snapshot ends at is where the snapshot says.
pub open spec fn anchor_kept(model: StoreModel, snapshot: GroupSnapshot) -> bool {
    snapshot.after matches Some(expected) ==> expected.slot < u16::MAX && (model.load(
        expected.page,
        PageKind::Owners,
    ) matches Ok(image) && (image.owner(expected.slot, model.layout) matches Ok(owner)
        && owner.reference == expected))
}

/// Whether judging the owners beyond a snapshot can end in an error.
pub open spec fn owners_fail(
    model: StoreModel,
    meta: Image,
    snapshot: GroupSnapshot,
    faults: spec_fn(OwnerModel, Error) -> bool,
    error: Error,
) -> bool {
    ||| !anchor_kept(model, snapshot)
    ||| stream_fails(
        frontier_owners(model, meta, snapshot),
        snapshot.after,
        snapshot.id.get(),
        faults,
        error,
    )
}

/// Judgements of one page behind those of the pages before it.
proof fn judged_further(
    before: Seq<Judged>,
    part: Seq<Judged>,
    ruling: spec_fn(OwnerModel, bool) -> bool,
    floor: u64,
    ceiling: u64,
    previous: Option<OwnerRef>,
)
    requires
        judged_by(before, ruling, floor, ceiling),
        judged_by(part, ruling, floor, ceiling),
        in_line(judged_owners(before), previous, floor),
        in_line(judged_owners(part), last_judged(before, previous), floor),
    ensures
        judged_by(before + part, ruling, floor, ceiling),
        in_line(judged_owners(before + part), previous, floor),
        judged_roots(before + part) == judged_roots(before) + judged_roots(part),
        judged_owners(before + part) == judged_owners(before) + judged_owners(part),
        last_judged(before + part, previous) == last_judged(part, last_judged(before, previous)),
        judged_roots(before + part).len() <= (before + part).len(),
        (before + part).len() > 0 ==> (before + part).len() <= ceiling - floor,
{
    let judged = before + part;
    judged_join(before, part);
    in_line_joined(judged_owners(before), judged_owners(part), previous, floor);
    assert forall|i: int| 0 <= i < judged.len() implies judged_well(
        #[trigger] judged[i],
        ruling,
        floor,
        ceiling,
    ) by {
        if i < before.len() {
            assert(judged_well(before[i], ruling, floor, ceiling));
        } else {
            assert(judged_well(part[i - before.len()], ruling, floor, ceiling));
        }
    }
    judged_few(judged, ruling, floor, ceiling, previous);
}

/// The owners of one page behind those of the pages before it, on a chain.
proof fn walked_further(
    walk: Seq<OwnerModel>,
    met: Seq<OwnerModel>,
    chain: Seq<OwnerModel>,
    slots: Seq<OwnerModel>,
    part: Seq<OwnerModel>,
)
    requires
        walk == met + chain,
        slots.len() <= chain.len(),
        chain.take(slots.len() as int) == slots,
        part.is_prefix_of(slots),
    ensures
        (met + part).is_prefix_of(walk),
        part.len() < slots.len() ==> (met + part).len() < walk.len() && walk[(met + part).len() as int]
            == slots[part.len() as int],
        part.len() == slots.len() ==> part == slots && walk == met + part + chain.skip(
            slots.len() as int,
        ),
{
    assert(chain.take(slots.len() as int) =~= slots);
    assert forall|i: int| 0 <= i < slots.len() implies slots[i] == chain[i] by {
        assert(chain.take(slots.len() as int)[i] == chain[i]);
    }
    assert forall|i: int| 0 <= i < part.len() implies part[i] == slots[i] by {
        assert(part =~= slots.take(part.len() as int));
    }
    assert((met + part) =~= walk.take((met + part).len() as int));
    if part.len() == slots.len() {
        assert(part =~= slots);
        assert(walk =~= met + part + chain.skip(slots.len() as int));
    }
}

/// Where memory may not suffice for a part of a stream, it may not for the stream.
proof fn lacking_further(
    walk: Seq<OwnerModel>,
    met: Seq<OwnerModel>,
    part: Seq<OwnerModel>,
    lacking: spec_fn(OwnerModel) -> bool,
)
    requires
        (met + part).is_prefix_of(walk),
        some_lacking(part, lacking),
    ensures
        some_lacking(walk, lacking),
{
    reveal(some_lacking);
    let joined = met + part;
    assert(joined =~= walk.take(joined.len() as int));
    let i = choose|i: int|
        0 <= i < part.len() && searchable(#[trigger] part[i]) && lacking(part[i]);
    assert(joined[met.len() + i] == part[i]);
    assert(searchable(walk[met.len() + i]));
}

/// The owners of the first page of a chain come first.
proof fn slots_first(model: StoreModel, block: u32, slot: int, tail: u32, image: Image)
    requires
        model.load(block, PageKind::Owners) == Ok::<Image, Error>(image),
    ensures
        ({
            let slots = all_slots(image, slot, model.layout);
            let chain = chain_owners(model, block, slot, tail);
            &&& slots.items.len() <= chain.items.len()
            &&& chain.items.take(slots.items.len() as int) == slots.items
            &&& slots.end is Err ==> chain.end == slots.end
        }),
{
    let slots = all_slots(image, slot, model.layout);
    let chain = chain_owners(model, block, slot, tail);
    assert(chain.items.take(slots.items.len() as int) =~= slots.items);
}

/// Whether a page holds the owner that a snapshot ends at.
fn anchored(page: &Page, expected: OwnerRef, layout: HeapLayout) -> (result: Result<()>)
    ensures
        result is Ok <==> (page@.owner(expected.slot, layout) matches Ok(owner) && owner.reference
            == expected),
{
    let found: Owner<'_> = page.owner(expected.slot, layout)?;
    if found.reference != expected {
        return Err(Error::InvalidState);
    }
    Ok(())
}

/// Judges the owners beyond a snapshot, up to a ceiling.
#[verifier::rlimit(80)]
#[verifier::spinoff_prover]
#[verifier::loop_isolation(false)]
fn judge_frontier<S: PageStore, J: Judge<S>, B: Batch>(
    store: &mut S,
    meta: &Page,
    snapshot: &GroupSnapshot,
    ceiling: u64,
    judge: &mut J,
    batch: &mut B,
) -> (result: Result<Option<(u64, Ghost<Seq<Judged>>)>>)
    requires
        old(judge).ready(old(store).host().model, None),
        ceiling >= snapshot.id.get(),
    ensures
        final(store).host() == old(store).host(),
        final(batch).rest() == old(batch).rest(),
        final(batch).willing() == old(batch).willing(),
        result matches Err(error) ==> !(old(store).host().reliable && old(batch).willing())
            || (old(batch).room() matches Some(room) && old(batch).got().len() + ceiling
            - snapshot.id.get() > room) || owners_fail(
            old(store).host().model,
            meta@,
            *snapshot,
            old(judge).faults(old(store).host().model),
            error,
        ),
        result == Ok::<Option<(u64, Ghost<Seq<Judged>>)>, Error>(None) ==> some_lacking(
            frontier_owners(old(store).host().model, meta@, *snapshot).items,
            old(judge).lacking(),
        ),
        result matches Ok(Some((count, judged))) ==> {
            &&& judged_all(
                frontier_owners(old(store).host().model, meta@, *snapshot),
                judged@,
                ceiling,
            )
            &&& judged_by(
                judged@,
                old(judge).ruling(old(store).host().model),
                snapshot.id.get(),
                ceiling,
            )
            &&& final(batch).got() == old(batch).got() + judged_roots(judged@)
            &&& count == judged_roots(judged@).len()
        },
{
    let ghost model = store.host().model;
    let ghost walk = frontier_owners(model, meta@, *snapshot);
    let ghost ruling = judge.ruling(model);
    let ghost faults = judge.faults(model);
    let floor: u64 = snapshot.id.get();
    proof {
        assert(walk.end matches Err(error) ==> stream_fails(
            walk,
            snapshot.after,
            floor,
            faults,
            error,
        )) by {
            reveal(stream_fails);
        }
        assert(in_line(judged_owners(Seq::empty()), snapshot.after, floor)) by {
            reveal(in_line);
        }
    }
    let (first, from, tail): (u32, u16, u32) = frontier_start(meta, snapshot)?;
    let ghost mut judged: Seq<Judged> = Seq::empty();
    let ghost mut at: Option<OwnerRef> = None;
    let mut count: u64 = 0;
    proof {
        assert(batch.got() =~= batch.got() + judged_roots(judged));
        assert(judged_owners(judged) + walk.items =~= walk.items);
    }
    if first == NO_BLOCK {
        return Ok(Some((0, Ghost(judged))));
    }
    let mut block: u32 = first;
    let mut slot: u16 = from;
    let mut anchor: Option<OwnerRef> = snapshot.after;
    let mut previous: Option<OwnerRef> = snapshot.after;
    loop
        invariant
            store.host() == old(store).host(),
            batch.rest() == old(batch).rest(),
            batch.willing() == old(batch).willing(),
            batch.room() == old(batch).room(),
            judge.faults(model) == faults,
            judge.lacking() == old(judge).lacking(),
            anchor == (if judged.len() == 0 && block == first && slot == from {
                anchor
            } else {
                None
            }),
            anchor is Some ==> anchor == snapshot.after && block == snapshot.after->Some_0.page,
            previous == last_judged(judged, snapshot.after),
            in_line(judged_owners(judged), snapshot.after, floor),
            judge.ruling(model) == ruling,
            judge.ready(model, at),
            previous == at || previous is Some,
            at matches Some(owner) ==> (previous matches Some(last) && place(owner) <= place(last)),
            judged_by(judged, ruling, floor, ceiling),
            batch.got() == old(batch).got() + judged_roots(judged),
            count == judged_roots(judged).len(),
            walk.items == judged_owners(judged) + chain_owners(
                model,
                block,
                slot as int,
                tail,
            ).items,
            walk.end == chain_owners(model, block, slot as int, tail).end,
        decreases tail - block,
    {
        let page: Page = load(store, block, PageKind::Owners)?;
        if let Some(expected) = anchor {
            anchored(&page, expected, store.layout())?;
            anchor = None;
        }
        let mut output: Vec<RootTid> = Vec::new();
        let ghost slots = all_slots(page@, slot as int, model.layout);
        let ghost chain = chain_owners(model, block, slot as int, tail);
        let ghost entry = previous;
        proof {
            slots_first(model, block, slot as int, tail, page@);
        }
        let (end, part): (PageEnd, Ghost<Seq<Judged>>) = match judge_page(
            store,
            &page,
            slot,
            &mut previous,
            floor,
            ceiling,
            judge,
            &mut output,
            Ghost(at),
        ) {
            Ok(judgement) => judgement,
            Err(error) => {
                proof {
                    if store.host().reliable {
                        let met = judged_owners(judged);
                        assert(entry == if met.len() == 0 {
                            snapshot.after
                        } else {
                            Some(met.last().reference)
                        });
                        walked_further(walk.items, met, chain.items, slots.items, slots.items);
                        part_fails(walk, met, slots, snapshot.after, floor, faults, error);
                    }
                }
                return Err(error);
            },
        };
        if end == PageEnd::Unknown {
            proof {
                walked_further(
                    walk.items,
                    judged_owners(judged),
                    chain.items,
                    slots.items,
                    slots.items,
                );
                lacking_further(
                    walk.items,
                    judged_owners(judged),
                    slots.items,
                    old(judge).lacking(),
                );
            }
            return Ok(None);
        }
        let ghost before = judged;
        proof {
            judged = before + part@;
            judged_further(before, part@, ruling, floor, ceiling, snapshot.after);
            walked_further(
                walk.items,
                judged_owners(before),
                chain.items,
                slots.items,
                judged_owners(part@),
            );
            assert(output@ =~= judged_roots(part@));
        }
        batch.take(&output)?;
        proof {
            assert(old(batch).got() + judged_roots(before) + judged_roots(part@) =~= old(batch).got() + (judged_roots(before) + judged_roots(part@)));
        }
        count = count + output.len() as u64;
        if end == PageEnd::Fence {
            return Ok(Some((count, Ghost(judged))));
        }
        proof {
            at = choose|now: Option<OwnerRef>| #[trigger]
                judge.ready(model, now) && (now matches Some(owner) ==> (
                previous matches Some(last) && place(owner) <= place(last))) && (previous == now
                    || previous is Some);
            assert(judged_owners(part@) =~= slots.items);
        }
        match following(&page, tail)? {
            Some(next) => {
                proof {
                    let rest = chain_owners(model, next, 0, tail);
                    assert(chain.items == slots.items + rest.items);
                    assert(chain.items.skip(slots.items.len() as int) =~= rest.items);
                }
                block = next;
                slot = 0;
            },
            None => {
                assert(chain.items.skip(slots.items.len() as int) =~= Seq::empty());
                assert(judged_owners(judged) + Seq::<OwnerModel>::empty() =~= judged_owners(judged));
                return Ok(Some((count, Ghost(judged))));
            },
        }
    }
}

/// The fewest owners for which payloads are read instead of postings.
pub const OWNER_FRONTIER_MIN_SPAN: u64 = 512;

/// The memory that a scan of the frontier needs beside its cursors.
pub const OWNER_FRONTIER_FIXED: usize = 131072;

/// What was handed over of the owners beyond a snapshot: nothing where none can
/// be, else the roots of those that satisfy the program, by their payloads or
/// by their terms' postings.
pub open spec fn frontier_told(
    model: StoreModel,
    meta: Image,
    snapshot: GroupSnapshot,
    nodes: Seq<Node>,
    names: Seq<Option<&str>>,
    before: Seq<RootTid>,
    now: Seq<RootTid>,
) -> bool {
    ||| meta.grouped_delta_span(snapshot) == Ok::<u64, Error>(0) && now == before
    ||| exists|judged: Seq<Judged>, ruling: spec_fn(OwnerModel, bool) -> bool, ceiling: u64| #[trigger]
        judged_by(judged, ruling, snapshot.id.get(), ceiling) && judged_all(
            frontier_owners(model, meta, snapshot),
            judged,
            ceiling,
        ) && (ruling == posting_ruling(model, meta, nodes, names) && ceiling == u64::MAX
            || ruling == payload_ruling(model, nodes, names) && (meta.grouped_delta_span(
            snapshot,
        ) matches Ok(span) && ceiling == snapshot.id.get() + span)) && now == before
            + judged_roots(judged)
}

/// The last owner of a page's postings, each behind the one before it.
pub open spec fn last_listed(pending: Seq<Result<OwnerRef>>, previous: OwnerRef) -> Result<OwnerRef>
    decreases pending.len(),
{
    if pending.len() == 0 {
        Ok(previous)
    } else {
        match pending[0] {
            Err(error) => Err(error),
            Ok(owner) => if behind(owner, previous) {
                last_listed(pending.drop_first(), owner)
            } else {
                Err(Error::InvalidState)
            },
        }
    }
}

/// Whether a term has owners from a target on, by its first owner and its tail page.
pub open spec fn term_changed(model: StoreModel, entry: TermModel, target: u64) -> Result<bool> {
    if entry.first.incarnation.get() >= target {
        Ok(true)
    } else if entry.head == NO_BLOCK {
        Ok(false)
    } else {
        match model.load_posting(entry.tail, entry.reference) {
            Err(error) => Err(error),
            Ok(image) => match image.posting_stream() {
                Err(error) => Err(error),
                Ok(stream) => match last_listed(stream.outcomes(), entry.first) {
                    Err(error) => Err(error),
                    Ok(last) => if stream.outcomes().len() == 0 {
                        Err(Error::InvalidState)
                    } else {
                        Ok(last.incarnation.get() >= target)
                    },
                },
            },
        }
    }
}

/// Whether a term has owners from a target on, by its first owner and its tail page.
#[verifier::loop_isolation(false)]
fn changed<S: PageStore>(store: &mut S, term: &Term<'_>, target: u64) -> (result: Result<bool>)
    ensures
        answers(
            old(store).host(),
            final(store).host(),
            result,
            term_changed(old(store).host().model, term@, target),
        ),
{
    if term.first.incarnation.get() >= target {
        return Ok(true);
    }
    if term.head == NO_BLOCK {
        return Ok(false);
    }
    let page: Page = load_posting(store, term.tail, term.reference)?;
    let mut owners: Postings<'_> = page.posting_refs()?;
    let ghost all = owners@;
    let mut previous: OwnerRef = term.first;
    let mut found: bool = false;
    loop
        invariant
            store.host() == old(store).host(),
            last_listed(all, term.first) == last_listed(owners@, previous),
            found || owners@ == all,
            found ==> all.len() > 0,
        decreases owners@.len(),
    {
        let ghost pending = owners@;
        match owners.next() {
            None => {
                if !found {
                    return Err(Error::InvalidState);
                }
                return Ok(previous.incarnation.get() >= target);
            },
            Some(owner) => {
                let owner: OwnerRef = owner?;
                if !follows_last(owner, Some(previous)) {
                    return Err(Error::InvalidState);
                }
                previous = owner;
                found = true;
            },
        }
    }
}

/// Whether two of the terms from an index on have owners from a target on, where
/// some were met before.
pub open spec fn two_changed(
    model: StoreModel,
    meta: Image,
    names: Seq<Option<&str>>,
    target: u64,
    index: int,
    met: int,
) -> Result<bool>
    decreases names.len() - index,
{
    if index < 0 || index >= names.len() {
        Ok(false)
    } else {
        let rest = two_changed(model, meta, names, target, index + 1, met);
        match names[index] {
            None => rest,
            Some(name) => match model.find_term(meta, text_bytes(name)) {
                Err(error) => Err(error),
                Ok(None) => rest,
                Ok(Some((image, reference))) => match image.term(reference) {
                    Err(error) => Err(error),
                    Ok(entry) => match term_changed(model, entry, target) {
                        Err(error) => Err(error),
                        Ok(false) => rest,
                        Ok(true) => if met > 0 {
                            Ok(true)
                        } else {
                            two_changed(model, meta, names, target, index + 1, met + 1)
                        },
                    },
                },
            },
        }
    }
}

/// How many incarnations lie beyond a snapshot, where the payloads of their
/// owners are to be read: where there are many of them, and the program is not
/// bound to one term that changed.
pub open spec fn payload_span(
    host: Host,
    meta: Image,
    snapshot: GroupSnapshot,
    universe: bool,
    names: Seq<Option<&str>>,
) -> Result<Option<u64>> {
    if !host.owner_ordered {
        Ok(None)
    } else {
        match meta.grouped_delta_span(snapshot) {
            Err(error) => Err(error),
            Ok(span) => if span < OWNER_FRONTIER_MIN_SPAN {
                Ok(None)
            } else if universe {
                Ok(Some(span))
            } else {
                match two_changed(
                    host.model,
                    meta,
                    names,
                    (snapshot.id.get() + 1) as u64,
                    0,
                    0,
                ) {
                    Err(error) => Err(error),
                    Ok(true) => Ok(Some(span)),
                    Ok(false) => Ok(None),
                }
            },
        }
    }
}

/// Whether the payloads of the owners beyond a snapshot are to be read.
#[verifier::loop_isolation(false)]
fn owner_frontier_span<S: PageStore>(
    store: &mut S,
    program: &Program<'_>,
    meta: &Page,
    snapshot: &GroupSnapshot,
) -> (result: Result<Option<u64>>)
    ensures
        answers(
            old(store).host(),
            final(store).host(),
            result,
            payload_span(
                old(store).host(),
                meta@,
                *snapshot,
                program.universe,
                program.names@,
            ),
        ),
{
    if !store.owner_frontier() {
        return Ok(None);
    }
    let span: u64 = meta.grouped_delta_span(*snapshot)?;
    if span < OWNER_FRONTIER_MIN_SPAN {
        return Ok(None);
    }
    if program.universe {
        return Ok(Some(span));
    }
    let target: u64 = snapshot.id.get() + 1;
    let ghost model = store.host().model;
    let mut count: u8 = 0;
    let mut index: usize = 0;
    while index < program.names.len()
        invariant
            index <= program.names@.len(),
            store.host() == old(store).host(),
            count < 2,
            two_changed(model, meta@, program.names@, target, 0, 0) == two_changed(
                model,
                meta@,
                program.names@,
                target,
                index as int,
                count as int,
            ),
        decreases program.names@.len() - index,
    {
        if let Some(name) = program.names[index] {
            if let Some((dictionary, reference)) = find_term(store, meta, name)? {
                let entry: Term<'_> = dictionary.term(reference)?;
                if changed(store, &entry, target)? {
                    count = count + 1;
                    if count == 2 {
                        return Ok(Some(span));
                    }
                }
            }
        }
        index += 1;
    }
    Ok(None)
}

/// Whether reading the payloads of the owners beyond a snapshot can end in an error.
pub open spec fn payloads_fail(
    model: StoreModel,
    meta: Image,
    snapshot: GroupSnapshot,
    span: u64,
    error: Error,
) -> bool {
    ||| error == Error::Limit("owner frontier span") && span > usize::MAX
    ||| error == Error::Limit("owner frontier roots") && span * vstd::layout::size_of::<RootTid>()
        > usize::MAX
    ||| owners_fail(model, meta, snapshot, payload_faults(model), error)
}

/// Whether scanning the owners beyond a snapshot can end in an error.
pub open spec fn frontier_fails(
    host: Host,
    meta: Image,
    snapshot: GroupSnapshot,
    universe: bool,
    nodes: Seq<Node>,
    names: Seq<Option<&str>>,
    error: Error,
) -> bool {
    ||| meta.grouped_delta_span(snapshot) == Err::<u64, Error>(error)
    ||| suffixes_sought(host, meta, snapshot, nodes, names, 0) == Err::<(), Error>(error)
    ||| match payload_span(host, meta, snapshot, universe, names) {
        Err(fault) => fault == error,
        Ok(Some(span)) => payloads_fail(host.model, meta, snapshot, span, error),
        Ok(None) => false,
    }
    ||| !undamaged(host.model, meta, name_texts(names))
    ||| owners_fail(host.model, meta, snapshot, posting_faults(host.model, meta, names), error)
}

/// Whether the postings beyond a snapshot were sought without a fault, where
/// there can be some and they are read.
pub open spec fn suffixes_met(
    host: Host,
    meta: Image,
    snapshot: GroupSnapshot,
    universe: bool,
    nodes: Seq<Node>,
    names: Seq<Option<&str>>,
) -> bool {
    ||| meta.grouped_delta_span(snapshot) == Ok::<u64, Error>(0)
    ||| payload_span(host, meta, snapshot, universe, names) matches Ok(Some(_))
    ||| suffixes_sought(host, meta, snapshot, nodes, names, 0) is Ok
}

/// Scans payloads into roots for which there is room, with the scratch that the
/// allocator gave; nothing where a payload does not fit.
fn scan_payloads<S: PageStore, T: ExactSink>(
    store: &mut S,
    program: &Program<'_>,
    meta: &Page,
    snapshot: &GroupSnapshot,
    span: u64,
    roots: Vec<RootTid>,
    scratch: Scratch,
    limit: usize,
    sink: &mut T,
) -> (result: Result<Option<u64>>)
    requires
        program.nodes@.len() > 0,
        program.names@.len() <= 64,
        forall|i: int|
            0 <= i < program.nodes@.len() ==> node_valid(
                #[trigger] program.nodes@[i],
                i,
                program.names@.len() as int,
            ),
        meta@.grouped_delta_span(*snapshot) == Ok::<u64, Error>(span),
        span <= usize::MAX,
        roots@.len() == 0,
        scratch@.held <= limit,
    ensures
        final(store).host() == old(store).host(),
        final(sink).pages() == old(sink).pages(),
        final(sink).accepting() == old(sink).accepting(),
        match result {
            Ok(Some(count)) => {
                &&& frontier_told(
                    old(store).host().model,
                    meta@,
                    *snapshot,
                    program.nodes@,
                    program.names@,
                    old(sink).roots(),
                    final(sink).roots(),
                )
                &&& count == final(sink).roots().len() - old(sink).roots().len()
            },
            Ok(None) => final(sink).roots() == old(sink).roots() && some_lacking(
                frontier_owners(old(store).host().model, meta@, *snapshot).items,
                payload_lacking(limit as int, scratch@.held as int),
            ),
            Err(error) => !(old(store).host().reliable && old(sink).accepting()) || owners_fail(
                old(store).host().model,
                meta@,
                *snapshot,
                payload_faults(old(store).host().model),
                error,
            ),
        },
{
    let ghost model = store.host().model;
    let ceiling: u64 = snapshot.id.get() + span;
    let membership: TermMembership<'_, '_> = TermMembership::new(program.names.as_slice())?;
    store.event(Stage::OwnerFrontierScan)?;
    let mut buffer: Buffer = Buffer { roots, limit: span as usize };
    let given: Ghost<int> = Ghost(scratch@.held as int);
    let mut judge: ByPayload<'_, '_> = ByPayload {
        nodes: &program.nodes,
        membership,
        terms: program.names.len(),
        scratch,
        limit,
        given,
    };
    let (count, judged): (u64, Ghost<Seq<Judged>>) = match judge_frontier(
        store,
        meta,
        snapshot,
        ceiling,
        &mut judge,
        &mut buffer,
    )? {
        None => {
            return Ok(None);
        },
        Some(found) => found,
    };
    hand_over(sink, &buffer.roots)?;
    proof {
        assert(buffer.roots@ =~= judged_roots(judged@));
        let ruling = payload_ruling(model, program.nodes@, program.names@);
        assert(judged_by(judged@, ruling, snapshot.id.get(), ceiling));
    }
    Ok(Some(count))
}

/// Scans the payloads of the owners beyond a snapshot; nothing where memory
/// does not suffice.
fn scan_owner_frontier<S: PageStore, T: ExactSink>(
    store: &mut S,
    program: &Program<'_>,
    meta: &Page,
    snapshot: &GroupSnapshot,
    span: u64,
    memory_bytes: usize,
    sink: &mut T,
) -> (result: Result<Option<u64>>)
    requires
        program.nodes@.len() > 0,
        program.names@.len() <= 64,
        forall|i: int|
            0 <= i < program.nodes@.len() ==> node_valid(
                #[trigger] program.nodes@[i],
                i,
                program.names@.len() as int,
            ),
        meta@.grouped_delta_span(*snapshot) == Ok::<u64, Error>(span),
    ensures
        final(store).host() == old(store).host(),
        final(sink).pages() == old(sink).pages(),
        final(sink).accepting() == old(sink).accepting(),
        memory_bytes < OWNER_FRONTIER_FIXED ==> result == Ok::<Option<u64>, Error>(None),
        OWNER_FRONTIER_FIXED <= memory_bytes && span <= usize::MAX && memory_bytes
            - OWNER_FRONTIER_FIXED < span * vstd::layout::size_of::<RootTid>() <= usize::MAX ==> result
            == Ok::<Option<u64>, Error>(None),
        match result {
            Ok(Some(count)) => {
                &&& frontier_told(
                    old(store).host().model,
                    meta@,
                    *snapshot,
                    program.nodes@,
                    program.names@,
                    old(sink).roots(),
                    final(sink).roots(),
                )
                &&& count == final(sink).roots().len() - old(sink).roots().len()
            },
            Ok(None) => {
                &&& final(sink).roots() == old(sink).roots()
                &&& memory_bytes < OWNER_FRONTIER_FIXED || span > 0 || some_lacking(
                    frontier_owners(old(store).host().model, meta@, *snapshot).items,
                    payload_lacking(memory_bytes - OWNER_FRONTIER_FIXED, 0),
                )
            },
            Err(error) => !(old(store).host().reliable && old(sink).accepting()) || payloads_fail(
                old(store).host().model,
                meta@,
                *snapshot,
                span,
                error,
            ),
        },
{
    if memory_bytes < OWNER_FRONTIER_FIXED {
        return Ok(None);
    }
    let available: usize = memory_bytes - OWNER_FRONTIER_FIXED;
    if span > usize::MAX as u64 {
        return Err(Error::Limit("owner frontier span"));
    }
    let limit: usize = span as usize;
    let size: usize = size_of::<RootTid>();
    match limit.checked_mul(size) {
        None => {
            return Err(Error::Limit("owner frontier roots"));
        },
        Some(requested) => {
            if requested > available {
                assert(limit == 0 ==> limit * size == 0) by (nonlinear_arith);
                return Ok(None);
            }
        },
    }
    let mut roots: Vec<RootTid> = Vec::new();
    let mut retained: usize = 0;
    if limit > 0 {
        if !try_reserve_exact(&mut roots, limit) {
            return Ok(None);
        }
        retained = match capacity(&roots).checked_mul(size) {
            Some(retained) => retained,
            None => {
                return Ok(None);
            },
        };
        if retained > available {
            return Ok(None);
        }
    }
    scan_payloads(
        store,
        program,
        meta,
        snapshot,
        span,
        roots,
        Scratch::new(),
        available - retained,
        sink,
    )
}

/// Hands over what satisfies a program among the owners beyond a snapshot.
#[verifier::loop_isolation(false)]
pub(crate) fn scan<S: PageStore, T: ExactSink>(
    store: &mut S,
    program: &Program<'_>,
    meta: &Page,
    snapshot: &GroupSnapshot,
    memory_bytes: usize,
    sink: &mut T,
) -> (result: Result<u64>)
    requires
        program.nodes@.len() > 0,
        program.names@.len() <= 64,
        forall|i: int|
            0 <= i < program.nodes@.len() ==> node_valid(
                #[trigger] program.nodes@[i],
                i,
                program.names@.len() as int,
            ),
    ensures
        final(store).host() == old(store).host(),
        final(sink).pages() == old(sink).pages(),
        final(sink).accepting() == old(sink).accepting(),
        result matches Err(error) ==> !(old(store).host().reliable && old(sink).accepting())
            || frontier_fails(
            old(store).host(),
            meta@,
            *snapshot,
            program.universe,
            program.nodes@,
            program.names@,
            error,
        ),
        result is Ok ==> suffixes_met(
            old(store).host(),
            meta@,
            *snapshot,
            program.universe,
            program.nodes@,
            program.names@,
        ),
        result matches Ok(count) ==> {
            &&& frontier_told(
                old(store).host().model,
                meta@,
                *snapshot,
                program.nodes@,
                program.names@,
                old(sink).roots(),
                final(sink).roots(),
            )
            &&& count == final(sink).roots().len() - old(sink).roots().len()
        },
{
    if !meta.grouped_has_delta(*snapshot)? {
        return Ok(0);
    }
    if let Some(span) = owner_frontier_span(store, program, meta, snapshot)? {
        if let Some(count) = scan_owner_frontier(
            store,
            program,
            meta,
            snapshot,
            span,
            memory_bytes,
            sink,
        )? {
            return Ok(count);
        }
    }
    scan_postings(store, program, meta, snapshot, sink)
}

/// Owners judged by their postings are handed over as they should be.
proof fn told_by_postings(
    model: StoreModel,
    meta: Image,
    snapshot: GroupSnapshot,
    nodes: Seq<Node>,
    names: Seq<Option<&str>>,
    before: Seq<RootTid>,
    now: Seq<RootTid>,
    judged: Seq<Judged>,
)
    requires
        judged_by(judged, posting_ruling(model, meta, nodes, names), snapshot.id.get(), u64::MAX),
        judged_all(frontier_owners(model, meta, snapshot), judged, u64::MAX),
        now == before + judged_roots(judged),
    ensures
        frontier_told(model, meta, snapshot, nodes, names, before, now),
{
    let ruling = posting_ruling(model, meta, nodes, names);
    assert(judged_by(judged, ruling, snapshot.id.get(), u64::MAX));
}

/// Opens the chains of terms.
#[verifier::loop_isolation(false)]
fn open_names<'q, S: PageStore>(
    store: &mut S,
    meta: &Page,
    names: &Vec<Option<&'q str>>,
) -> (result: Result<Vec<Option<Cursor<'q>>>>)
    ensures
        final(store).host() == old(store).host(),
        result is Err ==> !old(store).host().reliable || !undamaged(
            old(store).host().model,
            meta@,
            name_texts(names@),
        ),
        result matches Ok(cursors) ==> cursors@.len() == names@.len() && forall|i: int|
            0 <= i < names@.len() ==> opened(
                old(store).host().model,
                meta@,
                name_texts(names@),
                names@[i],
                #[trigger] cursors@[i],
            ),
{
    let ghost model = store.host().model;
    let mut cursors: Vec<Option<Cursor<'q>>> = Vec::new();
    let mut index: usize = 0;
    while index < names.len()
        invariant
            index <= names@.len(),
            cursors@.len() == index,
            store.host() == old(store).host(),
            forall|i: int|
                0 <= i < index ==> opened(
                    model,
                    meta@,
                    name_texts(names@),
                    names@[i],
                    #[trigger] cursors@[i],
                ),
        decreases names@.len() - index,
    {
        let cursor: Option<Cursor<'q>> = match names[index] {
            None => None,
            Some(name) => {
                proof {
                    if undamaged(model, meta@, name_texts(names@)) {
                        reveal(undamaged);
                        assert(name_bytes(names@[index as int]) == Some(text_bytes(name)));
                        assert(term_list(model, meta@, text_bytes(name)) is Some);
                    }
                }
                Some(open_cursor(store, meta, name)?)
            },
        };
        cursors.push(cursor);
        index += 1;
    }
    Ok(cursors)
}

/// Hands over what satisfies a program among the owners beyond a snapshot, by
/// the postings of its terms.
#[verifier::rlimit(60)]
#[verifier::spinoff_prover]
fn scan_postings<S: PageStore, T: ExactSink>(
    store: &mut S,
    program: &Program<'_>,
    meta: &Page,
    snapshot: &GroupSnapshot,
    sink: &mut T,
) -> (result: Result<u64>)
    requires
        program.nodes@.len() > 0,
        program.names@.len() <= 64,
        forall|i: int|
            0 <= i < program.nodes@.len() ==> node_valid(
                #[trigger] program.nodes@[i],
                i,
                program.names@.len() as int,
            ),
        meta@.grouped_delta_span(*snapshot) matches Ok(span) && span > 0,
    ensures
        final(store).host() == old(store).host(),
        final(sink).pages() == old(sink).pages(),
        final(sink).accepting() == old(sink).accepting(),
        result matches Err(error) ==> !(old(store).host().reliable && old(sink).accepting())
            || !undamaged(
            old(store).host().model,
            meta@,
            name_texts(program.names@),
        ) || owners_fail(
            old(store).host().model,
            meta@,
            *snapshot,
            posting_faults(old(store).host().model, meta@, program.names@),
            error,
        ) || suffixes_sought(
            old(store).host(),
            meta@,
            *snapshot,
            program.nodes@,
            program.names@,
            0,
        ) == Err::<(), Error>(error),
        result is Ok ==> suffixes_sought(
            old(store).host(),
            meta@,
            *snapshot,
            program.nodes@,
            program.names@,
            0,
        ) is Ok,
        result matches Ok(count) ==> {
            &&& frontier_told(
                old(store).host().model,
                meta@,
                *snapshot,
                program.nodes@,
                program.names@,
                old(sink).roots(),
                final(sink).roots(),
            )
            &&& count == final(sink).roots().len() - old(sink).roots().len()
        },
{
    let ghost model = store.host().model;
    seek_suffixes(store, meta, snapshot, &program.nodes, &program.names)?;
    let cursors: Vec<Option<Cursor<'_>>> = open_names(store, meta, &program.names)?;
    let mut judge: ByPostings<'_, '_> = ByPostings {
        nodes: &program.nodes,
        names: &program.names,
        cursors,
        meta: Ghost(meta@),
    };
    proof {
        assert forall|i: int| 0 <= i < program.names@.len() implies #[trigger] judge.cursor_ready(
            model,
            None,
            i,
        ) by {
            assert(opened(
                model,
                meta@,
                name_texts(program.names@),
                program.names@[i],
                judge.cursors@[i],
            ));
        }
    }
    let ghost ruling = posting_ruling(model, meta@, program.nodes@, program.names@);
    let ghost faults = posting_faults(model, meta@, program.names@);
    let ghost before = *sink;
    proof {
        assert(<ByPostings<'_, '_> as Judge<S>>::ready(&judge, model, None));
        assert(<ByPostings<'_, '_> as Judge<S>>::ruling(&judge, model) == ruling);
        assert(<ByPostings<'_, '_> as Judge<S>>::faults(&judge, model) == faults);
    }
    let ghost lacking = <ByPostings<'_, '_> as Judge<S>>::lacking(&judge);
    let outcome: Result<Option<(u64, Ghost<Seq<Judged>>)>> = judge_frontier(
        store,
        meta,
        snapshot,
        u64::MAX,
        &mut judge,
        sink,
    );
    assert(<T as Batch>::room(&before) is None);
    match outcome {
        Err(error) => Err(error),
        Ok(None) => {
            assert(false) by {
                reveal(some_lacking);
            }
            Ok(0)
        },
        Ok(Some((count, judged))) => {
            proof {
                told_by_postings(
                    model,
                    meta@,
                    *snapshot,
                    program.nodes@,
                    program.names@,
                    before.roots(),
                    sink.roots(),
                    judged@,
                );
            }
            Ok(count)
        },
    }
}

/// Whether a cursor was opened for a name.
spec fn opened(
    model: StoreModel,
    meta: Image,
    texts: Set<Seq<u8>>,
    name: Option<&str>,
    cursor: Option<Cursor<'_>>,
) -> bool {
    match (name, cursor) {
        (Some(name), Some(cursor)) => cursor.wf() && cursor.text == name && (undamaged(
            model,
            meta,
            texts,
        )
            ==> cursor.rest(model) == Some(
            dropped(term_list(model, meta, text_bytes(name))->Some_0, None, true),
        )),
        (None, None) => true,
        _ => false,
    }
}

} // verus!
