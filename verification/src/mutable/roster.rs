//! The owners on the owner chain, as a list, and how writing changes it.

use crate::codec::bytes::group_bytes;
use crate::error::Error;
use crate::identity::{group_identity, HeapLayout};
use crate::mutable::compact::owners_kept;
use crate::mutable::laws::owner_change_reads_back;
use crate::mutable::linking::grew;
use crate::mutable::page::laws_link::{same_body, same_body_owner};
use crate::mutable::page::model::{owner_step, Image};
use crate::mutable::page::{OwnerChange, OwnerModel, OwnerRef, PageKind, NO_BLOCK};
use crate::mutable::reader::{searchable, slots_walk};
use crate::mutable::store::{following_of, StoreModel};
use crate::mutable::walk::Walk;
use crate::mutable::writer::owner_changed;
use vstd::prelude::*;

verus! {

broadcast use {group_bytes, group_identity};

/// The owners of a page.
pub open spec fn records(image: Image, layout: HeapLayout) -> Seq<OwnerModel> {
    Seq::new(
        image.owner_count()->Ok_0 as nat,
        |slot: int| image.owner(slot as u16, layout)->Ok_0,
    )
}

/// The owners on the chain from `block` to `tail`, unless it is damaged.
pub open spec fn roster(model: StoreModel, block: u32, tail: u32) -> Option<Seq<OwnerModel>>
    decreases tail - block,
{
    match model.load(block, PageKind::Owners) {
        Err(_) => None,
        Ok(image) => match following_of(image, tail) {
            Err(_) => None,
            Ok(None) => Some(records(image, model.layout)),
            Ok(Some(next)) => if block < next <= tail {
                match roster(model, next, tail) {
                    None => None,
                    Some(rest) => Some(records(image, model.layout) + rest),
                }
            } else {
                None
            },
        },
    }
}

/// All owners, unless their chain is damaged.
pub open spec fn all_owners(model: StoreModel, meta: Image) -> Option<Seq<OwnerModel>> {
    match meta.owner_chain() {
        Err(_) => None,
        Ok((head, tail)) => if head == NO_BLOCK {
            Some(Seq::empty())
        } else {
            roster(model, head, tail)
        },
    }
}

/// What is picked of the searchable owners of a list.
pub open spec fn picked<T>(list: Seq<OwnerModel>, pick: spec_fn(OwnerModel) -> T) -> Seq<T>
    decreases list.len(),
{
    if list.len() == 0 {
        Seq::empty()
    } else if searchable(list.last()) {
        picked(list.drop_last(), pick).push(pick(list.last()))
    } else {
        picked(list.drop_last(), pick)
    }
}

/// What is picked of one list is picked before what is picked of the next.
pub proof fn picked_join<T>(
    left: Seq<OwnerModel>,
    right: Seq<OwnerModel>,
    pick: spec_fn(OwnerModel) -> T,
)
    ensures
        picked(left + right, pick) == picked(left, pick) + picked(right, pick),
    decreases right.len(),
{
    if right.len() == 0 {
        assert(left + right =~= left);
        assert(picked(left, pick) + picked(right, pick) =~= picked(left, pick));
    } else {
        picked_join(left, right.drop_last(), pick);
        assert((left + right).drop_last() =~= left + right.drop_last());
        assert((left + right).last() == right.last());
        if searchable(right.last()) {
            assert(picked(left, pick) + picked(right.drop_last(), pick).push(pick(right.last()))
                =~= (picked(left, pick) + picked(right.drop_last(), pick)).push(
                pick(right.last()),
            ));
        }
    }
}

/// An owner more is picked behind the others where it is searchable.
pub proof fn picked_push<T>(
    list: Seq<OwnerModel>,
    owner: OwnerModel,
    pick: spec_fn(OwnerModel) -> T,
)
    ensures
        picked(list.push(owner), pick) == (if searchable(owner) {
            picked(list, pick).push(pick(owner))
        } else {
            picked(list, pick)
        }),
{
    assert(list.push(owner).drop_last() =~= list);
    assert(list.push(owner).last() == owner);
}

/// A checked page holds sound owners.
pub proof fn owners_sound(image: Image, slot: int, payload: int, layout: HeapLayout)
    requires
        image.owner_count() is Ok,
        0 <= slot,
        image.check_owners(slot, payload, layout) is Ok,
    ensures
        forall|i: u16|
            slot <= i < image.owner_count()->Ok_0 ==> (#[trigger] image.owner(i, layout)) is Ok,
    decreases image.owner_count()->Ok_0 - slot,
{
    if slot < image.owner_count()->Ok_0 {
        let owner = image.owner(slot as u16, layout)->Ok_0;
        if owner.inline.len() == 0 {
            owners_sound(image, slot + 1, payload, layout);
        } else {
            owners_sound(image, slot + 1, payload + owner.inline.len(), layout);
        }
        assert forall|i: u16| slot <= i < image.owner_count()->Ok_0 implies (#[trigger] image.owner(
            i,
            layout,
        )) is Ok by {
            if i == slot {
                assert(i == slot as u16);
            }
        }
    }
}

pub proof fn slots_walked<T>(
    image: Image,
    slot: int,
    layout: HeapLayout,
    pick: spec_fn(OwnerModel) -> T,
)
    requires
        image.owner_count() is Ok,
        0 <= slot <= image.owner_count()->Ok_0,
        forall|i: u16|
            0 <= i < image.owner_count()->Ok_0 ==> (#[trigger] image.owner(i, layout)) is Ok,
    ensures
        slots_walk(image, slot, layout, pick) == (Walk {
            items: picked(records(image, layout).skip(slot), pick),
            end: Ok(()),
        }),
    decreases image.owner_count()->Ok_0 - slot,
{
    let all = records(image, layout);
    if slot < image.owner_count()->Ok_0 {
        slots_walked(image, slot + 1, layout, pick);
        let owner = image.owner(slot as u16, layout)->Ok_0;
        assert(image.owner(slot as u16, layout) is Ok);
        assert(all.skip(slot) =~= seq![owner] + all.skip(slot + 1));
        picked_join(seq![owner], all.skip(slot + 1), pick);
        assert(seq![owner] =~= Seq::<OwnerModel>::empty().push(owner));
        picked_push(Seq::<OwnerModel>::empty(), owner, pick);
        let rest = picked(all.skip(slot + 1), pick);
        if searchable(owner) {
            assert(picked(seq![owner], pick) =~= seq![pick(owner)]);
        } else {
            assert(picked(seq![owner], pick) =~= Seq::empty());
            assert(picked(seq![owner], pick) + rest =~= rest);
        }
    } else {
        assert(all.skip(slot) =~= Seq::empty());
        assert(picked(all.skip(slot), pick) =~= Seq::empty());
    }
}

/// The owner chain is walked as its list is, and can be walked to its end only
/// where it has one.
pub proof fn owners_walked<T>(
    model: StoreModel,
    block: u32,
    tail: u32,
    pick: spec_fn(OwnerModel) -> T,
)
    ensures
        roster(model, block, tail) matches Some(list) ==> model.owners_walk(block, tail, pick) == (
        Walk { items: picked(list, pick), end: Ok(()) }),
        model.owners_walk(block, tail, pick).end is Ok ==> roster(model, block, tail) is Some,
    decreases tail - block,
{
    if let Ok(image) = model.load(block, PageKind::Owners) {
        let count = image.owner_count()->Ok_0;
        let here = records(image, model.layout);
        owners_sound(image, 0, 20 + count * 40, model.layout);
        slots_walked(image, 0, model.layout, pick);
        assert(here.skip(0) =~= here);
        match following_of(image, tail) {
            Err(_) => {},
            Ok(None) => {
                assert(picked(here, pick) + Seq::<T>::empty() =~= picked(here, pick));
            },
            Ok(Some(next)) => {
                owners_walked(model, next, tail, pick);
                if let Some(rest) = roster(model, next, tail) {
                    picked_join(here, rest, pick);
                }
            },
        }
    }
}

/// All owners are walked as their list is, and can be walked to the end only
/// where there is one.
pub proof fn universe_walked<T>(model: StoreModel, meta: Image, pick: spec_fn(OwnerModel) -> T)
    ensures
        all_owners(model, meta) matches Some(list) ==> model.universe_walk(meta, pick) == (Walk {
            items: picked(list, pick),
            end: Ok(()),
        }),
        model.universe_walk(meta, pick).end is Ok ==> all_owners(model, meta) is Some,
{
    if let Ok((head, tail)) = meta.owner_chain() {
        if head != NO_BLOCK {
            owners_walked(model, head, tail, pick);
        } else {
            assert(picked(Seq::<OwnerModel>::empty(), pick) =~= Seq::empty());
        }
    }
}

/// The list of owners stays where no owner page changes.
pub proof fn roster_kept(before: StoreModel, after: StoreModel, block: u32, tail: u32)
    requires
        owners_kept(before, after),
        roster(before, block, tail) is Some,
    ensures
        roster(after, block, tail) == roster(before, block, tail),
    decreases tail - block,
{
    let image = before.load(block, PageKind::Owners)->Ok_0;
    assert(after.pages[block as int] == before.pages[block as int]);
    assert(after.load(block, PageKind::Owners) == before.load(block, PageKind::Owners));
    if let Ok(Some(next)) = following_of(image, tail) {
        roster_kept(before, after, next, tail);
    }
}

/// Whether only the last page of a chain of owners differs, and how.
pub open spec fn last_owners(before: StoreModel, after: StoreModel, tail: u32) -> bool {
    &&& grew(before, after)
    &&& before.load(tail, PageKind::Owners) is Ok
    &&& after.load(tail, PageKind::Owners) is Ok
    &&& forall|p: int|
        #![trigger before.pages[p]]
        0 <= p < before.pages.len() && p != tail && before.pages[p].kind == PageKind::Owners
            ==> after.pages[p] == before.pages[p]
}

/// What changes on the last page changes at the end of the list.
pub proof fn roster_last(
    before: StoreModel,
    after: StoreModel,
    block: u32,
    tail: u32,
) -> (front: Seq<OwnerModel>)
    requires
        last_owners(before, after, tail),
        roster(before, block, tail) is Some,
    ensures
        roster(before, block, tail) == Some(
            front + records(before.load(tail, PageKind::Owners)->Ok_0, before.layout),
        ),
        roster(after, block, tail) == Some(
            front + records(after.load(tail, PageKind::Owners)->Ok_0, after.layout),
        ),
    decreases tail - block,
{
    let image = before.load(block, PageKind::Owners)->Ok_0;
    assert(image == before.pages[block as int]);
    let old_records = records(before.load(tail, PageKind::Owners)->Ok_0, before.layout);
    let new_records = records(after.load(tail, PageKind::Owners)->Ok_0, after.layout);
    if block == tail {
        let front = Seq::<OwnerModel>::empty();
        assert(front + old_records =~= old_records);
        assert(front + new_records =~= new_records);
        front
    } else {
        assert(after.load(block, PageKind::Owners) == before.load(block, PageKind::Owners));
        let next = following_of(image, tail)->Ok_0->Some_0;
        let rest = roster_last(before, after, next, tail);
        let here = records(image, before.layout);
        assert(here + (rest + old_records) =~= (here + rest) + old_records);
        assert(here + (rest + new_records) =~= (here + rest) + new_records);
        here + rest
    }
}

/// A page of owners that is linked behind the last one adds its owners to the list.
pub proof fn roster_extended(
    before: StoreModel,
    after: StoreModel,
    block: u32,
    tail: u32,
    more: u32,
)
    requires
        last_owners(before, after, tail),
        roster(before, block, tail) is Some,
        tail < more,
        more != NO_BLOCK,
        records(after.load(tail, PageKind::Owners)->Ok_0, after.layout) == records(
            before.load(tail, PageKind::Owners)->Ok_0,
            before.layout,
        ),
        after.load(tail, PageKind::Owners)->Ok_0.next() == Ok::<u32, Error>(more),
        after.load(more, PageKind::Owners) is Ok,
    ensures
        roster(after, block, more) == Some(
            roster(before, block, tail)->Some_0 + records(
                after.load(more, PageKind::Owners)->Ok_0,
                after.layout,
            ),
        ),
    decreases tail - block,
{
    let image = before.load(block, PageKind::Owners)->Ok_0;
    assert(image == before.pages[block as int]);
    let added = records(after.load(more, PageKind::Owners)->Ok_0, after.layout);
    if block == tail {
        assert(roster(after, more, more) == Some(added));
    } else {
        assert(after.load(block, PageKind::Owners) == before.load(block, PageKind::Owners));
        let next = following_of(image, tail)->Ok_0->Some_0;
        assert(following_of(image, more) == Ok::<Option<u32>, Error>(Some(next)));
        roster_extended(before, after, next, tail, more);
        let here = records(image, before.layout);
        let rest = roster(before, next, tail)->Some_0;
        assert(here + (rest + added) =~= (here + rest) + added);
    }
}

/// The owners of a page with another link.
pub proof fn records_alike(left: Image, right: Image, layout: HeapLayout)
    requires
        same_body(left, right),
    ensures
        records(right, layout) == records(left, layout),
{
    same_body_owner(left, right, 0, layout);
    assert forall|slot: int| 0 <= slot < left.owner_count()->Ok_0 implies right.owner(
        slot as u16,
        layout,
    ) == #[trigger] left.owner(slot as u16, layout) by {
        same_body_owner(left, right, slot as u16, layout);
    }
    assert(records(right, layout) =~= records(left, layout));
}

/// A change of the last owner changes the last of the list.
#[verifier::rlimit(60)]
#[verifier::spinoff_prover]
pub proof fn last_owner_changed(
    model: StoreModel,
    meta: Image,
    owner: OwnerRef,
    change: OwnerChange,
)
    requires
        owner_changed(model, owner, change).value is Ok,
        all_owners(model, meta) is Some,
        meta.owner_chain() matches Ok((head, tail)) && (head != NO_BLOCK && tail == owner.page),
        model.load(owner.page, PageKind::Owners) matches Ok(image) && (
        image.owner_count() matches Ok(count) && count == owner.slot + 1),
    ensures
        ({
            let after = owner_changed(model, owner, change).model;
            let list = all_owners(model, meta)->Some_0;
            let (publication, live, head) = owner_step(list.last(), change)->Ok_0;
            &&& list.len() > 0
            &&& model.owner_of(owner) == Ok::<OwnerModel, Error>(list.last())
            &&& all_owners(after, meta) == Some(
                list.drop_last().push(
                    OwnerModel { publication, live, data_head: head, ..list.last() },
                ),
            )
            &&& after.load(owner.page, PageKind::Owners) matches Ok(image) && (
            image.owner_count() matches Ok(count) && count == owner.slot + 1)
        }),
{
    let after = owner_changed(model, owner, change).model;
    let (first, tail) = meta.owner_chain()->Ok_0;
    let image = model.load(owner.page, PageKind::Owners)->Ok_0;
    owner_change_reads_back(model, owner, change, owner);
    let changed = after.load(owner.page, PageKind::Owners)->Ok_0;
    let layout = model.layout;
    crate::mutable::page::laws::changed_owner_reads_back(image, owner, change, layout, owner.slot);
    assert(changed.owner_count() == image.owner_count());
    let left = records(image, layout);
    let right = records(changed, layout);
    let before = model.owner_of(owner)->Ok_0;
    let (publication, live, head) = owner_step(before, change)->Ok_0;
    let done = OwnerModel { publication, live, data_head: head, ..before };
    assert forall|slot: int| 0 <= slot < owner.slot implies right[slot] == #[trigger] left[slot] by {
        crate::mutable::page::laws::changed_owner_reads_back(
            image,
            owner,
            change,
            layout,
            slot as u16,
        );
        let other = changed.owner(slot as u16, layout);
        assert(other == image.owner(slot as u16, layout));
    }
    assert(right =~= left.drop_last().push(done));
    let front = roster_last(model, after, first, tail);
    let list = front + left;
    assert(list.last() == before);
    assert(front + right =~= list.drop_last().push(done));
}

} // verus!
