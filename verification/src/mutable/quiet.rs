//! Changes of the relation that make no owner live.

use crate::codec::bytes::{group_bytes, le_u16, u16_bytes};
use crate::identity::{HeapLayout, Incarnation, RootTid};
use crate::mutable::page::laws_state::relocated_bytes;
use crate::mutable::page::model::{relocated, Image};
use crate::mutable::page::{OwnerChange, OwnerRef, PageKind};
use crate::mutable::reader::searchable;
use crate::mutable::store::{stored, StoreModel};
use vstd::prelude::*;

verus! {

broadcast use group_bytes;

/// Whether the record of a slot carries the live mark.
pub open spec fn marked_live(image: Image, slot: int) -> bool {
    &&& image.kind == PageKind::Owners
    &&& 0 <= slot < le_u16(image.bytes, 16)
    &&& 20 + slot * 40 + 40 <= image.bytes.len()
    &&& image.bytes[20 + slot * 40 + 15] == 1
}

/// Whether a slot of a block carries the live mark.
pub open spec fn live_at(model: StoreModel, block: int, slot: int) -> bool {
    0 <= block < model.pages.len() && marked_live(model.pages[block], slot)
}

/// Whether no slot has a live mark that it had not before.
#[verifier::opaque]
pub open spec fn quiet(before: StoreModel, after: StoreModel) -> bool {
    forall|block: int, slot: int| #[trigger]
        live_at(after, block, slot) ==> live_at(before, block, slot)
}

/// An owner that searches find carries the live mark.
pub proof fn searchable_marked(image: Image, slot: u16, layout: HeapLayout)
    requires
        image.owner(slot, layout) matches Ok(owner) && searchable(owner),
    ensures
        marked_live(image, slot as int),
{
}

pub(crate) proof fn quiet_same(model: StoreModel)
    ensures
        quiet(model, model),
{
    reveal(quiet);
}

pub(crate) proof fn quiet_joins(first: StoreModel, second: StoreModel, third: StoreModel)
    requires
        quiet(first, second),
        quiet(second, third),
    ensures
        quiet(first, third),
{
    reveal(quiet);
    assert forall|block: int, slot: int| #[trigger] live_at(third, block, slot) implies live_at(
        first,
        block,
        slot,
    ) by {
        assert(live_at(second, block, slot));
    }
}

pub(crate) proof fn quiet_extended(model: StoreModel)
    ensures
        quiet(model, model.extended()),
{
    reveal(quiet);
}

/// Whether a page has no live mark that another lacks.
pub open spec fn quiet_page(before: Image, after: Image) -> bool {
    after.kind != PageKind::Owners || forall|slot: int| #[trigger]
        marked_live(after, slot) ==> marked_live(before, slot)
}

/// Storing a page without new live marks is quiet.
pub(crate) proof fn quiet_put(model: StoreModel, image: Image)
    requires
        model.has(image.block),
        quiet_page(model.pages[image.block as int], image),
    ensures
        quiet(model, model.put(image)),
{
    reveal(quiet);
    let after = model.put(image);
    assert forall|block: int, slot: int| #[trigger] live_at(after, block, slot) implies live_at(
        model,
        block,
        slot,
    ) by {
        if block == image.block {
            assert(after.pages[block] == stored(image));
            assert(marked_live(image, slot));
        }
    }
}

/// Storing two pages without new live marks is quiet.
pub(crate) proof fn quiet_two(model: StoreModel, first: Image, second: Image)
    requires
        model.has(first.block),
        model.has(second.block),
        first.block != second.block,
        quiet_page(model.pages[first.block as int], first),
        quiet_page(model.pages[second.block as int], second),
    ensures
        quiet(model, model.put(first).put(second)),
{
    quiet_put(model, first);
    quiet_put(model.put(first), second);
    quiet_joins(model, model.put(first), model.put(first).put(second));
}

/// Storing three pages without new live marks is quiet.
pub(crate) proof fn quiet_three(model: StoreModel, first: Image, second: Image, third: Image)
    requires
        model.has(first.block),
        model.has(second.block),
        model.has(third.block),
        first.block != second.block,
        first.block != third.block,
        second.block != third.block,
        quiet_page(model.pages[first.block as int], first),
        quiet_page(model.pages[second.block as int], second),
        quiet_page(model.pages[third.block as int], third),
    ensures
        quiet(model, model.put(first).put(second).put(third)),
{
    quiet_two(model, first, second);
    let middle = model.put(first).put(second);
    quiet_put(middle, third);
    quiet_joins(model, middle, middle.put(third));
}

/// A reserved owner is not live, and reserving it makes no other one live.
pub(crate) proof fn quiet_reserved(
    page: Image,
    incarnation: Incarnation,
    root: RootTid,
    tokens: u32,
    terms: u32,
    payload: Seq<u8>,
)
    requires
        page.appended_owner(incarnation, root, tokens, terms, payload) matches Ok(Some(_)),
    ensures
        quiet_page(page, page.appended_owner(incarnation, root, tokens, terms, payload)->Ok_0->Some_0.1),
{
    let (_, after) = page.appended_owner(incarnation, root, tokens, terms, payload)->Ok_0->Some_0;
    let count = page.owner_count()->Ok_0;
    let moved = relocated(page.bytes, count as nat)->Ok_0;
    relocated_bytes(page.bytes, count as nat);
    let at = 20 + count * 40;
    assert(le_u16(page.bytes, 16) == count);
    assert(after.bytes.subrange(16, 18) =~= u16_bytes((count + 1) as u16));
    crate::codec::bytes::le_u16_of_bytes(after.bytes, 16, (count + 1) as u16);
    assert forall|slot: int| #[trigger] marked_live(after, slot) implies marked_live(page, slot) by {
        let place = 20 + slot * 40 + 15;
        if slot < count {
            assert((place - 20) % 40 == 15) by (nonlinear_arith)
                requires
                    place == 20 + slot * 40 + 15,
            ;
            assert(after.bytes[place] == moved[place]);
            assert(moved[place] == page.bytes[place]);
        } else {
            assert(slot == count);
            assert(after.bytes[place] == 0);
        }
    }
}

/// A change that does not publish makes no owner live.
pub(crate) proof fn quiet_changed(
    page: Image,
    reference: OwnerRef,
    change: OwnerChange,
    layout: HeapLayout,
)
    requires
        page.changed_owner(reference, change, layout) is Ok,
        !(change is Publish),
    ensures
        quiet_page(page, page.changed_owner(reference, change, layout)->Ok_0),
{
    let after = page.changed_owner(reference, change, layout)->Ok_0;
    let at = 20 + reference.slot * 40;
    assert(after.bytes.len() == page.bytes.len());
    assert(after.bytes.subrange(16, 18) =~= page.bytes.subrange(16, 18));
    crate::mutable::page::laws_state::le_equal(after.bytes, 16, page.bytes, 16, 2);
    assert forall|slot: int| #[trigger] marked_live(after, slot) implies marked_live(page, slot) by {
        let place = 20 + slot * 40 + 15;
        if slot == reference.slot {
            assert(after.bytes[place] == 0);
        } else {
            assert(place < at + 14 || place >= at + 28);
            assert(after.bytes[place] == page.bytes[place]);
        }
    }
}

} // verus!
