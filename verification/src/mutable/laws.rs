//! Laws that relate writing owners and reading them back through the store.

use crate::codec::bytes::{group_bytes, le_u16, splice, splice_fields, u32_bytes};
use crate::error::Error;
use crate::identity::{coordinate_error, group_identity, HeapLayout, RootTid};
use crate::mutable::document::{document_entries, TermEntry};
use crate::mutable::page::laws::changed_owner_reads_back;
use crate::mutable::page::laws_state::append_owner_reads_back;
use crate::mutable::page::model::{owner_step, term_bucket, Image};
use crate::mutable::page::{
    OwnerChange, OwnerModel, OwnerRef, PageKind, TermRef, INLINE_BYTES, NO_BLOCK,
};
use crate::mutable::store::{entry_named, following_of, stored, StoreModel};
use crate::mutable::writer::{
    fragment_piece, fragment_stored, fragments_stored, inserted, owner_changed, owner_reserved,
    owners_image, payload_stored, reservation, term_linked, terms_linked, Reservation,
};
use vstd::prelude::*;

verus! {

broadcast use {group_bytes, group_identity};

/// The inline payloads of a page stand where they stood.
pub proof fn owners_check_kept(
    image: Image,
    reference: OwnerRef,
    change: OwnerChange,
    layout: HeapLayout,
    slot: int,
    payload: int,
)
    requires
        image.changed_owner(reference, change, layout) is Ok,
        0 <= slot,
        image.check_owners(slot, payload, layout) is Ok,
    ensures
        image.changed_owner(reference, change, layout)->Ok_0.check_owners(
            slot,
            payload,
            layout,
        ) is Ok,
    decreases image.owner_count()->Ok_0 - slot,
{
    let after = image.changed_owner(reference, change, layout)->Ok_0;
    changed_owner_reads_back(image, reference, change, layout, slot as u16);
    let count = image.owner_count()->Ok_0;
    if slot < count {
        let owner = image.owner(slot as u16, layout)->Ok_0;
        fields_kept(image, reference, change, layout, 52 + slot * 40, slot);
        if owner.inline.len() == 0 {
            owners_check_kept(image, reference, change, layout, slot + 1, payload);
        } else {
            owners_check_kept(
                image,
                reference,
                change,
                layout,
                slot + 1,
                payload + owner.inline.len(),
            );
        }
    } else {
        fields_kept(image, reference, change, layout, 12, 0);
    }
}

/// A change of an owner leaves the header and the places of inline payloads.
pub proof fn fields_kept(
    image: Image,
    reference: OwnerRef,
    change: OwnerChange,
    layout: HeapLayout,
    at: int,
    slot: int,
)
    requires
        image.changed_owner(reference, change, layout) is Ok,
        at == 12 || (slot >= 0 && at == 52 + slot * 40 && at + 2 <= image.bytes.len()),
    ensures
        ({
            let after = image.changed_owner(reference, change, layout)->Ok_0;
            &&& after.bytes.len() == image.bytes.len()
            &&& after.kind == image.kind
            &&& after.block == image.block
            &&& at == 12 ==> after.check_next() == image.check_next()
            &&& at != 12 ==> le_u16(after.bytes, at)
                == le_u16(image.bytes, at)
        }),
{
    let before = image.owner(reference.slot, layout)->Ok_0;
    let (publication, live, head) = owner_step(before, change)->Ok_0;
    let spot = 20 + reference.slot * 40;
    let flags = seq![
        publication.spec_tag(),
        if live {
            1u8
        } else {
            0u8
        },
    ];
    let first = splice(image.bytes, spot + 14, flags);
    splice_fields(image.bytes, spot + 14, flags, at);
    splice_fields(first, spot + 24, u32_bytes(head), at);
}

/// A change of an owner is read back through the store: the slot holds the new
/// publication, liveness and payload head and nothing else of it changes; all
/// other owners read as before.
pub proof fn owner_change_reads_back(
    model: StoreModel,
    owner: OwnerRef,
    change: OwnerChange,
    other: OwnerRef,
)
    requires
        owner_changed(model, owner, change).value is Ok,
    ensures
        ({
            let after = owner_changed(model, owner, change).model;
            let before = model.owner_of(owner)->Ok_0;
            let (publication, live, head) = owner_step(before, change)->Ok_0;
            &&& model.owner_of(owner) is Ok
            &&& after.owner_of(owner) == Ok::<OwnerModel, Error>(
                OwnerModel { publication, live, data_head: head, ..before },
            )
            &&& (other.page, other.slot) != (owner.page, owner.slot) ==> after.owner_of(other)
                == model.owner_of(other)
        }),
{
    let image = model.load(owner.page, PageKind::Owners)->Ok_0;
    let page = image.changed_owner(owner, change, model.layout)->Ok_0;
    let after = owner_changed(model, owner, change).model;
    changed_owner_reads_back(image, owner, change, model.layout, other.slot);
    fields_kept(image, owner, change, model.layout, 12, 0);
    let count = image.owner_count()->Ok_0;
    owners_check_kept(image, owner, change, model.layout, 0, 20 + count * 40);
    let kept = stored(page);
    assert(after.pages[owner.page as int] == kept);
    same_without_flag(page, kept, model.layout, owner.slot);
    same_without_flag(page, kept, model.layout, other.slot);
    if other.page != owner.page {
        assert(after.pages.len() == model.pages.len());
        assert(after.load(other.page, PageKind::Owners) == model.load(
            other.page,
            PageKind::Owners,
        ));
    }
}

/// How a page reads does not depend on whether it is new.
proof fn same_without_flag(page: Image, kept: Image, layout: HeapLayout, slot: u16)
    requires
        kept == stored(page),
        page.kind == PageKind::Owners,
        page.check(layout) is Ok,
    ensures
        kept.check(layout) is Ok,
        kept.owner(slot, layout) == page.owner(slot, layout),
{
    let count = page.owner_count()->Ok_0;
    same_check(page, kept, layout, 0, 20 + count * 40);
}

proof fn same_check(page: Image, kept: Image, layout: HeapLayout, slot: int, payload: int)
    requires
        kept == stored(page),
        page.check_owners(slot, payload, layout) is Ok,
        0 <= slot,
    ensures
        kept.check_owners(slot, payload, layout) is Ok,
    decreases page.owner_count()->Ok_0 - slot,
{
    if slot < page.owner_count()->Ok_0 {
        let owner = page.owner(slot as u16, layout)->Ok_0;
        if owner.inline.len() == 0 {
            same_check(page, kept, layout, slot + 1, payload);
        } else {
            same_check(page, kept, layout, slot + 1, payload + owner.inline.len());
        }
    }
}

/// Publication makes an owner searchable; nothing else of it changes.
pub proof fn publication_makes_searchable(model: StoreModel, owner: OwnerRef)
    requires
        owner_changed(model, owner, OwnerChange::Publish).value is Ok,
    ensures
        ({
            let after = owner_changed(model, owner, OwnerChange::Publish).model;
            &&& model.resolved(owner) == Ok::<Option<RootTid>, Error>(None)
            &&& after.resolved(owner) == Ok::<Option<RootTid>, Error>(
                Some(model.owner_of(owner)->Ok_0.root),
            )
        }),
{
    owner_change_reads_back(model, owner, OwnerChange::Publish, owner);
}

/// Removal makes an owner unsearchable for good: no later change is accepted.
pub proof fn removal_is_final(model: StoreModel, owner: OwnerRef, change: OwnerChange)
    requires
        owner_changed(model, owner, OwnerChange::Remove).value is Ok,
    ensures
        ({
            let after = owner_changed(model, owner, OwnerChange::Remove).model;
            &&& after.resolved(owner) == Ok::<Option<RootTid>, Error>(None)
            &&& owner_changed(after, owner, change).value is Err
        }),
{
    owner_change_reads_back(model, owner, OwnerChange::Remove, owner);
}

/// Whether a page of owners stays through a change, and the metadata page stays
/// the first one.
spec fn page_stays(before: StoreModel, after: StoreModel, meta: Image, p: int) -> bool {
    &&& after.layout == before.layout
    &&& after.pages.len() >= before.pages.len()
    &&& after.pages[p] == before.pages[p]
    &&& meta.block == 0
}

/// Whether a page of owners stands behind the metadata page.
spec fn owners_at(model: StoreModel, meta: Image, p: int) -> bool {
    &&& 0 < p < model.pages.len()
    &&& model.pages[p].kind == PageKind::Owners
    &&& meta.block == 0
}

proof fn fragment_keeps(
    model: StoreModel,
    meta: Image,
    owner: OwnerRef,
    next: u32,
    offset: int,
    piece: Seq<u8>,
    p: int,
)
    requires
        owners_at(model, meta, p),
        fragment_stored(model, meta, owner, next, offset, piece).value is Ok,
    ensures
        page_stays(
            model,
            fragment_stored(model, meta, owner, next, offset, piece).model,
            fragment_stored(model, meta, owner, next, offset, piece).value->Ok_0.1,
            p,
        ),
{
}

proof fn fragments_keep(
    model: StoreModel,
    meta: Image,
    owner: OwnerRef,
    bytes: Seq<u8>,
    index: nat,
    next: u32,
    p: int,
)
    requires
        owners_at(model, meta, p),
        fragments_stored(model, meta, owner, bytes, index, next).value is Ok,
    ensures
        page_stays(
            model,
            fragments_stored(model, meta, owner, bytes, index, next).model,
            fragments_stored(model, meta, owner, bytes, index, next).value->Ok_0.1,
            p,
        ),
    decreases index,
{
    if index > 0 {
        let last = (index - 1) as nat;
        let piece = fragment_piece(bytes, last as int);
        let step = fragment_stored(model, meta, owner, next, last as int * 8132, piece);
        fragment_keeps(model, meta, owner, next, last as int * 8132, piece, p);
        let (block, spent) = step.value->Ok_0;
        fragments_keep(step.model, spent, owner, bytes, last, block, p);
    }
}

/// A found term stands on a dictionary page of the store.
proof fn found_loaded(
    model: StoreModel,
    text: Seq<u8>,
    block: u32,
    tail: u32,
    found: Option<(Image, TermRef)>,
)
    requires
        found matches Some((image, _)) ==> model.has(image.block) && model.pages[
            image.block as int
        ].kind == PageKind::Dictionary,
    ensures
        model.find_from(text, block, tail, found) matches Ok(Some((image, _))) ==> model.has(
            image.block,
        ) && model.pages[image.block as int].kind == PageKind::Dictionary,
    decreases tail - block,
{
    if let Ok(image) = model.load(block, PageKind::Dictionary) {
        if let Ok(outcomes) = image.terms() {
            if let Ok(reference) = entry_named(outcomes, text, found is Some) {
                if let Ok(Some(next)) = following_of(image, tail) {
                    if block < next <= tail {
                        let more = match reference {
                            Some(reference) => Some((image, reference)),
                            None => found,
                        };
                        found_loaded(model, text, next, tail, more);
                    }
                }
            }
        }
    }
}

proof fn term_keeps(model: StoreModel, meta: Image, text: Seq<u8>, owner: OwnerRef, p: int)
    requires
        owners_at(model, meta, p),
        term_linked(model, meta, text, owner).value is Ok,
    ensures
        page_stays(
            model,
            term_linked(model, meta, text, owner).model,
            term_linked(model, meta, text, owner).value->Ok_0,
            p,
        ),
{
    if let Ok((head, tail)) = meta.bucket(term_bucket(text)) {
        if head != NO_BLOCK {
            found_loaded(model, text, head, tail, None);
        }
    }
}

proof fn terms_keep(
    model: StoreModel,
    meta: Image,
    entries: Seq<TermEntry>,
    owner: OwnerRef,
    p: int,
)
    requires
        owners_at(model, meta, p),
        terms_linked(model, meta, entries, owner).value is Ok,
    ensures
        page_stays(
            model,
            terms_linked(model, meta, entries, owner).model,
            terms_linked(model, meta, entries, owner).value->Ok_0,
            p,
        ),
    decreases entries.len(),
{
    if entries.len() > 0 {
        let step = term_linked(model, meta, entries[0].term, owner);
        term_keeps(model, meta, entries[0].term, owner, p);
        terms_keep(step.model, step.value->Ok_0, entries.drop_first(), owner, p);
    }
}

/// A reserved slot holds the root that it was reserved for.
proof fn reservation_reads_back(model: StoreModel, meta: Image, request: Reservation)
    requires
        owner_reserved(model, meta, request).value is Ok,
        meta.block == 0,
        model.has(0),
        model.pages[0].kind == PageKind::Meta,
        coordinate_error(request.root.block(), request.root.offset(), model.layout) is None,
    ensures
        ({
            let after = owner_reserved(model, meta, request);
            let (owner, spent) = after.value->Ok_0;
            &&& owners_at(after.model, spent, owner.page as int)
            &&& after.model.layout == model.layout
            &&& after.model.pages[owner.page as int].owner(owner.slot, model.layout) matches Ok(
                found,
            ) && found.root == request.root
        }),
{
    let (incarnation, taken) = meta.with_reserved()->Ok_0;
    let (head, tail) = taken.owner_chain()->Ok_0;
    let after = owner_reserved(model, meta, request);
    let (owner, spent) = after.value->Ok_0;
    assert(incarnation.get() != 0);
    if head == NO_BLOCK {
        let block = model.pages.len() as u32;
        let fresh = owners_image(block)->Ok_0;
        append_owner_reads_back(
            fresh,
            incarnation,
            request.root,
            request.tokens,
            request.terms,
            request.payload,
            model.layout,
        );
    } else {
        let last = model.load(tail, PageKind::Owners)->Ok_0;
        if last.appended_owner(
            incarnation,
            request.root,
            request.tokens,
            request.terms,
            request.payload,
        )->Ok_0 is Some {
            append_owner_reads_back(
                last,
                incarnation,
                request.root,
                request.tokens,
                request.terms,
                request.payload,
                model.layout,
            );
        } else {
            let block = model.pages.len() as u32;
            let fresh = owners_image(block)->Ok_0;
            append_owner_reads_back(
                fresh,
                incarnation,
                request.root,
                request.tokens,
                request.terms,
                request.payload,
                model.layout,
            );
        }
    }
}

/// The owner of an inserted document leads to the root that it was inserted for.
pub proof fn insertion_reads_back(
    model: StoreModel,
    root: RootTid,
    bytes: Seq<u8>,
)
    requires
        inserted(model, root, bytes).value is Ok,
        coordinate_error(root.block(), root.offset(), model.layout) is None,
    ensures
        ({
            let after = inserted(model, root, bytes);
            after.model.resolved(after.value->Ok_0) == Ok::<
                Option<RootTid>,
                Error,
            >(Some(root))
        }),
{
    let meta = model.load(0, PageKind::Meta)->Ok_0;
    let request = reservation(root, bytes);
    let reserved = owner_reserved(model, meta, request);
    reservation_reads_back(model, meta, request);
    let (owner, first) = reserved.value->Ok_0;
    let p = owner.page as int;
    let stored = payload_stored(reserved.model, first, owner, bytes);
    let (head, second) = stored.value->Ok_0;
    if bytes.len() > INLINE_BYTES {
        fragments_keep(
            reserved.model,
            first,
            owner,
            bytes,
            ((bytes.len() + 8131) / 8132) as nat,
            NO_BLOCK,
            p,
        );
    }
    let change = OwnerChange::PayloadReady(head);
    let ready = owner_changed(stored.model, owner, change);
    owner_change_reads_back(stored.model, owner, change, owner);
    assert(stored.model.owner_of(owner)->Ok_0.root == root);
    let third = ready.model;
    assert(owners_at(third, second, p));
    let linked = terms_linked(third, second, document_entries(bytes), owner);
    terms_keep(third, second, document_entries(bytes), owner, p);
    assert(linked.model.owner_of(owner) == third.owner_of(owner)) by {
        assert(linked.model.pages[p] == third.pages[p]);
    }
    publication_makes_searchable(linked.model, owner);
}

} // verus!
