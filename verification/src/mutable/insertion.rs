//! What an insertion leaves for searches: every scan that found its way before
//! still does, and the new document is found under each of its terms.

use crate::callbacks::RootItem;
use crate::candidate::CandidatePlan;
use crate::codec::bytes::{group_bytes, le_u16, le_u64};
use crate::error::Error;
use crate::identity::{coordinate_error, group_identity, RootTid};
use crate::mutable::compact::owners_kept;
use crate::mutable::document::{document_entries, validated, validated_terms_differ, TermEntry};
use crate::mutable::laws::{owner_change_reads_back, publication_makes_searchable};
use crate::mutable::linking::{chain_kept, grew, pieces_kept, shelf_kept};
use crate::mutable::linking_terms::{
    follows_all, link_lists, linked_list, linking_is_orderly, orderly,
};
use crate::mutable::listing::{
    entry_of, list_alike, list_of_one, list_resolves, list_walk, lists_join, pages_fit,
    references_of, term_shelf, term_walked,
};
use crate::mutable::page::laws_link::{
    free_head_set, incarnation_taken, next_set, owner_chain_set, same_body, same_body_owner,
    same_metadata,
};
use crate::mutable::page::laws_state::{append_owner_keeps_others, append_owner_reads_back};
use crate::mutable::page::model::{term_bucket, Image, BUCKETS, CAPACITY};
use crate::mutable::page::{OwnerChange, OwnerModel, OwnerRef, PageKind, INLINE_BYTES, NO_BLOCK};
use crate::mutable::reader::searchable;
use crate::mutable::roster::{
    all_owners, last_owner_changed, picked_push, records, records_alike, roster, roster_extended,
    roster_kept, roster_last, universe_walked,
};
use crate::mutable::store::{stored, StoreModel};
use crate::mutable::walk::Walk;
use crate::mutable::writer::{
    first_owner, fragment_piece, fragment_stored, fragments_stored, inserted, owner_changed,
    owner_reserved, owners_image, payload_stored, reservation, term_linked, terms_linked, Reservation,
};
use crate::text::text_bytes;
use vstd::prelude::*;
use vstd::utf8::valid_utf8;

verus! {

broadcast use {group_bytes, group_identity};

/// Whether nothing that leads from terms to references changed.
pub open spec fn lists_kept(before: StoreModel, meta: Image, after: StoreModel, spent: Image) -> bool {
    &&& grew(before, after)
    &&& after.pages.len() <= NO_BLOCK
    &&& forall|k: int| 0 <= k < BUCKETS ==> #[trigger] spent.bucket(k) == meta.bucket(k)
    &&& forall|p: int|
        #![trigger before.pages[p]]
        0 <= p < before.pages.len() && (before.pages[p].kind == PageKind::Dictionary
            || before.pages[p].holds_postings()) ==> after.pages[p] == before.pages[p]
}

/// Terms then list what they listed.
pub proof fn lists_stay(
    before: StoreModel,
    meta: Image,
    after: StoreModel,
    spent: Image,
    text: Seq<u8>,
)
    requires
        lists_kept(before, meta, after, spent),
        references_of(before, meta, text) is Some,
    ensures
        references_of(after, spent, text) == references_of(before, meta, text),
{
    let bucket = term_bucket(text);
    assert(spent.bucket(bucket) == meta.bucket(bucket));
    let (head, tail) = meta.bucket(bucket)->Ok_0;
    let entries = term_shelf(before, meta, text)->Some_0;
    if head != NO_BLOCK {
        shelf_kept(before, after, head, tail, bucket);
    }
    if let Some(entry) = entry_of(entries, text) {
        if entry.head != NO_BLOCK {
            chain_kept(
                before,
                after,
                entry.reference,
                entry.head,
                entry.tail,
                before.pages.len() as u32,
                after.pages.len() as u32,
            );
        }
    }
}

/// Storing a fragment changes neither owners nor lists.
#[verifier::rlimit(40)]
pub(crate) proof fn fragment_is_apart(
    model: StoreModel,
    meta: Image,
    owner: OwnerRef,
    next: u32,
    offset: int,
    piece: Seq<u8>,
)
    requires
        orderly(model, meta),
        fragment_stored(model, meta, owner, next, offset, piece).value is Ok,
    ensures
        ({
            let step = fragment_stored(model, meta, owner, next, offset, piece);
            let spent = step.value->Ok_0.1;
            &&& orderly(step.model, spent)
            &&& lists_kept(model, meta, step.model, spent)
            &&& owners_kept(model, step.model)
            &&& spent.owner_chain() == meta.owner_chain()
        }),
{
    let step = fragment_stored(model, meta, owner, next, offset, piece);
    let (block, spent) = step.value->Ok_0;
    let after = step.model;
    if meta.free_head()->Ok_0 != NO_BLOCK {
        let page = model.load(block, PageKind::Free)->Ok_0;
        free_head_set(meta, page.next()->Ok_0, model.layout);
    }
    assert(owner.code().len() == 16);
    assert(after.pages[block as int].bytes.len() <= CAPACITY);
    assert(pages_fit(after)) by {
        assert forall|p: int|
            0 <= p < after.pages.len() && (#[trigger] after.pages[p]).kind
                != PageKind::Meta implies after.pages[p].bytes.len() <= CAPACITY by {
            if p < model.pages.len() {
                assert(model.pages[p].kind != PageKind::Meta ==> model.pages[p].bytes.len() <= CAPACITY);
            }
        }
    }
    assert forall|p: int|
        0 <= p < after.pages.len() && (#[trigger] after.pages[p]).kind
            == PageKind::Dictionary implies after.pages[p].bytes.len() > 16 by {
        if p < model.pages.len() {
            assert(model.pages[p].kind == PageKind::Dictionary ==> model.pages[p].bytes.len() > 16);
        }
    }
}

proof fn lists_kept_joins(
    first: StoreModel,
    one: Image,
    second: StoreModel,
    two: Image,
    third: StoreModel,
    three: Image,
)
    requires
        lists_kept(first, one, second, two),
        lists_kept(second, two, third, three),
    ensures
        lists_kept(first, one, third, three),
{
    assert forall|k: int| 0 <= k < BUCKETS implies #[trigger] three.bucket(k) == one.bucket(k) by {
        assert(two.bucket(k) == one.bucket(k));
    }
    assert forall|p: int|
        #![trigger first.pages[p]]
        0 <= p < first.pages.len() && (first.pages[p].kind == PageKind::Dictionary
            || first.pages[p].holds_postings()) implies third.pages[p] == first.pages[p] by {
        assert(second.pages[p] == first.pages[p]);
    }
}

pub(crate) proof fn fragments_are_apart(
    model: StoreModel,
    meta: Image,
    owner: OwnerRef,
    bytes: Seq<u8>,
    index: nat,
    next: u32,
)
    requires
        orderly(model, meta),
        fragments_stored(model, meta, owner, bytes, index, next).value is Ok,
    ensures
        ({
            let step = fragments_stored(model, meta, owner, bytes, index, next);
            let spent = step.value->Ok_0.1;
            &&& orderly(step.model, spent)
            &&& lists_kept(model, meta, step.model, spent)
            &&& owners_kept(model, step.model)
            &&& spent.owner_chain() == meta.owner_chain()
        }),
    decreases index,
{
    if index > 0 {
        let last = (index - 1) as nat;
        let piece = fragment_piece(bytes, last as int);
        let step = fragment_stored(model, meta, owner, next, last as int * 8132, piece);
        fragment_is_apart(model, meta, owner, next, last as int * 8132, piece);
        let (block, spent) = step.value->Ok_0;
        fragments_are_apart(step.model, spent, owner, bytes, last, block);
        let end = fragments_stored(step.model, spent, owner, bytes, last, block);
        lists_kept_joins(
            model,
            meta,
            step.model,
            spent,
            end.model,
            end.value->Ok_0.1,
        );
        crate::mutable::compact::owners_kept_joins(model, step.model, end.model);
    }
}

/// Changing an owner leaves the relation orderly and its lists as they were.
pub(crate) proof fn change_is_apart(model: StoreModel, meta: Image, owner: OwnerRef, change: OwnerChange)
    requires
        orderly(model, meta),
        owner_changed(model, owner, change).value is Ok,
    ensures
        ({
            let after = owner_changed(model, owner, change).model;
            &&& orderly(after, meta)
            &&& lists_kept(model, meta, after, meta)
            &&& after.pages.len() == model.pages.len()
        }),
{
    let after = owner_changed(model, owner, change).model;
    let image = model.load(owner.page, PageKind::Owners)->Ok_0;
    assert(image == model.pages[owner.page as int]);
    assert(pages_fit(after)) by {
        assert forall|p: int|
            0 <= p < after.pages.len() && (#[trigger] after.pages[p]).kind
                != PageKind::Meta implies after.pages[p].bytes.len() <= CAPACITY by {
            assert(model.pages[p].kind != PageKind::Meta ==> model.pages[p].bytes.len() <= CAPACITY);
        }
    }
    assert forall|p: int|
        0 <= p < after.pages.len() && (#[trigger] after.pages[p]).kind
            == PageKind::Dictionary implies after.pages[p].bytes.len() > 16 by {
        assert(model.pages[p].kind == PageKind::Dictionary ==> model.pages[p].bytes.len() > 16);
    }
}

/// Whether an entry of a document names a term.
pub open spec fn mentions(entries: Seq<TermEntry>, text: Seq<u8>) -> bool {
    exists|i: int| 0 <= i < entries.len() && (#[trigger] entries[i]).term == text
}

/// Pages that two changes keep, both keep.
pub(crate) proof fn pieces_kept_joins(first: StoreModel, second: StoreModel, third: StoreModel)
    requires
        pieces_kept(first, second),
        pieces_kept(second, third),
    ensures
        pieces_kept(first, third),
{
    assert forall|i: int|
        0 <= i < first.pages.len() && first.pages[i].kind
            == PageKind::Fragment implies #[trigger] third.pages[i] == first.pages[i] by {
        assert(second.pages[i] == first.pages[i]);
    }
}

/// Linking all terms of a document adds its owner to what each of them lists,
/// and leaves what other terms list.
#[verifier::rlimit(80)]
#[verifier::spinoff_prover]
pub(crate) proof fn links_list(
    model: StoreModel,
    meta: Image,
    entries: Seq<TermEntry>,
    owner: OwnerRef,
    other: Seq<u8>,
)
    requires
        orderly(model, meta),
        terms_linked(model, meta, entries, owner).value is Ok,
        owner.incarnation.get() != 0,
        forall|i: int| 0 <= i < entries.len() ==> valid_utf8((#[trigger] entries[i]).term),
        forall|i: int, j: int|
            0 <= i < j < entries.len() ==> (#[trigger] entries[i]).term != (
            #[trigger] entries[j]).term,
    ensures
        ({
            let after = terms_linked(model, meta, entries, owner);
            let spent = after.value->Ok_0;
            &&& orderly(after.model, spent)
            &&& owners_kept(model, after.model)
            &&& pieces_kept(model, after.model)
            &&& spent.owner_chain() == meta.owner_chain()
            &&& references_of(model, meta, other) is Some && (mentions(entries, other)
                ==> follows_all(owner, references_of(model, meta, other)->Some_0))
                ==> references_of(after.model, spent, other) == Some(
                linked_list(
                    references_of(model, meta, other)->Some_0,
                    mentions(entries, other),
                    owner,
                ),
            )
        }),
    decreases entries.len(),
{
    if entries.len() > 0 {
        let text = entries[0].term;
        let rest = entries.drop_first();
        let step = term_linked(model, meta, text, owner);
        assert(mentions(entries, other) <==> text == other || mentions(rest, other)) by {
            if mentions(rest, other) {
                let i = choose|i: int| 0 <= i < rest.len() && (#[trigger] rest[i]).term == other;
                assert(entries[i + 1] == rest[i]);
            }
            if mentions(entries, other) && text != other {
                let i = choose|i: int|
                    0 <= i < entries.len() && (#[trigger] entries[i]).term == other;
                assert(rest[i - 1] == entries[i]);
            }
        }
        if text == other && mentions(rest, other) {
            let i = choose|i: int| 0 <= i < rest.len() && (#[trigger] rest[i]).term == other;
            assert(entries[0].term != entries[i + 1].term);
        }
        linking_is_orderly(model, meta, text, owner);
        if references_of(model, meta, other) is Some && (mentions(entries, other) ==> follows_all(
            owner,
            references_of(model, meta, other)->Some_0,
        )) {
            link_lists(model, meta, text, owner, other);
        }
        assert forall|i: int| 0 <= i < rest.len() implies valid_utf8((#[trigger] rest[i]).term) by {
            assert(rest[i] == entries[i + 1]);
        }
        assert forall|i: int, j: int| 0 <= i < j < rest.len() implies (#[trigger] rest[i]).term != (
        #[trigger] rest[j]).term by {
            assert(rest[i] == entries[i + 1] && rest[j] == entries[j + 1]);
        }
        links_list(step.model, step.value->Ok_0, rest, owner, other);
        let end = terms_linked(step.model, step.value->Ok_0, rest, owner);
        crate::mutable::compact::owners_kept_joins(model, step.model, end.model);
        pieces_kept_joins(model, step.model, end.model);
    } else {
        assert(!mentions(entries, other));
    }
}

/// Whether every owner stands no further than the end of the owner chain, and
/// has an incarnation that was handed out.
pub open spec fn handed_out(model: StoreModel, meta: Image) -> bool {
    forall|p: int, slot: u16|
        #![trigger model.pages[p].owner(slot, model.layout)]
        0 <= p < model.pages.len() && model.pages[p].owner(slot, model.layout) is Ok ==> {
            &&& meta.owner_chain() matches Ok((head, tail)) && (head != NO_BLOCK ==> p <= tail)
            &&& model.pages[p].owner(slot, model.layout)->Ok_0.reference.incarnation.get() < le_u64(
                meta.bytes,
                32,
            )
        }
}

/// Whether an owner that was just reserved comes behind all others, which stay
/// as they were.
pub open spec fn comes_last(before: StoreModel, after: StoreModel, owner: OwnerRef) -> bool {
    forall|r: OwnerRef|
        (#[trigger] before.resolved(r)) is Ok ==> {
            &&& after.resolved(r) == before.resolved(r)
            &&& owner.follows(r)
        }
}

/// What a reservation gives.
pub open spec fn reserved_well(
    model: StoreModel,
    meta: Image,
    request: Reservation,
) -> bool {
    let after = owner_reserved(model, meta, request);
    let (owner, spent) = after.value->Ok_0;
    &&& orderly(after.model, spent)
    &&& lists_kept(model, meta, after.model, spent)
    &&& owner.incarnation.get() != 0
    &&& spent.owner_chain() matches Ok((head, tail)) && (head != NO_BLOCK && tail == owner.page)
    &&& after.model.pages[owner.page as int].owner_count() == Ok::<u16, Error>(
        (owner.slot + 1) as u16,
    )
    &&& after.model.pages[owner.page as int].owner(owner.slot, model.layout) matches Ok(made) && (
    made.root == request.root && made.reference == owner && !made.live && made.tokens
        == request.tokens && made.terms == request.terms && made.data_bytes
        == request.payload.len() as u32 && made.inline == (if request.payload.len()
        <= INLINE_BYTES {
        request.payload
    } else {
        Seq::empty()
    }))
}

/// A reserved slot is the last one, and leaves the lists as they were.
#[verifier::rlimit(60)]
#[verifier::spinoff_prover]
pub(crate) proof fn reservation_is_apart(model: StoreModel, meta: Image, request: Reservation)
    requires
        orderly(model, meta),
        owner_reserved(model, meta, request).value is Ok,
        coordinate_error(request.root.block(), request.root.offset(), model.layout) is None,
    ensures
        reserved_well(model, meta, request),
{
    let layout = model.layout;
    let (incarnation, taken) = meta.with_reserved()->Ok_0;
    incarnation_taken(meta, layout);
    let (head, tail) = taken.owner_chain()->Ok_0;
    let change = owner_reserved(model, meta, request);
    let after = change.model;
    let (owner, spent) = change.value->Ok_0;
    let block = model.pages.len() as u32;
    let fresh = owners_image(block)->Ok_0;
    let last = model.load(tail, PageKind::Owners)->Ok_0;
    let added = last.appended_owner(
        incarnation,
        request.root,
        request.tokens,
        request.terms,
        request.payload,
    )->Ok_0;
    if head != NO_BLOCK {
        assert(last == model.pages[tail as int]);
    }
    if head != NO_BLOCK && added is Some {
        append_owner_reads_back(
            last,
            incarnation,
            request.root,
            request.tokens,
            request.terms,
            request.payload,
            layout,
        );
        let page = added->Some_0.1;
        same_body_owner(page, stored(page), owner.slot, layout);
        assert(after.pages[owner.page as int] == stored(page));
        appended_fits(last, incarnation, request);
    } else {
        append_owner_reads_back(
            fresh,
            incarnation,
            request.root,
            request.tokens,
            request.terms,
            request.payload,
            layout,
        );
        let page = first_owner(block, incarnation, request)->Ok_0.1;
        same_body_owner(page, stored(page), owner.slot, layout);
        assert(after.pages[owner.page as int] == stored(page));
        appended_fits(fresh, incarnation, request);
        if head == NO_BLOCK {
            owner_chain_set(taken, block, block, layout);
        } else {
            next_set(last, block, layout);
            owner_chain_set(taken, head, block, layout);
        }
    }
    assert(pages_fit(after)) by {
        assert forall|p: int|
            0 <= p < after.pages.len() && (#[trigger] after.pages[p]).kind
                != PageKind::Meta implies after.pages[p].bytes.len() <= CAPACITY by {
            if p < model.pages.len() {
                assert(model.pages[p].kind != PageKind::Meta ==> model.pages[p].bytes.len() <= CAPACITY);
            }
        }
    }
    assert forall|p: int|
        0 <= p < after.pages.len() && (#[trigger] after.pages[p]).kind
            == PageKind::Dictionary implies after.pages[p].bytes.len() > 16 by {
        if p < model.pages.len() {
            assert(model.pages[p].kind == PageKind::Dictionary ==> model.pages[p].bytes.len() > 16);
        }
    }
    assert forall|k: int| 0 <= k < BUCKETS implies #[trigger] spent.bucket(k) == meta.bucket(k) by {
        assert(taken.bucket(k) == meta.bucket(k));
    }
}

/// An owner that is added to a page fits into it.
proof fn appended_fits(image: Image, incarnation: crate::identity::Incarnation, request: Reservation)
    requires
        image.appended_owner(
            incarnation,
            request.root,
            request.tokens,
            request.terms,
            request.payload,
        ) matches Ok(Some(_)),
    ensures
        image.appended_owner(
            incarnation,
            request.root,
            request.tokens,
            request.terms,
            request.payload,
        )->Ok_0->Some_0.1.bytes.len() <= CAPACITY,
{
    let count = image.owner_count()->Ok_0;
    crate::mutable::page::laws_state::relocated_bytes(image.bytes, count as nat);
}

/// Owners that were there before a reservation stay, and the new one follows them.
#[verifier::rlimit(60)]
#[verifier::spinoff_prover]
proof fn reservation_comes_last(model: StoreModel, meta: Image, request: Reservation)
    requires
        orderly(model, meta),
        handed_out(model, meta),
        owner_reserved(model, meta, request).value is Ok,
        coordinate_error(request.root.block(), request.root.offset(), model.layout) is None,
        ({
            let after = owner_reserved(model, meta, request);
            after.model.load(after.value->Ok_0.0.page, PageKind::Owners) is Ok
        }),
    ensures
        comes_last(
            model,
            owner_reserved(model, meta, request).model,
            owner_reserved(model, meta, request).value->Ok_0.0,
        ),
{
    let layout = model.layout;
    let (incarnation, taken) = meta.with_reserved()->Ok_0;
    incarnation_taken(meta, layout);
    let (head, tail) = taken.owner_chain()->Ok_0;
    let change = owner_reserved(model, meta, request);
    let after = change.model;
    let (owner, spent) = change.value->Ok_0;
    let block = model.pages.len() as u32;
    let last = model.load(tail, PageKind::Owners)->Ok_0;
    let added = last.appended_owner(
        incarnation,
        request.root,
        request.tokens,
        request.terms,
        request.payload,
    )->Ok_0;
    if head != NO_BLOCK && added is None {
        next_set(last, block, layout);
    }
    assert(owner.incarnation == incarnation);
    assert forall|r: OwnerRef| (#[trigger] model.resolved(r)) is Ok implies {
        &&& after.resolved(r) == model.resolved(r)
        &&& owner.follows(r)
    } by {
        let image = model.load(r.page, PageKind::Owners)->Ok_0;
        assert(image == model.pages[r.page as int]);
        assert(model.pages[r.page as int].owner(r.slot, model.layout) is Ok);
        if head != NO_BLOCK && r.page == tail {
            if let Some((_, page)) = added {
                append_owner_keeps_others(
                    last,
                    incarnation,
                    request.root,
                    request.tokens,
                    request.terms,
                    request.payload,
                    layout,
                    r.slot,
                );
                same_body_owner(page, stored(page), r.slot, layout);
                assert(after.pages[tail as int] == stored(page));
            } else {
                let linked = last.with_next(block)->Ok_0;
                same_body_owner(last, linked, r.slot, layout);
                same_body_owner(linked, stored(linked), r.slot, layout);
                assert(same_body(linked, stored(linked)));
                crate::mutable::page::laws_link::link_keeps(linked, stored(linked), layout);
                assert(after.pages[tail as int] == stored(linked));
            }
        } else {
            assert(after.pages[r.page as int] == model.pages[r.page as int]);
        }
    }
}

/// A reserved slot is the last of all owners.
#[verifier::rlimit(60)]
#[verifier::spinoff_prover]
proof fn reservation_listed(model: StoreModel, meta: Image, request: Reservation)
    requires
        orderly(model, meta),
        owner_reserved(model, meta, request).value is Ok,
        coordinate_error(request.root.block(), request.root.offset(), model.layout) is None,
        ({
            let after = owner_reserved(model, meta, request);
            after.model.load(after.value->Ok_0.0.page, PageKind::Owners) is Ok
        }),
        reserved_well(model, meta, request),
        all_owners(model, meta) is Some,
    ensures
        ({
            let after = owner_reserved(model, meta, request);
            let (owner, spent) = after.value->Ok_0;
            all_owners(after.model, spent) == Some(
                all_owners(model, meta)->Some_0.push(
                    after.model.pages[owner.page as int].owner(owner.slot, model.layout)->Ok_0,
                ),
            )
        }),
{
    let layout = model.layout;
    let (incarnation, taken) = meta.with_reserved()->Ok_0;
    incarnation_taken(meta, layout);
    let (head, tail) = taken.owner_chain()->Ok_0;
    let change = owner_reserved(model, meta, request);
    let after = change.model;
    let (owner, spent) = change.value->Ok_0;
    let block = model.pages.len() as u32;
    let fresh = owners_image(block)->Ok_0;
    let last = model.load(tail, PageKind::Owners)->Ok_0;
    let added = last.appended_owner(
        incarnation,
        request.root,
        request.tokens,
        request.terms,
        request.payload,
    )->Ok_0;
    let made = after.pages[owner.page as int].owner(owner.slot, layout)->Ok_0;
    if head != NO_BLOCK && added is Some {
        let page = added->Some_0.1;
        assert(last == model.pages[tail as int]);
        assert(after.pages[owner.page as int] == stored(page));
        let front = roster_last(model, after, head, tail);
        let left = records(last, layout);
        let right = records(stored(page), layout);
        let count = last.owner_count()->Ok_0;
        crate::mutable::roster::owners_sound(last, 0, 20 + count * 40, layout);
        assert forall|slot: int| 0 <= slot < count implies #[trigger] right[slot] == left[slot] by {
            assert(last.owner(slot as u16, layout) is Ok);
            append_owner_keeps_others(
                last,
                incarnation,
                request.root,
                request.tokens,
                request.terms,
                request.payload,
                layout,
                slot as u16,
            );
            same_body_owner(page, stored(page), slot as u16, layout);
        }
        assert(right =~= left.push(made));
        assert(front + left.push(made) =~= (front + left).push(made));
    } else {
        let page = first_owner(block, incarnation, request)->Ok_0.1;
        assert(after.pages[block as int] == stored(page));
        assert(fresh.owner_count() == Ok::<u16, Error>(0)) by {
            reveal(le_u16);
            assert(fresh.bytes.len() == 20);
            assert(fresh.bytes[16] == 0 && fresh.bytes[17] == 0 && fresh.bytes[18] == 0
                && fresh.bytes[19] == 0);
        }
        assert(owner.slot == 0);
        assert(records(stored(page), layout) =~= seq![made]);
        if head == NO_BLOCK {
            owner_chain_set(taken, block, block, layout);
            assert(roster(after, block, block) == Some(seq![made]));
            assert(Seq::<OwnerModel>::empty().push(made) =~= seq![made]);
        } else {
            owner_chain_set(taken, head, block, layout);
            assert(last == model.pages[tail as int]);
            let linked = last.with_next(block)->Ok_0;
            next_set(last, block, layout);
            assert(same_body(linked, stored(linked)));
            crate::mutable::page::laws_link::link_keeps(linked, stored(linked), layout);
            assert(after.pages[tail as int] == stored(linked));
            records_alike(last, linked, layout);
            records_alike(linked, stored(linked), layout);
            roster_extended(model, after, head, tail, block);
            let list = roster(model, head, tail)->Some_0;
            assert(list + seq![made] =~= list.push(made));
        }
    }
}

/// Whether a relation can be searched and written: its metadata is sound, its
/// pages fit, no dictionary page is empty, and owners stand on the owner chain
/// in the order of their incarnations.
pub open spec fn consistent(model: StoreModel) -> bool {
    model.load(0, PageKind::Meta) matches Ok(meta) && (orderly(model, meta) && handed_out(
        model,
        meta,
    ))
}

/// Whether a term lists references, and each of them leads to an owner.
pub open spec fn leads_on(model: StoreModel, text: Seq<u8>) -> bool {
    references_of(model, model.pages[0], text) matches Some(list) && (forall|i: int|
        0 <= i < list.len() ==> model.resolved(#[trigger] list[i]) is Ok)
}

/// What an insertion leaves: the owner that it made leads to the root, other
/// owners to what they led to, and the lists of terms end with the new owner
/// where the document mentions them.
pub open spec fn traced(
    model: StoreModel,
    after: StoreModel,
    owner: OwnerRef,
    root: RootTid,
    entries: Seq<TermEntry>,
    text: Seq<u8>,
) -> bool {
    let meta = model.pages[0];
    let spent = after.pages[0];
    &&& after.load(0, PageKind::Meta) == Ok::<Image, Error>(spent)
    &&& orderly(after, spent)
    &&& leads_on(model, text) ==> references_of(after, spent, text) == Some(
        linked_list(references_of(model, meta, text)->Some_0, mentions(entries, text), owner),
    )
    &&& after.resolved(owner) == Ok::<Option<RootTid>, Error>(Some(root))
    &&& forall|r: OwnerRef|
        (#[trigger] model.resolved(r)) is Ok ==> after.resolved(r) == model.resolved(r)
    &&& all_owners(model, meta) matches Some(list) ==> (all_owners(after, spent) matches Some(more)
        && (more.len() == list.len() + 1 && more.drop_last() == list && more.last().root == root
        && searchable(more.last())))
}

/// An insertion through all its steps.
#[verifier::rlimit(60)]
#[verifier::spinoff_prover]
proof fn insertion_traced(model: StoreModel, root: RootTid, bytes: Seq<u8>, text: Seq<u8>)
    requires
        consistent(model),
        inserted(model, root, bytes).value is Ok,
        coordinate_error(root.block(), root.offset(), model.layout) is None,
        validated(bytes) is Ok,
    ensures
        traced(
            model,
            inserted(model, root, bytes).model,
            inserted(model, root, bytes).value->Ok_0,
            root,
            document_entries(bytes),
            text,
        ),
{
    let meta = model.load(0, PageKind::Meta)->Ok_0;
    assert(meta == model.pages[0]);
    let layout = model.layout;
    let entries = document_entries(bytes);
    validated_terms_differ(bytes);
    let list = references_of(model, meta, text)->Some_0;
    let request = reservation(root, bytes);
    let reserved = owner_reserved(model, meta, request);
    let (owner, first) = reserved.value->Ok_0;
    let page = owner.page as int;
    reservation_is_apart(model, meta, request);
    let one = reserved.model;
    if leads_on(model, text) {
        lists_stay(model, meta, one, first, text);
    }
    let stage = payload_stored(one, first, owner, bytes);
    let (head, second) = stage.value->Ok_0;
    let two = stage.model;
    if bytes.len() > INLINE_BYTES {
        fragments_are_apart(
            one,
            first,
            owner,
            bytes,
            ((bytes.len() + 8131) / 8132) as nat,
            NO_BLOCK,
        );
    }
    assert(orderly(two, second) && lists_kept(one, first, two, second) && owners_kept(one, two)
        && second.owner_chain() == first.owner_chain());
    if leads_on(model, text) {
        lists_stay(one, first, two, second, text);
    }
    let change = OwnerChange::PayloadReady(head);
    let ready = owner_changed(two, owner, change);
    let three = ready.model;
    assert(one.pages[page].kind == PageKind::Owners);
    assert(two.pages[page] == one.pages[page]);
    assert(one.load(owner.page, PageKind::Owners) is Ok);
    reservation_comes_last(model, meta, request);
    change_is_apart(two, second, owner, change);
    if leads_on(model, text) {
        lists_stay(two, second, three, second, text);
    }
    owner_change_reads_back(two, owner, change, owner);
    if leads_on(model, text) {
        assert(follows_all(owner, list));
    }
    links_list(three, second, entries, owner, text);
    let linked = terms_linked(three, second, entries, owner);
    let four = linked.model;
    let third = linked.value->Ok_0;
    let published = owner_changed(four, owner, OwnerChange::Publish);
    let five = published.model;
    change_is_apart(four, third, owner, OwnerChange::Publish);
    if leads_on(model, text) {
        lists_stay(four, third, five, third, text);
    }
    owner_change_reads_back(four, owner, OwnerChange::Publish, owner);
    assert(four.pages[page] == three.pages[page]);
    assert(four.owner_of(owner) == three.owner_of(owner));
    assert(two.owner_of(owner)->Ok_0.root == root);
    publication_makes_searchable(four, owner);
    same_metadata(third, five.pages[0], layout);
    assert(five.pages[0].bucket(term_bucket(text)) == third.bucket(term_bucket(text)));
    assert forall|r: OwnerRef| (#[trigger] model.resolved(r)) is Ok implies five.resolved(r)
        == model.resolved(r) by {
        assert(owner.follows(r));
        assert(one.resolved(r) == model.resolved(r));
        assert(one.pages[r.page as int].kind == PageKind::Owners);
        assert(two.pages[r.page as int] == one.pages[r.page as int]);
        assert(two.owner_of(r) == one.owner_of(r));
        owner_change_reads_back(two, owner, change, r);
        assert(three.pages[r.page as int].kind == PageKind::Owners);
        assert(four.pages[r.page as int] == three.pages[r.page as int]);
        assert(four.owner_of(r) == three.owner_of(r));
        owner_change_reads_back(four, owner, OwnerChange::Publish, r);
    }
    if let Some(all) = all_owners(model, meta) {
        reservation_listed(model, meta, request);
        let (begin, end) = first.owner_chain()->Ok_0;
        roster_kept(one, two, begin, end);
        last_owner_changed(two, second, owner, change);
        roster_kept(three, four, begin, end);
        assert(third.owner_chain() == second.owner_chain());
        last_owner_changed(four, third, owner, OwnerChange::Publish);
        let made = one.pages[page].owner(owner.slot, layout)->Ok_0;
        assert(all.push(made).drop_last() =~= all);
        let more = all_owners(five, third)->Some_0;
        assert(more.drop_last() =~= all);
        assert(all_owners(five, five.pages[0]) == Some(more));
    }
}

/// A scan of a term that an inserted document mentions gives what it gave
/// before and then the root; a scan of any other term gives what it gave.
#[verifier::rlimit(100)]
#[verifier::spinoff_prover]
pub proof fn insertion_is_listed<T: RootItem>(
    model: StoreModel,
    root: RootTid,
    bytes: Seq<u8>,
    text: Seq<u8>,
)
    requires
        consistent(model),
        inserted(model, root, bytes).value is Ok,
        coordinate_error(root.block(), root.offset(), model.layout) is None,
        validated(bytes) is Ok,
        model.term_walk::<T>(model.pages[0], text).end is Ok,
    ensures
        ({
            let after = inserted(model, root, bytes).model;
            let before = model.term_walk::<T>(model.pages[0], text);
            &&& after.load(0, PageKind::Meta) == Ok::<Image, Error>(after.pages[0])
            &&& after.term_walk::<T>(after.pages[0], text) == (Walk {
                items: if mentions(document_entries(bytes), text) {
                    before.items.push(T::of(root, true))
                } else {
                    before.items
                },
                end: Ok(()),
            })
        }),
{
    let after = inserted(model, root, bytes).model;
    let owner = inserted(model, root, bytes).value->Ok_0;
    let entries = document_entries(bytes);
    term_walked::<T>(model, model.pages[0], text);
    let list = references_of(model, model.pages[0], text)->Some_0;
    list_resolves::<T>(model, list);
    insertion_traced(model, root, bytes, text);
    term_walked::<T>(after, after.pages[0], text);
    list_alike::<T>(model, after, list);
    let before = list_walk::<T>(model, list);
    if let Ok(end) = before.end {
        assert(end == ());
    }
    if mentions(entries, text) {
        assert(list.push(owner) =~= list + seq![owner]);
        lists_join::<T>(after, list, seq![owner]);
        list_of_one::<T>(after, owner);
        assert(before.items + seq![T::of(root, true)] =~= before.items.push(T::of(root, true)));
    }
}

#[verifier::rlimit(100)]
#[verifier::spinoff_prover]
proof fn terms_are_found<T: RootItem>(
    model: StoreModel,
    root: RootTid,
    bytes: Seq<u8>,
    terms: Seq<&str>,
)
    requires
        consistent(model),
        inserted(model, root, bytes).value is Ok,
        coordinate_error(root.block(), root.offset(), model.layout) is None,
        validated(bytes) is Ok,
        model.terms_walk::<T>(model.pages[0], terms).end is Ok,
    ensures
        ({
            let after = inserted(model, root, bytes).model;
            let before = model.terms_walk::<T>(model.pages[0], terms);
            let now = after.terms_walk::<T>(after.pages[0], terms);
            &&& now.end is Ok
            &&& forall|item: T| #[trigger] before.items.contains(item) ==> now.items.contains(item)
            &&& forall|i: int|
                0 <= i < terms.len() && mentions(
                    document_entries(bytes),
                    text_bytes(#[trigger] terms[i]),
                ) ==> now.items.contains(T::of(root, true))
            &&& (forall|i: int|
                0 <= i < terms.len() ==> !mentions(
                    document_entries(bytes),
                    text_bytes(#[trigger] terms[i]),
                )) ==> now.items == before.items
            &&& terms.len() == 1 && mentions(document_entries(bytes), text_bytes(terms[0]))
                ==> now.items == before.items.push(T::of(root, true))
        }),
    decreases terms.len(),
{
    let after = inserted(model, root, bytes).model;
    let entries = document_entries(bytes);
    let item = T::of(root, true);
    if terms.len() > 0 {
        let text = text_bytes(terms[0]);
        let rest = terms.drop_first();
        insertion_is_listed::<T>(model, root, bytes, text);
        terms_are_found::<T>(model, root, bytes, rest);
        let old_first = model.term_walk::<T>(model.pages[0], text);
        let new_first = after.term_walk::<T>(after.pages[0], text);
        let old_rest = model.terms_walk::<T>(model.pages[0], rest);
        let new_rest = after.terms_walk::<T>(after.pages[0], rest);
        let before = old_first.items + old_rest.items;
        let now = new_first.items + new_rest.items;
        assert forall|x: T| #[trigger] before.contains(x) implies now.contains(x) by {
            let i = before.index_of(x);
            if i < old_first.items.len() {
                assert(now[i] == x);
            } else {
                assert(old_rest.items[i - old_first.items.len()] == x);
                assert(old_rest.items.contains(x));
                let j = new_rest.items.index_of(x);
                assert(now[new_first.items.len() + j] == x);
            }
        }
        assert forall|i: int|
            0 <= i < terms.len() && mentions(entries, text_bytes(#[trigger] terms[i])) implies now.contains(
            item,
        ) by {
            if i == 0 {
                assert(now[new_first.items.len() - 1] == item);
            } else {
                assert(rest[i - 1] == terms[i]);
                let j = new_rest.items.index_of(item);
                assert(now[new_first.items.len() + j] == item);
            }
        }
        if forall|i: int|
            0 <= i < terms.len() ==> !mentions(entries, text_bytes(#[trigger] terms[i])) {
            assert(!mentions(entries, text_bytes(terms[0])));
            assert forall|i: int| 0 <= i < rest.len() implies !mentions(
                entries,
                text_bytes(#[trigger] rest[i]),
            ) by {
                assert(rest[i] == terms[i + 1]);
            }
        }
        if terms.len() == 1 && mentions(entries, text) {
            assert(rest.len() == 0);
            assert(now =~= before.push(item));
        }
    }
}

/// An inserted document is found again: a scan of everything gives what it gave
/// before and then the root, a scan of terms gives the root where the document
/// mentions one of them, and no scan loses what it found before.
#[verifier::rlimit(100)]
#[verifier::spinoff_prover]
pub proof fn insertion_is_found<T: RootItem>(
    model: StoreModel,
    root: RootTid,
    bytes: Seq<u8>,
    plan: CandidatePlan<'_>,
)
    requires
        consistent(model),
        inserted(model, root, bytes).value is Ok,
        coordinate_error(root.block(), root.offset(), model.layout) is None,
        validated(bytes) is Ok,
        model.plan_walk::<T>(plan).end is Ok,
    ensures
        ({
            let before = model.plan_walk::<T>(plan);
            let now = inserted(model, root, bytes).model.plan_walk::<T>(plan);
            &&& now.end is Ok
            &&& forall|item: T| #[trigger] before.items.contains(item) ==> now.items.contains(item)
            &&& plan is Universe ==> now.items == before.items.push(T::of(root, true))
            &&& plan matches CandidatePlan::Terms(terms) ==> {
                &&& forall|i: int|
                    0 <= i < terms@.len() && mentions(
                        document_entries(bytes),
                        text_bytes(#[trigger] terms@[i]),
                    ) ==> now.items.contains(T::of(root, true))
                &&& (forall|i: int|
                    0 <= i < terms@.len() ==> !mentions(
                        document_entries(bytes),
                        text_bytes(#[trigger] terms@[i]),
                    )) ==> now.items == before.items
                &&& terms@.len() == 1 && mentions(document_entries(bytes), text_bytes(terms@[0]))
                    ==> now.items == before.items.push(T::of(root, true))
            }
        }),
{
    let after = inserted(model, root, bytes).model;
    let none = Seq::<u8>::empty();
    match plan {
        CandidatePlan::Empty => {
            insertion_traced(model, root, bytes, none);
        },
        CandidatePlan::Universe => {
            insertion_traced(model, root, bytes, none);
            let pick = |owner: OwnerModel| T::of(owner.root, true);
            universe_walked(model, model.pages[0], pick);
            universe_walked(after, after.pages[0], pick);
            let list = all_owners(model, model.pages[0])->Some_0;
            let more = all_owners(after, after.pages[0])->Some_0;
            assert(more =~= list.push(more.last()));
            picked_push(list, more.last(), pick);
            let before = model.plan_walk::<T>(plan);
            let now = after.plan_walk::<T>(plan);
            assert(now.items == before.items.push(T::of(root, true)));
            assert forall|item: T| #[trigger] before.items.contains(item) implies now.items.contains(
                item,
            ) by {
                let i = before.items.index_of(item);
                assert(now.items[i] == item);
            }
        },
        CandidatePlan::Terms(terms) => {
            insertion_traced(model, root, bytes, none);
            terms_are_found::<T>(model, root, bytes, terms@);
        },
    }
}

} // verus!
