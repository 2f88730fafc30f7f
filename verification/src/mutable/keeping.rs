//! What an insertion stores can be read again: the payload of the new owner is
//! the document, inline or in fragments.

use crate::error::Error;
use crate::identity::{coordinate_error, group_identity, RootTid};
use crate::mutable::document::{
    document_entries, validated, validated_terms_differ, MAX_DOCUMENT_BYTES,
};
use crate::mutable::grouped::frontier::whole_payload;
use crate::mutable::insertion::{
    change_is_apart, consistent, fragment_is_apart, fragments_are_apart, links_list,
    pieces_kept_joins, reservation_is_apart,
};
use crate::mutable::laws::owner_change_reads_back;
use crate::mutable::linking::pieces_kept;
use crate::mutable::linking_terms::orderly;
use crate::mutable::page::laws::fragment_round_trip;
use crate::mutable::page::model::{fragment_image, Image};
use crate::mutable::page::{OwnerChange, OwnerModel, OwnerRef, PageKind, INLINE_BYTES, NO_BLOCK};
use crate::mutable::query::fragments;
use crate::mutable::store::{stored, StoreModel};
use crate::mutable::writer::{
    fragment_piece, fragment_stored, fragments_stored, inserted, owner_changed, owner_reserved,
    payload_stored, reservation, terms_linked,
};
use vstd::prelude::*;

verus! {

broadcast use group_identity;

/// Fragments whose pages stay read as before, and further steps do not matter.
proof fn pieces_read_alike(
    before: StoreModel,
    after: StoreModel,
    owner: OwnerModel,
    block: u32,
    offset: int,
    remaining: u32,
    more: u32,
)
    requires
        pieces_kept(before, after),
        fragments(before, owner, block, offset, remaining) is Some,
        remaining <= more,
    ensures
        fragments(after, owner, block, offset, more) == fragments(
            before,
            owner,
            block,
            offset,
            remaining,
        ),
    decreases remaining,
{
    if block != NO_BLOCK {
        let image = before.load(block, PageKind::Fragment)->Ok_0;
        assert(after.pages[block as int] == before.pages[block as int]);
        assert(after.load(block, PageKind::Fragment) == Ok::<Image, Error>(image));
        let bytes = image.fragment_data()->Ok_0.2;
        pieces_read_alike(
            before,
            after,
            owner,
            image.next()->Ok_0,
            offset + bytes.len(),
            (remaining - 1) as u32,
            (more - 1) as u32,
        );
    }
}

/// A fragment takes a page that held none, and leaves the others.
#[verifier::rlimit(40)]
proof fn block_was_none(
    model: StoreModel,
    meta: Image,
    owner: OwnerRef,
    next: u32,
    offset: int,
    piece: Seq<u8>,
)
    requires
        orderly(model, meta),
        fragment_stored(model, meta, owner, next, offset, piece).value is Ok,
    ensures
        ({
            let step = fragment_stored(model, meta, owner, next, offset, piece);
            let block = step.value->Ok_0.0;
            &&& pieces_kept(model, step.model)
            &&& block < step.model.pages.len()
            &&& step.model.pages[block as int].kind == PageKind::Fragment
            &&& block < model.pages.len() ==> model.pages[block as int].kind != PageKind::Fragment
        }),
{
}

/// A fragment that is stored in front of others reads as its piece and then
/// theirs.
#[verifier::rlimit(40)]
proof fn piece_is_stored(
    model: StoreModel,
    meta: Image,
    owner: OwnerModel,
    next: u32,
    offset: int,
    piece: Seq<u8>,
    remaining: u32,
)
    requires
        orderly(model, meta),
        fragment_stored(model, meta, owner.reference, next, offset, piece).value is Ok,
        owner.reference.incarnation.get() != 0,
        0 <= offset,
        offset + piece.len() <= owner.data_bytes <= MAX_DOCUMENT_BYTES,
        fragments(model, owner, next, offset + piece.len(), remaining) is Some,
        remaining < u32::MAX,
    ensures
        ({
            let step = fragment_stored(model, meta, owner.reference, next, offset, piece);
            fragments(step.model, owner, step.value->Ok_0.0, offset, (remaining + 1) as u32) == Some(
                piece + fragments(model, owner, next, offset + piece.len(), remaining)->Some_0,
            )
        }),
{
    let step = fragment_stored(model, meta, owner.reference, next, offset, piece);
    let (block, spent) = step.value->Ok_0;
    let after = step.model;
    let page = fragment_image(block, owner.reference, next, offset as u32, piece)->Ok_0;
    fragment_round_trip(block, owner.reference, next, offset as u32, piece, model.layout);
    let kept = stored(page);
    block_was_none(model, meta, owner.reference, next, offset, piece);
    assert(after.pages[block as int] == kept);
    assert(kept.check(model.layout) == page.check(model.layout));
    assert(kept.fragment_data() == page.fragment_data());
    assert(kept.next() == page.next());
    assert(after.load(block, PageKind::Fragment) == Ok::<Image, Error>(kept));
    pieces_read_alike(model, after, owner, next, offset + piece.len(), remaining, remaining);
    assert(fragments(after, owner, next, offset + piece.len(), remaining) is Some);
    assert((remaining + 1) as u32 - 1 == remaining);
}

/// Different pages are no more than there are.
proof fn pages_suffice(model: StoreModel, blocks: Seq<int>)
    requires
        blocks.no_duplicates(),
        forall|i: int| 0 <= i < blocks.len() ==> 0 <= #[trigger] blocks[i] < model.pages.len(),
    ensures
        blocks.len() <= model.pages.len(),
{
    let all = vstd::set_lib::set_int_range(0, model.pages.len() as int);
    vstd::set_lib::lemma_int_range(0, model.pages.len() as int);
    blocks.unique_seq_to_set();
    assert(blocks.to_set().subset_of(all)) by {
        assert forall|p: int| blocks.to_set().contains(p) implies all.contains(p) by {
            let i = blocks.index_of(p);
            assert(blocks[i] == p);
        }
    }
    vstd::set_lib::lemma_len_subset(blocks.to_set(), all);
}

/// Where the fragments below an index end in a payload.
pub open spec fn pieces_end(bytes: Seq<u8>, index: int) -> int {
    if index * 8132 < bytes.len() {
        index * 8132
    } else {
        bytes.len() as int
    }
}

/// Storing the fragments below an index in front of the rest of a payload
/// stores the payload.
proof fn pieces_are_stored(
    model: StoreModel,
    meta: Image,
    owner: OwnerModel,
    bytes: Seq<u8>,
    index: nat,
    next: u32,
    blocks: Seq<int>,
)
    requires
        orderly(model, meta),
        fragments_stored(model, meta, owner.reference, bytes, index, next).value is Ok,
        owner.reference.incarnation.get() != 0,
        owner.data_bytes == bytes.len(),
        bytes.len() <= MAX_DOCUMENT_BYTES,
        index > 0 ==> (index - 1) * 8132 < bytes.len(),
        blocks.no_duplicates(),
        forall|i: int|
            0 <= i < blocks.len() ==> 0 <= #[trigger] blocks[i] < model.pages.len()
                && model.pages[blocks[i]].kind == PageKind::Fragment,
        fragments(model, owner, next, pieces_end(bytes, index as int), blocks.len() as u32) == Some(
            bytes.subrange(pieces_end(bytes, index as int), bytes.len() as int),
        ),
    ensures
        ({
            let end = fragments_stored(model, meta, owner.reference, bytes, index, next);
            fragments(
                end.model,
                owner,
                end.value->Ok_0.0,
                0,
                end.model.pages.len() as u32,
            ) == Some(bytes)
        }),
    decreases index,
{
    pages_suffice(model, blocks);
    let remaining = blocks.len() as u32;
    if index == 0 {
        assert(pieces_end(bytes, 0) == 0);
        assert(bytes.subrange(0, bytes.len() as int) =~= bytes);
        pieces_read_alike(model, model, owner, next, 0, remaining, model.pages.len() as u32);
    } else {
        let last = (index - 1) as nat;
        let piece = fragment_piece(bytes, last as int);
        let offset = last as int * 8132;
        let limit = pieces_end(bytes, index as int);
        assert(pieces_end(bytes, last as int) == offset);
        assert(offset + piece.len() == limit);
        let step = fragment_stored(model, meta, owner.reference, next, offset, piece);
        fragment_is_apart(model, meta, owner.reference, next, offset, piece);
        let (block, spent) = step.value->Ok_0;
        block_was_none(model, meta, owner.reference, next, offset, piece);
        let more = blocks.push(block as int);
        assert(!blocks.contains(block as int)) by {
            if blocks.contains(block as int) {
                let i = blocks.index_of(block as int);
                assert(model.pages[blocks[i]].kind == PageKind::Fragment);
            }
        }
        assert(more.no_duplicates());
        assert forall|i: int| 0 <= i < more.len() implies 0 <= #[trigger] more[i]
            < step.model.pages.len() && step.model.pages[more[i]].kind == PageKind::Fragment by {
            if i < blocks.len() {
                assert(more[i] == blocks[i]);
                assert(step.model.pages[blocks[i]] == model.pages[blocks[i]]);
            }
        }
        pages_suffice(step.model, more);
        piece_is_stored(model, meta, owner, next, offset, piece, remaining);
        assert(piece + bytes.subrange(limit, bytes.len() as int) =~= bytes.subrange(
            offset,
            bytes.len() as int,
        ));
        pieces_are_stored(step.model, spent, owner, bytes, last, block, more);
    }
}

/// An inserted document can be read again: the payload of its owner is the
/// document, and the owner tells how many tokens and terms it has.
#[verifier::rlimit(60)]
#[verifier::spinoff_prover]
pub proof fn insertion_keeps_payload(model: StoreModel, root: RootTid, bytes: Seq<u8>)
    requires
        consistent(model),
        inserted(model, root, bytes).value is Ok,
        coordinate_error(root.block(), root.offset(), model.layout) is None,
        validated(bytes) is Ok,
    ensures
        ({
            let after = inserted(model, root, bytes);
            let owner = after.model.owner_of(after.value->Ok_0)->Ok_0;
            &&& after.model.owner_of(after.value->Ok_0) is Ok
            &&& owner.root == root
            &&& whole_payload(after.model, owner) == Some(bytes)
            &&& validated(bytes) == Ok::<(u32, u32), Error>((owner.tokens, owner.terms))
        }),
{
    let meta = model.load(0, PageKind::Meta)->Ok_0;
    let entries = document_entries(bytes);
    validated_terms_differ(bytes);
    let request = reservation(root, bytes);
    let reserved = owner_reserved(model, meta, request);
    let (owner, first) = reserved.value->Ok_0;
    reservation_is_apart(model, meta, request);
    let one = reserved.model;
    let page = owner.page as int;
    let stage = payload_stored(one, first, owner, bytes);
    let (head, second) = stage.value->Ok_0;
    let two = stage.model;
    let made = one.pages[page].owner(owner.slot, model.layout)->Ok_0;
    assert(bytes.len() <= MAX_DOCUMENT_BYTES);
    if bytes.len() > INLINE_BYTES {
        let count = ((bytes.len() + 8131) / 8132) as nat;
        let none = Seq::<int>::empty();
        fragments_are_apart(one, first, owner, bytes, count, NO_BLOCK);
        assert(pieces_end(bytes, count as int) == bytes.len());
        assert(bytes.subrange(bytes.len() as int, bytes.len() as int) =~= Seq::<u8>::empty());
        pieces_are_stored(one, first, made, bytes, count, NO_BLOCK, none);
    }
    let change = OwnerChange::PayloadReady(head);
    let ready = owner_changed(two, owner, change);
    let three = ready.model;
    assert(one.pages[page].kind == PageKind::Owners);
    assert(two.pages[page] == one.pages[page]);
    change_is_apart(two, second, owner, change);
    owner_change_reads_back(two, owner, change, owner);
    change_keeps_pieces(two, owner, change);
    links_list(three, second, entries, owner, Seq::empty());
    let linked = terms_linked(three, second, entries, owner);
    let four = linked.model;
    let third = linked.value->Ok_0;
    let five = owner_changed(four, owner, OwnerChange::Publish).model;
    change_is_apart(four, third, owner, OwnerChange::Publish);
    change_keeps_pieces(four, owner, OwnerChange::Publish);
    assert(four.pages[page] == three.pages[page]);
    assert(four.owner_of(owner) == three.owner_of(owner));
    owner_change_reads_back(four, owner, OwnerChange::Publish, owner);
    pieces_kept_joins(two, three, four);
    pieces_kept_joins(two, four, five);
    let made_now = five.owner_of(owner)->Ok_0;
    assert(made_now.data_head == head);
    assert(made_now.inline == made.inline);
    if made.inline.len() == 0 {
        if bytes.len() <= INLINE_BYTES {
            assert(bytes =~= Seq::<u8>::empty());
        } else {
            same_record(two, made, made_now, head, 0, two.pages.len() as u32);
            pieces_read_alike(
                two,
                five,
                made_now,
                head,
                0,
                two.pages.len() as u32,
                five.pages.len() as u32,
            );
        }
    }
}

/// Changing an owner touches no fragment.
proof fn change_keeps_pieces(model: StoreModel, owner: OwnerRef, change: OwnerChange)
    requires
        owner_changed(model, owner, change).value is Ok,
    ensures
        pieces_kept(model, owner_changed(model, owner, change).model),
{
}

/// Reading fragments asks an owner for its reference and its length alone.
proof fn same_record(
    model: StoreModel,
    one: OwnerModel,
    other: OwnerModel,
    block: u32,
    offset: int,
    remaining: u32,
)
    requires
        one.reference == other.reference,
        one.data_bytes == other.data_bytes,
    ensures
        fragments(model, one, block, offset, remaining) == fragments(
            model,
            other,
            block,
            offset,
            remaining,
        ),
    decreases remaining,
{
    if block != NO_BLOCK && remaining > 0 {
        if let Ok(image) = model.load(block, PageKind::Fragment) {
            if let Ok((_, _, bytes)) = image.fragment_data() {
                if let Ok(next) = image.next() {
                    same_record(
                        model,
                        one,
                        other,
                        next,
                        offset + bytes.len(),
                        (remaining - 1) as u32,
                    );
                }
            }
        }
    }
}

} // verus!
