//! The owners of a term are the references that its chain lists, whichever
//! reader follows the chain.

use crate::codec::bytes::{group_bytes, le_inside, var_groups, var_u32_at, var_u64_at};
use crate::error::{Error, Result};
use crate::identity::group_identity;
use crate::mutable::listing::{
    chain_list, entry_of, page_decodes, page_references, pages_fit, references_of,
    term_found_listed, term_shelf,
};
use crate::mutable::page::model::{
    delta_at, posting_outcomes, posting_step, resumed_outcomes, Image, CAPACITY,
};
use crate::mutable::page::postings::resumed_page;
use crate::mutable::page::{OwnerRef, PageKind, TermRef, NO_BLOCK};
use crate::mutable::query::{last_of, listed, term_list, ChainModel};
use crate::mutable::store::StoreModel;
use vstd::prelude::*;

verus! {

broadcast use {group_bytes, group_identity};

/// Whether both succeed with one value, or both fail.
spec fn alike<T, E>(left: core::result::Result<T, E>, right: core::result::Result<T, E>) -> bool {
    match (left, right) {
        (Ok(one), Ok(two)) => one == two,
        (Err(_), Err(_)) => true,
        _ => false,
    }
}

/// A number is read from a part on as it is read from the whole.
proof fn groups_shift(bytes: Seq<u8>, at: int, start: int, group: int, last: int, top: int)
    requires
        0 <= at <= bytes.len() <= CAPACITY,
        0 <= start,
        0 <= group,
    ensures
        alike(
            var_groups(bytes, at + start, group, last, top),
            var_groups(bytes.subrange(at, bytes.len() as int), start, group, last, top),
        ),
    decreases last - group,
{
    let part = bytes.subrange(at, bytes.len() as int);
    if start + group + 1 <= part.len() {
        assert(part[start + group] == bytes[at + start + group]);
        if part[start + group] >= 128 && group < last {
            groups_shift(bytes, at, start, group + 1, last, top);
        }
    }
}

/// A reference is read from a part on as it is read from the whole.
proof fn step_shift(bytes: Seq<u8>, at: int, compressed: bool, previous: Option<OwnerRef>)
    requires
        0 <= at <= bytes.len() <= CAPACITY,
    ensures
        alike(
            posting_step(bytes, at, compressed, previous),
            posting_step(bytes.subrange(at, bytes.len() as int), 0, compressed, previous),
        ),
{
    let part = bytes.subrange(at, bytes.len() as int);
    if compressed {
        groups_shift(bytes, at, 0, 0, 4, 15);
        if let Ok((_, page_len)) = var_u32_at(part, 0) {
            groups_shift(bytes, at, page_len as int, 0, 4, 15);
            assert(alike(
                var_u32_at(bytes, at + page_len),
                var_u32_at(part, page_len as int),
            ));
            if let Ok((_, slot_len)) = var_u32_at(part, page_len as int) {
                groups_shift(bytes, at, (page_len + slot_len) as int, 0, 9, 1);
                assert(alike(
                    var_u64_at(bytes, at + page_len + slot_len),
                    var_u64_at(part, (page_len + slot_len) as int),
                ));
            }
        }
        assert(alike(delta_at(bytes, at, previous), delta_at(part, 0, previous)));
    } else {
        let len = bytes.len() - at;
        le_inside(bytes, at, len, 0);
        le_inside(bytes, at, len, 4);
        le_inside(bytes, at, len, 6);
        le_inside(bytes, at, len, 8);
    }
}

/// Whether no outcome is a failure.
pub open spec fn all_ok(outcomes: Seq<Result<OwnerRef>>) -> bool {
    forall|i: int| 0 <= i < outcomes.len() ==> (#[trigger] outcomes[i]) is Ok
}

/// A reader that resumes decodes what a stream decodes, where either fails
/// nowhere.
proof fn resumed_streams(
    bytes: Seq<u8>,
    start: int,
    at: int,
    compressed: bool,
    remaining: nat,
    previous: Option<OwnerRef>,
)
    requires
        0 <= start <= bytes.len() <= CAPACITY,
        0 <= at,
        start + at <= bytes.len(),
        all_ok(resumed_outcomes(bytes, start + at, compressed, remaining, previous)) || all_ok(
            posting_outcomes(
                bytes.subrange(start, bytes.len() as int),
                at,
                compressed,
                remaining,
                previous,
            ),
        ),
    ensures
        posting_outcomes(
            bytes.subrange(start, bytes.len() as int),
            at,
            compressed,
            remaining,
            previous,
        ) == resumed_outcomes(bytes, start + at, compressed, remaining, previous),
        resumed_outcomes(bytes, start + at, compressed, remaining, previous).len() == remaining,
    decreases remaining,
{
    let stream = bytes.subrange(start, bytes.len() as int);
    let resumed = resumed_outcomes(bytes, start + at, compressed, remaining, previous);
    let streamed = posting_outcomes(stream, at, compressed, remaining, previous);
    if remaining == 0 {
        if start + at < bytes.len() {
            assert(resumed[0] is Err);
            assert(streamed[0] is Err);
        }
    } else {
        let part = bytes.subrange(start + at, bytes.len() as int);
        assert(part =~= stream.subrange(at, stream.len() as int));
        step_shift(stream, at, compressed, previous);
        if posting_step(part, 0, compressed, previous) is Err {
            assert(resumed[0] is Err);
            assert(streamed[0] is Err);
        }
        let (owner, len) = posting_step(part, 0, compressed, previous)->Ok_0;
        let left = (remaining - 1) as nat;
        let rest = resumed_outcomes(bytes, start + at + len, compressed, left, Some(owner));
        let more = posting_outcomes(stream, at + len as int, compressed, left, Some(owner));
        assert(resumed =~= seq![Ok::<OwnerRef, Error>(owner)] + rest);
        assert(streamed =~= seq![Ok::<OwnerRef, Error>(owner)] + more);
        if all_ok(resumed) {
            assert forall|i: int| 0 <= i < rest.len() implies (#[trigger] rest[i]) is Ok by {
                assert(resumed[i + 1] == rest[i]);
            }
        } else {
            assert forall|i: int| 0 <= i < more.len() implies (#[trigger] more[i]) is Ok by {
                assert(streamed[i + 1] == more[i]);
            }
        }
        step_inside(part, compressed, previous);
        resumed_streams(bytes, start, at + len as int, compressed, left, Some(owner));
    }
}

/// A number lies inside the bytes that it is read from.
proof fn groups_inside(bytes: Seq<u8>, start: int, group: int, last: int, top: int)
    requires
        0 <= start,
        0 <= group,
        var_groups(bytes, start, group, last, top) is Ok,
    ensures
        start + group + var_groups(bytes, start, group, last, top)->Ok_0.1 <= bytes.len(),
    decreases last - group,
{
    if bytes[start + group] >= 128 && group < last {
        groups_inside(bytes, start, group + 1, last, top);
    }
}

/// A reference lies inside the bytes that it is read from.
proof fn step_inside(bytes: Seq<u8>, compressed: bool, previous: Option<OwnerRef>)
    requires
        posting_step(bytes, 0, compressed, previous) is Ok,
    ensures
        posting_step(bytes, 0, compressed, previous)->Ok_0.1 <= bytes.len(),
{
    if compressed {
        groups_inside(bytes, 0, 0, 4, 15);
        let (_, page_len) = var_u32_at(bytes, 0)->Ok_0;
        groups_inside(bytes, page_len as int, 0, 4, 15);
        let (_, slot_len) = var_u32_at(bytes, page_len as int)->Ok_0;
        groups_inside(bytes, (page_len + slot_len) as int, 0, 9, 1);
    }
}

/// Listed outcomes are no failures, and the list is what they hold.
pub proof fn listed_outcomes(pending: Seq<Result<OwnerRef>>, previous: OwnerRef)
    requires
        listed(pending, previous) is Some,
    ensures
        all_ok(pending),
        listed(pending, previous)->Some_0 == pending.map_values(
            |outcome: Result<OwnerRef>| outcome->Ok_0,
        ),
    decreases pending.len(),
{
    let pick = |outcome: Result<OwnerRef>| outcome->Ok_0;
    let list = listed(pending, previous)->Some_0;
    if pending.len() > 0 {
        let owner = pending[0]->Ok_0;
        let rest = pending.drop_first();
        listed_outcomes(rest, owner);
        assert(list =~= seq![owner] + rest.map_values(pick));
        assert(list =~= pending.map_values(pick));
        assert forall|i: int| 0 <= i < pending.len() implies (#[trigger] pending[i]) is Ok by {
            if i > 0 {
                assert(pending[i] == rest[i - 1]);
            }
        }
    } else {
        assert(list =~= pending.map_values(pick));
    }
}

/// What a loaded page holds for a reader that resumes is what its stream holds.
pub proof fn page_resumed(model: StoreModel, block: u32, term: TermRef)
    requires
        pages_fit(model),
        model.load_posting(block, term) is Ok,
    ensures
        ({
            let image = model.load_posting(block, term)->Ok_0;
            &&& image.posting_stream() is Ok
            &&& resumed_page(image) matches Ok(page) && {
                &&& page.pending == image.posting_stream()->Ok_0.outcomes()
                &&& page.pending.map_values(|outcome: Result<OwnerRef>| outcome->Ok_0)
                    == page_references(image)
                &&& page.pending.len() == image.posting_stream()->Ok_0.count
                &&& all_ok(page.pending)
            }
        }),
{
    let image = model.load_posting(block, term)->Ok_0;
    page_decodes(model, block, term);
    let page = resumed_page(image)->Ok_0;
    let stream = image.posting_stream()->Ok_0;
    let start = image.posting_start()->Ok_0;
    assert(image == model.pages[block as int]);
    assert(image.kind != PageKind::Meta);
    assert(image.bytes.len() <= CAPACITY);
    assert(stream.bytes == image.bytes.subrange(start, image.bytes.len() as int));
    let outcomes = stream.outcomes();
    assert forall|i: int| 0 <= i < outcomes.len() implies (#[trigger] outcomes[i]) is Ok by {
        assert(outcomes[i] == page_references(image).map_values(
            |owner: OwnerRef| Ok::<OwnerRef, Error>(owner),
        )[i]);
    }
    resumed_streams(image.bytes, start, 0, stream.compressed, stream.count as nat, None);
    assert(page.pending.map_values(|outcome: Result<OwnerRef>| outcome->Ok_0) =~= page_references(
        image,
    ));
}

/// The owners to come on a chain are the references that the chain lists.
pub proof fn ahead_is_listed(chain: ChainModel, model: StoreModel)
    requires
        pages_fit(model),
        chain.page is None,
        chain.block != NO_BLOCK,
        chain.ahead(model) is Some,
    ensures
        chain_list(model, chain.reference, chain.block, chain.tail, chain.remaining)
            == chain.ahead(model),
    decreases chain.remaining,
{
    let image = model.load_posting(chain.block, chain.reference)->Ok_0;
    let page = resumed_page(image)->Ok_0;
    let opened = ChainModel { page: Some(page), ..chain };
    assert(opened.ahead(model) == chain.ahead(model));
    let list = listed(page.pending, chain.previous)->Some_0;
    page_resumed(model, chain.block, chain.reference);
    listed_outcomes(page.pending, chain.previous);
    assert(list =~= page_references(image));
    let next = opened.left(last_of(list, chain.previous))->Some_0;
    if next.block == NO_BLOCK {
        assert(next.ahead(model) == Some(Seq::<OwnerRef>::empty()));
        assert(list + Seq::<OwnerRef>::empty() =~= list);
    } else {
        ahead_is_listed(next, model);
    }
}

/// The owners of an undamaged term are its references.
pub proof fn term_list_is_references(model: StoreModel, meta: Image, text: Seq<u8>)
    requires
        pages_fit(model),
        term_list(model, meta, text) is Some,
    ensures
        references_of(model, meta, text) == term_list(model, meta, text),
{
    term_found_listed(model, meta, text);
    if let Some((image, reference)) = model.find_term(meta, text)->Ok_0 {
        let entry = image.term(reference)->Ok_0;
        let found = entry_of(term_shelf(model, meta, text)->Some_0, text);
        assert(found == Some(entry));
        let chain = ChainModel {
            reference,
            block: entry.head,
            tail: entry.tail,
            remaining: model.pages.len() as u32,
            previous: entry.first,
            page: None,
        };
        if entry.head == NO_BLOCK {
            assert(seq![entry.first] + Seq::<OwnerRef>::empty() =~= seq![entry.first]);
        } else {
            ahead_is_listed(chain, model);
        }
    }
}

} // verus!
