//! What holds when entries are linked into pages: a page that was sound stays
//! sound, and reads as it did but for what was linked.

use super::laws::{all_terms, append_posting_reads_back, append_term_reads_back};
use super::model::{
    fresh_image, is_posting_pair, postings_checked, postings_image, term_at, term_code, term_found,
    term_outcomes, terms_checked, Image, OwnerRef, PageKind, TermModel, TermRef, BUCKETS, CAPACITY,
    NO_BLOCK,
};
use crate::codec::bytes::{
    group_bytes, le_u16, le_u16_of_bytes, le_u32, le_u32_of_bytes, le_u64, splice, splice_u32,
    splice_u64, u16_bytes, u32_bytes, u64_bytes,
};
use crate::error::{Error, Result};
use crate::identity::{group_identity, HeapLayout};
use vstd::prelude::*;
use vstd::utf8::valid_utf8;

verus! {

broadcast use {group_bytes, group_identity};

/// Whether two pages hold the same behind their headers.
pub open spec fn same_body(left: Image, right: Image) -> bool {
    &&& right.kind == left.kind
    &&& right.block == left.block
    &&& right.bytes.len() == left.bytes.len()
    &&& forall|i: int| 16 <= i < left.bytes.len() ==> right.bytes[i] == #[trigger] left.bytes[i]
}

proof fn same_fields(left: Image, right: Image, at: int)
    requires
        same_body(left, right),
        16 <= at,
    ensures
        at + 2 <= left.bytes.len() ==> le_u16(right.bytes, at) == le_u16(left.bytes, at),
        at + 4 <= left.bytes.len() ==> le_u32(right.bytes, at) == le_u32(left.bytes, at),
        at + 8 <= left.bytes.len() ==> le_u64(right.bytes, at) == le_u64(left.bytes, at),
{
    reveal(le_u16);
    reveal(le_u32);
    reveal(le_u64);
    if at + 2 <= left.bytes.len() {
        assert(right.bytes[at] == left.bytes[at]);
        assert(right.bytes[at + 1] == left.bytes[at + 1]);
    }
    if at + 4 <= left.bytes.len() {
        assert(right.bytes[at + 2] == left.bytes[at + 2]);
        assert(right.bytes[at + 3] == left.bytes[at + 3]);
    }
    if at + 8 <= left.bytes.len() {
        assert(right.bytes[at + 4] == left.bytes[at + 4]);
        assert(right.bytes[at + 5] == left.bytes[at + 5]);
        assert(right.bytes[at + 6] == left.bytes[at + 6]);
        assert(right.bytes[at + 7] == left.bytes[at + 7]);
    }
}

/// Owners read alike in pages that hold the same behind their headers.
pub proof fn same_body_owner(left: Image, right: Image, slot: u16, layout: HeapLayout)
    requires
        same_body(left, right),
    ensures
        right.owner_count() == left.owner_count(),
        right.owner(slot, layout) == left.owner(slot, layout),
{
    let at = 20 + slot * 40;
    same_fields(left, right, 16);
    same_fields(left, right, 18);
    if let Ok(count) = left.owner_count() {
        if slot < count {
            assert(at + 40 <= left.bytes.len());
            same_fields(left, right, at);
            same_fields(left, right, at + 8);
            same_fields(left, right, at + 12);
            assert(right.bytes[at + 14] == left.bytes[at + 14]);
            assert(right.bytes[at + 15] == left.bytes[at + 15]);
            same_fields(left, right, at + 16);
            same_fields(left, right, at + 20);
            same_fields(left, right, at + 24);
            same_fields(left, right, at + 28);
            same_fields(left, right, at + 32);
            same_fields(left, right, at + 34);
            same_fields(left, right, at + 36);
            let from = le_u16(left.bytes, at + 32) as int;
            let len = le_u16(left.bytes, at + 34) as int;
            if from >= 16 && from + len <= left.bytes.len() {
                assert(right.bytes.subrange(from, from + len) =~= left.bytes.subrange(
                    from,
                    from + len,
                ));
            }
        }
    }
}

proof fn same_body_owners(left: Image, right: Image, slot: int, payload: int, layout: HeapLayout)
    requires
        same_body(left, right),
        0 <= slot,
        left.check_owners(slot, payload, layout) is Ok,
    ensures
        right.check_owners(slot, payload, layout) is Ok,
    decreases left.owner_count()->Ok_0 - slot,
{
    same_body_owner(left, right, slot as u16, layout);
    if slot < left.owner_count()->Ok_0 {
        let owner = left.owner(slot as u16, layout)->Ok_0;
        same_fields(left, right, 52 + slot * 40);
        if owner.inline.len() == 0 {
            same_body_owners(left, right, slot + 1, payload, layout);
        } else {
            same_body_owners(left, right, slot + 1, payload + owner.inline.len(), layout);
        }
    }
}

/// Whether a page is one of those that chains are made of.
pub open spec fn chained_kind(image: Image) -> bool {
    image.kind == PageKind::Owners || image.kind == PageKind::Dictionary || image.kind
        == PageKind::Postings || image.kind == PageKind::SealedPostings
}

/// A page with another acceptable link is as sound as it was and reads as it did.
#[verifier::rlimit(40)]
pub proof fn link_keeps(left: Image, right: Image, layout: HeapLayout)
    requires
        same_body(left, right),
        left.bytes.len() >= 16,
        chained_kind(left),
        left.check(layout) is Ok,
        right.check_next() is Ok,
    ensures
        right.check(layout) is Ok,
        right.terms() == left.terms(),
        right.posting_term() == left.posting_term(),
        right.posting_stream() == left.posting_stream(),
{
    same_fields(left, right, 16);
    same_fields(left, right, 20);
    same_fields(left, right, 22);
    assert(right.entries() =~= left.entries());
    if left.bytes.len() >= 24 {
        assert(right.bytes.subrange(24, right.bytes.len() as int) =~= left.bytes.subrange(
            24,
            left.bytes.len() as int,
        ));
    }
    if left.kind == PageKind::Owners {
        let count = left.owner_count()->Ok_0;
        same_body_owner(left, right, 0, layout);
        same_body_owners(left, right, 0, 20 + count * 40, layout);
    }
}

/// Setting the link of a page leaves all else of it.
pub proof fn next_set(image: Image, next: u32, layout: HeapLayout)
    requires
        image.with_next(next) is Ok,
        image.bytes.len() >= 16,
        chained_kind(image),
        image.check(layout) is Ok,
    ensures
        ({
            let after = image.with_next(next)->Ok_0;
            &&& same_body(image, after)
            &&& after.check(layout) is Ok
            &&& after.next() == Ok::<u32, Error>(next)
            &&& after.terms() == image.terms()
            &&& after.posting_term() == image.posting_term()
            &&& after.posting_stream() == image.posting_stream()
        }),
{
    let after = image.with_next(next)->Ok_0;
    splice_u32(image.bytes, 12, next);
    link_keeps(image, after, layout);
}

/// A page that was checked holds no broken reference.
pub proof fn checked_postings_ok(
    outcomes: Seq<Result<OwnerRef>>,
    index: int,
    previous: Option<OwnerRef>,
)
    requires
        0 <= index <= outcomes.len(),
        postings_checked(outcomes, index, previous) is Ok,
    ensures
        forall|i: int| index <= i < outcomes.len() ==> (#[trigger] outcomes[i]) is Ok,
    decreases outcomes.len() - index,
{
    if index < outcomes.len() {
        checked_postings_ok(outcomes, index + 1, Some(outcomes[index]->Ok_0));
    }
}

proof fn checked_push(
    outcomes: Seq<Result<OwnerRef>>,
    index: int,
    previous: Option<OwnerRef>,
    owner: OwnerRef,
)
    requires
        0 <= index <= outcomes.len(),
        postings_checked(outcomes, index, previous) is Ok,
        index == outcomes.len() ==> (previous matches Some(earlier) ==> owner.follows(earlier)),
        index < outcomes.len() ==> (outcomes.last() matches Ok(earlier) ==> owner.follows(earlier)),
    ensures
        postings_checked(outcomes.push(Ok(owner)), index, previous) is Ok,
    decreases outcomes.len() - index,
{
    let more = outcomes.push(Ok(owner));
    if index < outcomes.len() {
        assert(more[index] == outcomes[index]);
        checked_push(outcomes, index + 1, Some(outcomes[index]->Ok_0), owner);
    } else {
        assert(more[index] == Ok::<OwnerRef, Error>(owner));
        assert(postings_checked(more, index + 1, Some(owner)) is Ok);
    }
}

/// An owner that follows all others is appended to an open page of references.
#[verifier::rlimit(40)]
pub proof fn posting_appended(image: Image, owner: OwnerRef, layout: HeapLayout)
    requires
        image.kind == PageKind::Postings,
        image.check(layout) is Ok,
        image.bytes.len() <= CAPACITY,
        image.with_posting(owner) matches Ok(Some(_)),
        owner.incarnation.get() != 0,
        ({
            let outcomes = image.posting_stream()->Ok_0.outcomes();
            outcomes.len() > 0 ==> (outcomes.last() matches Ok(earlier) ==> owner.follows(earlier))
        }),
    ensures
        ({
            let after = image.with_posting(owner)->Ok_0->Some_0;
            &&& after.check(layout) is Ok
            &&& after.kind == image.kind
            &&& after.block == image.block
            &&& after.next() == image.next()
            &&& after.posting_term() == image.posting_term()
            &&& after.posting_stream() is Ok
            &&& after.posting_stream()->Ok_0.outcomes()
                == image.posting_stream()->Ok_0.outcomes().push(Ok(owner))
        }),
{
    let after = image.with_posting(owner)->Ok_0->Some_0;
    let len = image.bytes.len() as int;
    reveal(le_u16);
    reveal(le_u32);
    assert(owner.code().len() == 16);
    assert(image.bytes.len() >= 24);
    assert forall|i: int| 0 <= i < len implies after.bytes[i] == #[trigger] image.bytes[i] by {}
    assert(le_u32(after.bytes, 12) == le_u32(image.bytes, 12));
    assert(le_u32(after.bytes, 16) == le_u32(image.bytes, 16));
    assert(le_u16(after.bytes, 20) == le_u16(image.bytes, 20));
    assert(le_u16(after.bytes, 22) == le_u16(image.bytes, 22));
    let stream = image.posting_stream()->Ok_0;
    let n = ((len - 24) / 16) as nat;
    assert(stream.bytes.len() == 16 * n);
    let outcomes = stream.outcomes();
    checked_postings_ok(outcomes, 0, None);
    append_posting_reads_back(stream.bytes, 0, n, None, owner);
    let more = after.posting_stream()->Ok_0;
    assert(more.bytes =~= stream.bytes + owner.code());
    assert((after.bytes.len() - 24) / 16 == n + 1);
    assert(more.outcomes() == outcomes.push(Ok(owner)));
    checked_push(outcomes, 0, None, owner);
}

/// A new page of references holds the one that it was made for.
#[verifier::rlimit(40)]
pub proof fn posting_started(block: u32, term: TermRef, owner: OwnerRef, layout: HeapLayout)
    requires
        postings_image(block, term, PageKind::Postings) is Ok,
        postings_image(block, term, PageKind::Postings)->Ok_0.with_posting(owner) matches Ok(
            Some(_),
        ),
        owner.incarnation.get() != 0,
    ensures
        ({
            let after = postings_image(block, term, PageKind::Postings)->Ok_0.with_posting(
                owner,
            )->Ok_0->Some_0;
            &&& after.check(layout) is Ok
            &&& after.kind == PageKind::Postings
            &&& after.block == block
            &&& after.posting_term() == Ok::<TermRef, Error>(term)
            &&& after.posting_stream() is Ok
            &&& after.posting_stream()->Ok_0.outcomes() == seq![Ok::<OwnerRef, Error>(owner)]
        }),
{
    let fresh = postings_image(block, term, PageKind::Postings)->Ok_0;
    let bytes = fresh.bytes;
    assert(bytes.len() == 24);
    assert(bytes.subrange(12, 16) =~= u32_bytes(NO_BLOCK));
    assert(bytes.subrange(16, 20) =~= u32_bytes(term.page));
    assert(bytes.subrange(20, 22) =~= u16_bytes(term.offset));
    assert(bytes.subrange(22, 24) =~= u16_bytes(0));
    le_u32_of_bytes(bytes, 12, NO_BLOCK);
    le_u32_of_bytes(bytes, 16, term.page);
    le_u16_of_bytes(bytes, 20, term.offset);
    le_u16_of_bytes(bytes, 22, 0);
    let stream = fresh.posting_stream()->Ok_0;
    assert(stream.outcomes() =~= Seq::empty());
    posting_appended(fresh, owner, layout);
    assert(stream.outcomes().push(Ok::<OwnerRef, Error>(owner)) =~= seq![
        Ok::<OwnerRef, Error>(owner),
    ]);
}

/// An entry with another posting chain, where it is the one at `offset`.
pub open spec fn rechained(
    outcome: Result<TermModel>,
    offset: u16,
    head: u32,
    tail: u32,
) -> Result<TermModel> {
    match outcome {
        Ok(entry) => if entry.reference.offset == offset {
            Ok(TermModel { head, tail, ..entry })
        } else {
            Ok(entry)
        },
        Err(error) => Err(error),
    }
}

/// The entries of a page, where the one at `offset` has another posting chain.
pub open spec fn all_rechained(
    outcomes: Seq<Result<TermModel>>,
    offset: u16,
    head: u32,
    tail: u32,
) -> Seq<Result<TermModel>> {
    outcomes.map_values(|outcome: Result<TermModel>| rechained(outcome, offset, head, tail))
}

/// Entries stand behind where they were read from.
pub proof fn offsets_above(page: u32, entries: Seq<u8>, at: int)
    requires
        0 <= at <= entries.len(),
        entries.len() + 16 <= CAPACITY,
        all_terms(term_outcomes(page, entries, at)),
    ensures
        forall|i: int|
            0 <= i < term_outcomes(page, entries, at).len() ==> {
                let found = #[trigger] term_outcomes(page, entries, at)[i]->Ok_0.reference;
                &&& found.page == page
                &&& found.offset >= at + 16
                &&& i > 0 ==> found.offset > at + 16
            },
    decreases entries.len() - at,
{
    let outcomes = term_outcomes(page, entries, at);
    if at < entries.len() {
        assert(outcomes[0] is Ok);
        let (entry, end) = term_at(page, entries, at)->Ok_0;
        let rest = term_outcomes(page, entries, end);
        assert forall|i: int| 0 <= i < rest.len() implies (#[trigger] rest[i]) is Ok by {
            assert(outcomes[i + 1] == rest[i]);
        }
        offsets_above(page, entries, end);
        assert forall|i: int| 0 <= i < outcomes.len() implies {
            let found = #[trigger] outcomes[i]->Ok_0.reference;
            &&& found.page == page
            &&& found.offset >= at + 16
            &&& i > 0 ==> found.offset > at + 16
        } by {
            if i > 0 {
                assert(outcomes[i] == rest[i - 1]);
                assert(rest[i - 1]->Ok_0.reference.offset >= end + 16);
            }
        }
    }
}

/// The entries of a page stand at different places.
pub proof fn offsets_differ(page: u32, entries: Seq<u8>, at: int, i: int, j: int)
    requires
        0 <= at <= entries.len(),
        entries.len() + 16 <= CAPACITY,
        all_terms(term_outcomes(page, entries, at)),
        0 <= i < j < term_outcomes(page, entries, at).len(),
    ensures
        term_outcomes(page, entries, at)[i]->Ok_0.reference.offset
            < term_outcomes(page, entries, at)[j]->Ok_0.reference.offset,
    decreases entries.len() - at,
{
    let outcomes = term_outcomes(page, entries, at);
    offsets_above(page, entries, at);
    assert(outcomes[0] is Ok);
    let (entry, end) = term_at(page, entries, at)->Ok_0;
    let rest = term_outcomes(page, entries, end);
    assert forall|k: int| 0 <= k < rest.len() implies (#[trigger] rest[k]) is Ok by {
        assert(outcomes[k + 1] == rest[k]);
    }
    assert(outcomes[j] == rest[j - 1]);
    if i > 0 {
        assert(outcomes[i] == rest[i - 1]);
        offsets_differ(page, entries, end, i - 1, j - 1);
    }
}

/// Whether an entry stands at `offset`.
pub open spec fn stands_at(outcomes: Seq<Result<TermModel>>, offset: int) -> bool {
    exists|i: int|
        0 <= i < outcomes.len() && (#[trigger] outcomes[i]) is Ok
            && outcomes[i]->Ok_0.reference.offset == offset
}

proof fn entry_kept(page: u32, before: Seq<u8>, after: Seq<u8>, at: int)
    requires
        0 <= at,
        after.len() == before.len(),
        term_at(page, before, at) is Ok,
        forall|i: int|
            at <= i < term_at(page, before, at)->Ok_0.1 ==> after[i] == #[trigger] before[i],
    ensures
        term_at(page, after, at) == term_at(page, before, at),
{
    reveal(le_u16);
    reveal(le_u32);
    reveal(le_u64);
    let end = term_at(page, before, at)->Ok_0.1;
    assert(end >= at + 32);
    assert(le_u16(after, at) == le_u16(before, at));
    assert(le_u16(after, at + 2) == le_u16(before, at + 2));
    assert(le_u32(after, at + 4) == le_u32(before, at + 4));
    assert(le_u32(after, at + 8) == le_u32(before, at + 8));
    assert(le_u32(after, at + 12) == le_u32(before, at + 12));
    assert(le_u16(after, at + 16) == le_u16(before, at + 16));
    assert(le_u16(after, at + 18) == le_u16(before, at + 18));
    assert(le_u64(after, at + 20) == le_u64(before, at + 20));
    assert(le_u32(after, at + 28) == le_u32(before, at + 28));
    assert(after.subrange(at + 32, end) =~= before.subrange(at + 32, end));
}

proof fn entry_rechained(page: u32, before: Seq<u8>, at: int, head: u32, tail: u32)
    requires
        0 <= at,
        at + 16 <= u16::MAX,
        term_at(page, before, at) is Ok,
        is_posting_pair(head, tail),
    ensures
        ({
            let after = splice(splice(before, at + 4, u32_bytes(head)), at + 8, u32_bytes(tail));
            let (entry, end) = term_at(page, before, at)->Ok_0;
            term_at(page, after, at) == Ok::<(TermModel, int), Error>(
                (TermModel { head, tail, ..entry }, end),
            )
        }),
{
    let first = splice(before, at + 4, u32_bytes(head));
    let after = splice(first, at + 8, u32_bytes(tail));
    let end = term_at(page, before, at)->Ok_0.1;
    splice_u32(before, at + 4, head);
    splice_u32(first, at + 8, tail);
    reveal(le_u16);
    reveal(le_u32);
    reveal(le_u64);
    assert(le_u32(after, at + 4) == le_u32(first, at + 4));
    assert(le_u16(after, at) == le_u16(before, at));
    assert(le_u16(after, at + 2) == le_u16(before, at + 2));
    assert(le_u32(after, at + 12) == le_u32(before, at + 12));
    assert(le_u16(after, at + 16) == le_u16(before, at + 16));
    assert(le_u16(after, at + 18) == le_u16(before, at + 18));
    assert(le_u64(after, at + 20) == le_u64(before, at + 20));
    assert(le_u32(after, at + 28) == le_u32(before, at + 28));
    assert(after.subrange(at + 32, end) =~= before.subrange(at + 32, end));
}

#[verifier::rlimit(40)]
proof fn entries_rechained(
    page: u32,
    before: Seq<u8>,
    at: int,
    spot: int,
    head: u32,
    tail: u32,
)
    requires
        0 <= at <= before.len(),
        before.len() + 16 <= CAPACITY,
        0 <= spot,
        spot + 16 <= u16::MAX,
        all_terms(term_outcomes(page, before, at)),
        spot + 32 <= at || stands_at(term_outcomes(page, before, at), spot + 16),
        is_posting_pair(head, tail),
    ensures
        term_outcomes(
            page,
            splice(splice(before, spot + 4, u32_bytes(head)), spot + 8, u32_bytes(tail)),
            at,
        ) == all_rechained(term_outcomes(page, before, at), (spot + 16) as u16, head, tail),
    decreases before.len() - at,
{
    let offset = (spot + 16) as u16;
    let after = splice(splice(before, spot + 4, u32_bytes(head)), spot + 8, u32_bytes(tail));
    let outcomes = term_outcomes(page, before, at);
    offsets_above(page, before, at);
    if at < before.len() {
        assert(outcomes[0] is Ok);
        let (entry, end) = term_at(page, before, at)->Ok_0;
        let rest = term_outcomes(page, before, end);
        assert forall|i: int| 0 <= i < rest.len() implies (#[trigger] rest[i]) is Ok by {
            assert(outcomes[i + 1] == rest[i]);
        }
        offsets_above(page, before, end);
        if spot == at {
            entry_rechained(page, before, at, head, tail);
        } else {
            if spot + 32 > at {
                let i = choose|i: int|
                    0 <= i < outcomes.len() && (#[trigger] outcomes[i]) is Ok
                        && outcomes[i]->Ok_0.reference.offset == spot + 16;
                assert(i > 0);
                assert(outcomes[i] == rest[i - 1]);
                assert(stands_at(rest, spot + 16));
                assert(spot >= end);
            }
            entry_kept(page, before, after, at);
        }
        entries_rechained(page, before, end, spot, head, tail);
        assert(term_outcomes(page, after, at) =~= all_rechained(outcomes, offset, head, tail)) by {
            assert(outcomes =~= seq![Ok::<TermModel, Error>(entry)] + rest);
            if spot != at {
                assert(entry.reference.offset != offset);
            }
        }
    } else {
        assert(term_outcomes(page, after, at) =~= all_rechained(outcomes, offset, head, tail));
    }
}

/// A page that was checked holds no broken entry.
pub proof fn checked_terms_ok(outcomes: Seq<Result<TermModel>>, index: int)
    requires
        0 <= index <= outcomes.len(),
    ensures
        terms_checked(outcomes, index) is Ok <==> (forall|i: int|
            index <= i < outcomes.len() ==> (#[trigger] outcomes[i]) is Ok),
    decreases outcomes.len() - index,
{
    if index < outcomes.len() {
        checked_terms_ok(outcomes, index + 1);
        if outcomes[index] is Ok && terms_checked(outcomes, index + 1) is Ok {
            assert forall|i: int| index <= i < outcomes.len() implies (#[trigger] outcomes[i])
                is Ok by {
                if i > index {
                    assert(index + 1 <= i);
                }
            }
        }
    }
}

/// A found entry is one of the page.
pub proof fn term_found_at(outcomes: Seq<Result<TermModel>>, index: int, reference: TermRef) -> (i:
    int)
    requires
        0 <= index <= outcomes.len(),
        term_found(outcomes, index, reference) is Ok,
    ensures
        index <= i < outcomes.len(),
        outcomes[i] == term_found(outcomes, index, reference),
        outcomes[i]->Ok_0.reference == reference,
    decreases outcomes.len() - index,
{
    if outcomes[index]->Ok_0.reference == reference {
        index
    } else {
        term_found_at(outcomes, index + 1, reference)
    }
}

/// Setting the posting chain of a term leaves all else of the page.
#[verifier::rlimit(40)]
pub proof fn chain_set(image: Image, term: TermRef, head: u32, tail: u32, layout: HeapLayout)
    requires
        image.kind == PageKind::Dictionary,
        16 <= image.bytes.len() <= CAPACITY,
        image.check(layout) is Ok,
        image.with_posting_chain(term, head, tail) is Ok,
    ensures
        ({
            let after = image.with_posting_chain(term, head, tail)->Ok_0;
            &&& after.check(layout) is Ok
            &&& after.kind == image.kind
            &&& after.block == image.block
            &&& after.bytes.len() == image.bytes.len()
            &&& after.next() == image.next()
            &&& after.terms()->Ok_0 == all_rechained(
                image.terms()->Ok_0,
                term.offset,
                head,
                tail,
            )
        }),
{
    let after = image.with_posting_chain(term, head, tail)->Ok_0;
    let outcomes = image.terms()->Ok_0;
    checked_terms_ok(outcomes, 0);
    let i = term_found_at(outcomes, 0, term);
    offsets_above(image.block, image.entries(), 0);
    assert(outcomes[i]->Ok_0.reference.offset >= 16);
    let spot = term.offset - 16;
    assert(stands_at(outcomes, spot + 16));
    entries_rechained(image.block, image.entries(), 0, spot, head, tail);
    assert(after.entries() =~= splice(
        splice(image.entries(), spot + 4, u32_bytes(head)),
        spot + 8,
        u32_bytes(tail),
    ));
    reveal(le_u32);
    assert(le_u32(after.bytes, 12) == le_u32(image.bytes, 12));
    let more = after.terms()->Ok_0;
    assert forall|k: int| 0 <= k < more.len() implies (#[trigger] more[k]) is Ok by {
        assert(outcomes[k] is Ok);
    }
    checked_terms_ok(more, 0);
}

/// A term is added behind all others of the page.
pub proof fn term_appended(image: Image, text: Seq<u8>, first: OwnerRef, layout: HeapLayout)
    requires
        image.kind == PageKind::Dictionary,
        16 <= image.bytes.len() <= CAPACITY,
        image.check(layout) is Ok,
        image.with_term(text, first) matches Ok(Some(_)),
        valid_utf8(text),
        first.incarnation.get() != 0,
    ensures
        ({
            let after = image.with_term(text, first)->Ok_0->Some_0;
            let entry = TermModel {
                reference: TermRef { page: image.block, offset: image.bytes.len() as u16 },
                term: text,
                first,
                head: NO_BLOCK,
                tail: NO_BLOCK,
            };
            &&& after.check(layout) is Ok
            &&& after.kind == image.kind
            &&& after.block == image.block
            &&& image.bytes.len() < after.bytes.len() <= CAPACITY
            &&& after.next() == image.next()
            &&& after.terms()->Ok_0 == image.terms()->Ok_0.push(Ok(entry))
        }),
{
    let after = image.with_term(text, first)->Ok_0->Some_0;
    let outcomes = image.terms()->Ok_0;
    checked_terms_ok(outcomes, 0);
    append_term_reads_back(image, text, first);
    reveal(le_u32);
    assert(term_code(text, first).len() == 32 + text.len());
    assert(le_u32(after.bytes, 12) == le_u32(image.bytes, 12));
    let more = after.terms()->Ok_0;
    assert forall|k: int| 0 <= k < more.len() implies (#[trigger] more[k]) is Ok by {
        if k < outcomes.len() {
            assert(more[k] == outcomes[k]);
        }
    }
    checked_terms_ok(more, 0);
}

/// A new dictionary page holds the term that it was made for.
pub proof fn term_started(block: u32, text: Seq<u8>, first: OwnerRef, layout: HeapLayout)
    requires
        fresh_image(block, PageKind::Dictionary) is Ok,
        fresh_image(block, PageKind::Dictionary)->Ok_0.with_term(text, first) matches Ok(Some(_)),
        valid_utf8(text),
        first.incarnation.get() != 0,
    ensures
        ({
            let after = fresh_image(block, PageKind::Dictionary)->Ok_0.with_term(
                text,
                first,
            )->Ok_0->Some_0;
            let entry = TermModel {
                reference: TermRef { page: block, offset: 16 },
                term: text,
                first,
                head: NO_BLOCK,
                tail: NO_BLOCK,
            };
            &&& after.check(layout) is Ok
            &&& after.kind == PageKind::Dictionary
            &&& after.block == block
            &&& 16 < after.bytes.len() <= CAPACITY
            &&& after.terms()->Ok_0 == seq![Ok::<TermModel, Error>(entry)]
        }),
{
    let fresh = fresh_image(block, PageKind::Dictionary)->Ok_0;
    let bytes = fresh.bytes;
    assert(bytes.len() == 16);
    assert(bytes.subrange(12, 16) =~= u32_bytes(NO_BLOCK));
    le_u32_of_bytes(bytes, 12, NO_BLOCK);
    assert(fresh.terms()->Ok_0 =~= Seq::empty());
    checked_terms_ok(fresh.terms()->Ok_0, 0);
    term_appended(fresh, text, first, layout);
    let after = fresh.with_term(text, first)->Ok_0->Some_0;
    assert(after.terms()->Ok_0 =~= seq![after.terms()->Ok_0[0]]);
}

proof fn buckets_checked(meta: Image, bucket: int)
    requires
        0 <= bucket <= BUCKETS,
    ensures
        meta.check_buckets(bucket) is Ok <==> (forall|k: int|
            bucket <= k < BUCKETS ==> (#[trigger] meta.bucket(k)) is Ok),
    decreases BUCKETS - bucket,
{
    if bucket < BUCKETS {
        buckets_checked(meta, bucket + 1);
        if meta.bucket(bucket) is Ok && meta.check_buckets(bucket + 1) is Ok {
            assert forall|k: int| bucket <= k < BUCKETS implies (#[trigger] meta.bucket(k)) is Ok by {
                if k > bucket {
                    assert(bucket + 1 <= k);
                }
            }
        }
    }
}

/// Metadata whose directory changed stays sound as long as its entries are.
#[verifier::rlimit(40)]
proof fn metadata_kept(before: Image, after: Image, layout: HeapLayout)
    requires
        before.kind == PageKind::Meta,
        before.check(layout) is Ok,
        after.kind == before.kind,
        after.block == before.block,
        after.bytes.len() == before.bytes.len(),
        forall|i: int|
            (0 <= i < 32 || 4160 <= i < before.bytes.len()) ==> after.bytes[i]
                == #[trigger] before.bytes[i],
        le_u64(before.bytes, 32) <= le_u64(after.bytes, 32),
        after.owner_chain() is Ok,
        after.free_head() is Ok,
        after.rewrite_journal() is Ok,
        forall|k: int| 0 <= k < BUCKETS ==> (#[trigger] after.bucket(k)) is Ok,
    ensures
        after.check(layout) is Ok,
{
    reveal(le_u16);
    reveal(le_u32);
    assert(before.bytes.len() >= 4160);
    assert(le_u32(after.bytes, 12) == le_u32(before.bytes, 12));
    assert(le_u32(after.bytes, 16) == le_u32(before.bytes, 16));
    assert(le_u32(after.bytes, 20) == le_u32(before.bytes, 20));
    assert(le_u16(after.bytes, 24) == le_u16(before.bytes, 24));
    assert(le_u16(after.bytes, 26) == le_u16(before.bytes, 26));
    assert(le_u32(after.bytes, 28) == le_u32(before.bytes, 28));
    let len = before.bytes.len() as int;
    assert(after.bytes.subrange(4160, len) =~= before.bytes.subrange(4160, len));
    assert(before.check_meta(layout) is Ok);
    let state = before.grouped_state()->Ok_0;
    assert(state.before(le_u64(before.bytes, 32)) ==> state.before(le_u64(after.bytes, 32)));
    buckets_checked(after, 0);
}

/// What of the metadata stays where some bytes of it are replaced.
pub open spec fn metadata_like(before: Image, after: Image, bucket: int, chain: bool) -> bool {
    &&& after.kind == PageKind::Meta
    &&& after.block == before.block
    &&& after.bytes.len() == before.bytes.len()
    &&& forall|k: int|
        0 <= k < BUCKETS && k != bucket ==> #[trigger] after.bucket(k) == before.bucket(k)
    &&& chain ==> after.owner_chain() == before.owner_chain()
}

proof fn metadata_patched(before: Image, at: int, value: Seq<u8>, bucket: int)
    requires
        before.kind == PageKind::Meta,
        before.bytes.len() >= 4160,
        32 <= at,
        at + value.len() <= 4160,
        at >= 64 ==> 0 <= bucket < BUCKETS && 64 + bucket * 8 <= at && at + value.len() <= 72
            + bucket * 8,
        at < 64 ==> at + value.len() <= 52,
    ensures
        ({
            let after = before.patched(at, value);
            &&& metadata_like(before, after, if at >= 64 { bucket } else { -1 }, at >= 48 || at + value.len() <= 40)
            &&& after.rewrite_journal() == before.rewrite_journal()
            &&& at + value.len() <= 48 || at >= 52 ==> after.free_head() == before.free_head()
            &&& at >= 40 ==> le_u64(after.bytes, 32) == le_u64(before.bytes, 32)
        }),
{
    let after = before.patched(at, value);
    reveal(le_u32);
    reveal(le_u64);
    assert forall|k: int|
        0 <= k < BUCKETS && k != (if at >= 64 {
            bucket
        } else {
            -1
        }) implies #[trigger] after.bucket(k) == before.bucket(k) by {
        assert(le_u32(after.bytes, 64 + k * 8) == le_u32(before.bytes, 64 + k * 8));
        assert(le_u32(after.bytes, 68 + k * 8) == le_u32(before.bytes, 68 + k * 8));
    }
    assert(le_u32(after.bytes, 52) == le_u32(before.bytes, 52));
    assert(le_u32(after.bytes, 56) == le_u32(before.bytes, 56));
    assert(le_u32(after.bytes, 60) == le_u32(before.bytes, 60));
    if at >= 48 || at + value.len() <= 40 {
        assert(le_u32(after.bytes, 40) == le_u32(before.bytes, 40));
        assert(le_u32(after.bytes, 44) == le_u32(before.bytes, 44));
    }
    if at + value.len() <= 48 || at >= 52 {
        assert(le_u32(after.bytes, 48) == le_u32(before.bytes, 48));
    }
    if at >= 40 {
        assert(le_u32(after.bytes, 32) == le_u32(before.bytes, 32));
        assert(le_u32(after.bytes, 36) == le_u32(before.bytes, 36));
    }
}

/// Handing out an incarnation leaves all else of the metadata.
pub proof fn incarnation_taken(meta: Image, layout: HeapLayout)
    requires
        meta.kind == PageKind::Meta,
        meta.check(layout) is Ok,
        meta.with_reserved() is Ok,
    ensures
        ({
            let (incarnation, after) = meta.with_reserved()->Ok_0;
            &&& after.check(layout) is Ok
            &&& metadata_like(meta, after, -1, true)
            &&& incarnation.get() == le_u64(meta.bytes, 32)
            &&& incarnation.get() != 0
            &&& le_u64(after.bytes, 32) == le_u64(meta.bytes, 32) + 1
        }),
{
    let (incarnation, after) = meta.with_reserved()->Ok_0;
    let next = (incarnation.get() + 1) as u64;
    buckets_checked(meta, 0);
    metadata_patched(meta, 32, u64_bytes(next), 0);
    splice_u64(meta.bytes, 32, next);
    metadata_kept(meta, after, layout);
}

/// Another owner chain leaves all else of the metadata.
pub proof fn owner_chain_set(meta: Image, head: u32, tail: u32, layout: HeapLayout)
    requires
        meta.kind == PageKind::Meta,
        meta.check(layout) is Ok,
        meta.with_owner_chain(head, tail) is Ok,
    ensures
        ({
            let after = meta.with_owner_chain(head, tail)->Ok_0;
            &&& after.check(layout) is Ok
            &&& metadata_like(meta, after, -1, false)
            &&& after.owner_chain() == Ok::<(u32, u32), Error>((head, tail))
            &&& le_u64(after.bytes, 32) == le_u64(meta.bytes, 32)
        }),
{
    let first = meta.patched(40, u32_bytes(head));
    let after = meta.with_owner_chain(head, tail)->Ok_0;
    buckets_checked(meta, 0);
    metadata_patched(meta, 40, u32_bytes(head), 0);
    metadata_patched(first, 44, u32_bytes(tail), 0);
    splice_u32(meta.bytes, 40, head);
    splice_u32(first.bytes, 44, tail);
    assert(le_u32(after.bytes, 40) == head) by {
        reveal(le_u32);
        assert(le_u32(after.bytes, 40) == le_u32(first.bytes, 40));
    }
    assert forall|k: int| 0 <= k < BUCKETS implies (#[trigger] after.bucket(k)) is Ok by {
        assert(first.bucket(k) == meta.bucket(k));
    }
    metadata_kept(meta, after, layout);
}

/// Another dictionary chain of a bucket leaves all else of the metadata.
pub proof fn bucket_set(meta: Image, bucket: int, head: u32, tail: u32, layout: HeapLayout)
    requires
        meta.kind == PageKind::Meta,
        meta.check(layout) is Ok,
        0 <= bucket < BUCKETS,
        meta.with_bucket(bucket, head, tail) is Ok,
    ensures
        ({
            let after = meta.with_bucket(bucket, head, tail)->Ok_0;
            &&& after.check(layout) is Ok
            &&& metadata_like(meta, after, bucket, true)
            &&& after.bucket(bucket) == Ok::<(u32, u32), Error>((head, tail))
            &&& le_u64(after.bytes, 32) == le_u64(meta.bytes, 32)
        }),
{
    let at = 64 + bucket * 8;
    let first = meta.patched(at, u32_bytes(head));
    let after = meta.with_bucket(bucket, head, tail)->Ok_0;
    buckets_checked(meta, 0);
    metadata_patched(meta, at, u32_bytes(head), bucket);
    metadata_patched(first, at + 4, u32_bytes(tail), bucket);
    splice_u32(meta.bytes, at, head);
    splice_u32(first.bytes, at + 4, tail);
    assert(le_u32(after.bytes, at) == head) by {
        reveal(le_u32);
        assert(le_u32(after.bytes, at) == le_u32(first.bytes, at));
    }
    assert(after.bucket(bucket) == Ok::<(u32, u32), Error>((head, tail)));
    assert forall|k: int| 0 <= k < BUCKETS implies (#[trigger] after.bucket(k)) is Ok by {
        if k != bucket {
            assert(first.bucket(k) == meta.bucket(k));
        }
    }
    metadata_kept(meta, after, layout);
}

/// Another free list leaves all else of the metadata.
pub proof fn free_head_set(meta: Image, block: u32, layout: HeapLayout)
    requires
        meta.kind == PageKind::Meta,
        meta.check(layout) is Ok,
        meta.with_free_head(block) is Ok,
    ensures
        ({
            let after = meta.with_free_head(block)->Ok_0;
            &&& after.check(layout) is Ok
            &&& metadata_like(meta, after, -1, true)
            &&& le_u64(after.bytes, 32) == le_u64(meta.bytes, 32)
        }),
{
    let after = meta.with_free_head(block)->Ok_0;
    buckets_checked(meta, 0);
    metadata_patched(meta, 48, u32_bytes(block), 0);
    splice_u32(meta.bytes, 48, block);
    metadata_kept(meta, after, layout);
}

/// How the metadata reads does not depend on whether its page is new.
pub proof fn same_metadata(left: Image, right: Image, layout: HeapLayout)
    requires
        left.kind == PageKind::Meta,
        left.check(layout) is Ok,
        right.kind == left.kind,
        right.block == left.block,
        right.bytes == left.bytes,
    ensures
        right.check(layout) is Ok,
        right.owner_chain() == left.owner_chain(),
        forall|k: int| 0 <= k < BUCKETS ==> #[trigger] right.bucket(k) == left.bucket(k),
{
    buckets_checked(left, 0);
    assert forall|k: int| 0 <= k < BUCKETS implies (#[trigger] right.bucket(k)) is Ok by {
        assert(left.bucket(k) is Ok);
    }
    metadata_kept(left, right, layout);
}

} // verus!
