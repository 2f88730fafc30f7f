//! What a capture holds: the records of all searchable owners and of all their
//! postings, as the lists of owners and of terms name them.

use crate::error::{Error, Result};
use crate::identity::group_identity;
use crate::mutable::grouped::anchors::{record_code, term_number, Anchor};
use crate::mutable::grouped::capture::{
    captured, nothing_captured, posting_record, CaptureModel,
};
use crate::mutable::listing::{
    chain_list, entry_list, entry_of, names, page_entries, page_references, shelf, term_shelf,
};
use crate::mutable::page::model::{term_bucket, Image, TermModel};
use crate::mutable::page::{OwnerModel, OwnerRef, PageKind, NO_BLOCK};
use crate::mutable::reader::searchable;
use crate::mutable::roster::{all_owners, records, roster};
use crate::mutable::store::{following_of, posting_next_of, StoreModel};
use vstd::prelude::*;

verus! {

broadcast use group_identity;

/// Whether records were added behind others.
pub open spec fn added(before: CaptureModel, after: CaptureModel) -> bool {
    before.records.is_prefix_of(after.records)
}

/// Whether the searchable owners of a list are recorded.
pub open spec fn owners_recorded(records: Seq<Seq<u8>>, list: Seq<OwnerModel>) -> bool {
    forall|i: int|
        0 <= i < list.len() && searchable(#[trigger] list[i]) ==> records.contains(
            posting_record(0, list[i].root, list[i].reference),
        )
}

/// Whether the owners of a list that lead to roots are recorded under a term.
pub open spec fn list_recorded(
    model: StoreModel,
    records: Seq<Seq<u8>>,
    term: u64,
    list: Seq<OwnerRef>,
) -> bool {
    forall|i: int|
        0 <= i < list.len() ==> (model.resolved(#[trigger] list[i]) matches Ok(found) && (
        found matches Some(root) ==> records.contains(posting_record(term, root, list[i]))))
}

/// Whether the postings of a term are recorded, and with anchors its last owner.
pub open spec fn entry_recorded(
    model: StoreModel,
    anchored: bool,
    records: Seq<Seq<u8>>,
    entry: TermModel,
) -> bool {
    entry_list(model, entry) matches Some(list) && {
        &&& list_recorded(model, records, term_number(entry.reference), list)
        &&& anchored ==> records.contains(
            record_code(
                (Anchor {
                    head: entry.head,
                    tail: entry.tail,
                    last: list.last().incarnation.get(),
                }).words(term_number(entry.reference)),
            ),
        )
    }
}

/// Whether the postings of entries are recorded.
pub open spec fn entries_recorded(
    model: StoreModel,
    anchored: bool,
    records: Seq<Seq<u8>>,
    entries: Seq<TermModel>,
) -> bool {
    forall|i: int|
        0 <= i < entries.len() ==> entry_recorded(model, anchored, records, #[trigger] entries[i])
}

/// What is recorded stays recorded.
proof fn recorded_later(left: Seq<Seq<u8>>, right: Seq<Seq<u8>>, record: Seq<u8>)
    requires
        left.is_prefix_of(right),
        left.contains(record),
    ensures
        right.contains(record),
{
    let i = choose|i: int| 0 <= i < left.len() && left[i] == record;
    assert(right[i] == record);
}

proof fn owners_later(left: Seq<Seq<u8>>, right: Seq<Seq<u8>>, list: Seq<OwnerModel>)
    requires
        left.is_prefix_of(right),
        owners_recorded(left, list),
    ensures
        owners_recorded(right, list),
{
    assert forall|i: int| 0 <= i < list.len() && searchable(#[trigger] list[i]) implies right.contains(
        posting_record(0, list[i].root, list[i].reference),
    ) by {
        recorded_later(left, right, posting_record(0, list[i].root, list[i].reference));
    }
}

proof fn list_later(
    model: StoreModel,
    left: Seq<Seq<u8>>,
    right: Seq<Seq<u8>>,
    term: u64,
    list: Seq<OwnerRef>,
)
    requires
        left.is_prefix_of(right),
        list_recorded(model, left, term, list),
    ensures
        list_recorded(model, right, term, list),
{
    assert forall|i: int| 0 <= i < list.len() implies (model.resolved(#[trigger] list[i])
        matches Ok(found) && (found matches Some(root) ==> right.contains(
        posting_record(term, root, list[i]),
    ))) by {
        if let Ok(Some(root)) = model.resolved(list[i]) {
            recorded_later(left, right, posting_record(term, root, list[i]));
        }
    }
}

proof fn entries_later(
    model: StoreModel,
    anchored: bool,
    left: Seq<Seq<u8>>,
    right: Seq<Seq<u8>>,
    entries: Seq<TermModel>,
)
    requires
        left.is_prefix_of(right),
        entries_recorded(model, anchored, left, entries),
    ensures
        entries_recorded(model, anchored, right, entries),
{
    assert forall|i: int| 0 <= i < entries.len() implies entry_recorded(
        model,
        anchored,
        right,
        #[trigger] entries[i],
    ) by {
        let entry = entries[i];
        assert(entry_recorded(model, anchored, left, entry));
        let list = entry_list(model, entry)->Some_0;
        list_later(model, left, right, term_number(entry.reference), list);
        if anchored {
            let anchor = Anchor {
                head: entry.head,
                tail: entry.tail,
                last: list.last().incarnation.get(),
            };
            recorded_later(left, right, record_code(anchor.words(term_number(entry.reference))));
        }
    }
}

/// The owners of a page are recorded.
proof fn slots_captured(
    before: CaptureModel,
    image: Image,
    slot: int,
    count: int,
    layout: crate::identity::HeapLayout,
)
    requires
        0 <= slot <= count,
        count == image.owner_count()->Ok_0,
        before.with_slots(image, slot, count, layout) is Ok,
    ensures
        ({
            let after = before.with_slots(image, slot, count, layout)->Ok_0;
            &&& added(before, after)
            &&& owners_recorded(after.records, records(image, layout).skip(slot))
        }),
    decreases count - slot,
{
    let all = records(image, layout);
    if slot < count {
        let owner = image.owner(slot as u16, layout)->Ok_0;
        let next = before.with_owner(owner)->Ok_0;
        let after = before.with_slots(image, slot, count, layout)->Ok_0;
        slots_captured(next, image, slot + 1, count, layout);
        let record = posting_record(0, owner.root, owner.reference);
        if searchable(owner) {
            assert(next.records[before.records.len() as int] == record);
            recorded_later(next.records, after.records, record);
        }
        let rest = all.skip(slot + 1);
        assert(all.skip(slot) =~= seq![owner] + rest);
        assert forall|i: int|
            0 <= i < all.skip(slot).len() && searchable(#[trigger] all.skip(slot)[i]) implies after.records.contains(
            posting_record(0, all.skip(slot)[i].root, all.skip(slot)[i].reference),
        ) by {
            if i > 0 {
                assert(all.skip(slot)[i] == rest[i - 1]);
            }
        }
    } else {
        assert(all.skip(slot) =~= Seq::empty());
    }
}

/// The owners on a chain are recorded.
proof fn owners_captured(before: CaptureModel, model: StoreModel, block: u32, tail: u32)
    requires
        before.with_owners(model, block, tail) is Ok,
    ensures
        ({
            let after = before.with_owners(model, block, tail)->Ok_0;
            &&& added(before, after)
            &&& roster(model, block, tail) matches Some(list) && owners_recorded(
                after.records,
                list,
            )
        }),
    decreases tail - block,
{
    let image = model.load(block, PageKind::Owners)->Ok_0;
    let count = image.owner_count()->Ok_0 as int;
    let next = before.with_slots(image, 0, count, model.layout)->Ok_0;
    let after = before.with_owners(model, block, tail)->Ok_0;
    let here = records(image, model.layout);
    slots_captured(before, image, 0, count, model.layout);
    assert(here.skip(0) =~= here);
    if let Some(following) = following_of(image, tail)->Ok_0 {
        assert(image.block == block);
        owners_captured(next, model, following, tail);
        let rest = roster(model, following, tail)->Some_0;
        owners_later(next.records, after.records, here);
        let list = here + rest;
        assert forall|i: int| 0 <= i < list.len() && searchable(#[trigger] list[i]) implies after.records.contains(
            posting_record(0, list[i].root, list[i].reference),
        ) by {
            if i < here.len() {
                assert(list[i] == here[i]);
            } else {
                assert(list[i] == rest[i - here.len()]);
            }
        }
    }
}

/// Lists that follow each other are recorded where both are.
proof fn lists_recorded(
    model: StoreModel,
    all: Seq<Seq<u8>>,
    term: u64,
    left: Seq<OwnerRef>,
    right: Seq<OwnerRef>,
)
    requires
        list_recorded(model, all, term, left),
        list_recorded(model, all, term, right),
    ensures
        list_recorded(model, all, term, left + right),
{
    let list = left + right;
    assert forall|i: int| 0 <= i < list.len() implies (model.resolved(#[trigger] list[i])
        matches Ok(found) && (found matches Some(root) ==> all.contains(
        posting_record(term, root, list[i]),
    ))) by {
        if i < left.len() {
            assert(list[i] == left[i]);
        } else {
            assert(list[i] == right[i - left.len()]);
        }
    }
}

/// A reference is recorded.
proof fn reference_captured(before: CaptureModel, model: StoreModel, term: u64, owner: OwnerRef)
    requires
        before.with_reference(model, term, owner) is Ok,
    ensures
        ({
            let after = before.with_reference(model, term, owner)->Ok_0;
            added(before, after) && list_recorded(model, after.records, term, seq![owner])
        }),
{
    let after = before.with_reference(model, term, owner)->Ok_0;
    if let Some(root) = model.resolved(owner)->Ok_0 {
        assert(after.records[before.records.len() as int] == posting_record(term, root, owner));
    }
}

/// The references of a page are recorded.
proof fn page_captured(
    before: CaptureModel,
    model: StoreModel,
    term: u64,
    outcomes: Seq<Result<OwnerRef>>,
    previous: OwnerRef,
)
    requires
        before.with_page(model, term, outcomes, previous) is Ok,
    ensures
        ({
            let (after, last) = before.with_page(model, term, outcomes, previous)->Ok_0;
            let list = outcomes.map_values(|outcome: Result<OwnerRef>| outcome->Ok_0);
            &&& added(before, after)
            &&& list_recorded(model, after.records, term, list)
            &&& last == if list.len() > 0 {
                list.last()
            } else {
                previous
            }
        }),
    decreases outcomes.len(),
{
    let pick = |outcome: Result<OwnerRef>| outcome->Ok_0;
    let list = outcomes.map_values(pick);
    let (after, last) = before.with_page(model, term, outcomes, previous)->Ok_0;
    if outcomes.len() > 0 {
        let owner = outcomes[0]->Ok_0;
        let rest = outcomes.drop_first();
        let next = before.with_reference(model, term, owner)->Ok_0;
        reference_captured(before, model, term, owner);
        page_captured(next, model, term, rest, owner);
        list_later(model, next.records, after.records, term, seq![owner]);
        lists_recorded(model, after.records, term, seq![owner], rest.map_values(pick));
        assert(list =~= seq![owner] + rest.map_values(pick));
        if rest.len() > 0 {
            assert(list.last() == rest.map_values(pick).last());
        }
    }
}

/// The references of a chain are recorded.
proof fn chain_captured(
    before: CaptureModel,
    model: StoreModel,
    anchored: bool,
    entry: TermModel,
    block: u32,
    remaining: u32,
    previous: OwnerRef,
)
    requires
        before.with_chain(model, anchored, entry, block, remaining, previous) is Ok,
    ensures
        ({
            let (after, last) = before.with_chain(
                model,
                anchored,
                entry,
                block,
                remaining,
                previous,
            )->Ok_0;
            &&& added(before, after)
            &&& chain_list(model, entry.reference, block, entry.tail, remaining) matches Some(list)
                && {
                &&& list_recorded(model, after.records, term_number(entry.reference), list)
                &&& last == if list.len() > 0 {
                    list.last()
                } else {
                    previous
                }
            }
        }),
    decreases remaining,
{
    let image = model.load_posting(block, entry.reference)->Ok_0;
    let outcomes = image.posting_stream()->Ok_0.outcomes();
    let term = term_number(entry.reference);
    let (next, middle) = before.with_page(model, term, outcomes, previous)->Ok_0;
    let (after, last) = before.with_chain(
        model,
        anchored,
        entry,
        block,
        remaining,
        previous,
    )->Ok_0;
    page_captured(before, model, term, outcomes, previous);
    let here = page_references(image);
    if let Some(following) = posting_next_of(image, entry.tail, remaining)->Ok_0 {
        let left = (remaining - 1) as u32;
        chain_captured(next, model, anchored, entry, following, left, middle);
        let rest = chain_list(model, entry.reference, following, entry.tail, left)->Some_0;
        list_later(model, next.records, after.records, term, here);
        lists_recorded(model, after.records, term, here, rest);
        if rest.len() > 0 {
            assert((here + rest).last() == rest.last());
        } else {
            assert(here + rest =~= here);
        }
    }
}

/// The postings of a term are recorded.
#[verifier::rlimit(60)]
#[verifier::spinoff_prover]
proof fn term_captured(
    before: CaptureModel,
    model: StoreModel,
    anchored: bool,
    bucket: int,
    entry: TermModel,
)
    requires
        before.with_term(model, anchored, bucket, entry) is Ok,
    ensures
        ({
            let after = before.with_term(model, anchored, bucket, entry)->Ok_0;
            &&& added(before, after)
            &&& entry_recorded(model, anchored, after.records, entry)
            &&& term_bucket(entry.term) == bucket
        }),
{
    let term = term_number(entry.reference);
    let next = before.with_reference(model, term, entry.first)->Ok_0;
    let after = before.with_term(model, anchored, bucket, entry)->Ok_0;
    reference_captured(before, model, term, entry.first);
    let list = entry_list(model, entry)->Some_0;
    if entry.head == NO_BLOCK {
        assert(list.last() == entry.first);
        if anchored {
            let anchor = Anchor {
                head: entry.head,
                tail: entry.tail,
                last: entry.first.incarnation.get(),
            };
            assert(after.records[next.records.len() as int] == record_code(anchor.words(term)));
        }
        list_later(model, next.records, after.records, term, list);
    } else {
        let size = model.pages.len() as u32;
        let (later, last) = next.with_chain(
            model,
            anchored,
            entry,
            entry.head,
            size,
            entry.first,
        )->Ok_0;
        chain_captured(next, model, anchored, entry, entry.head, size, entry.first);
        let rest = chain_list(model, entry.reference, entry.head, entry.tail, size)->Some_0;
        list_later(model, next.records, later.records, term, seq![entry.first]);
        lists_recorded(model, later.records, term, seq![entry.first], rest);
        if rest.len() > 0 {
            assert(list.last() == rest.last());
        } else {
            assert(list =~= seq![entry.first]);
        }
        if anchored {
            let anchor = Anchor {
                head: entry.head,
                tail: entry.tail,
                last: last.incarnation.get(),
            };
            assert(after.records[later.records.len() as int] == record_code(anchor.words(term)));
        }
        list_later(model, later.records, after.records, term, list);
    }
}

/// The postings of the terms of a page are recorded.
proof fn terms_captured(
    before: CaptureModel,
    model: StoreModel,
    anchored: bool,
    bucket: int,
    outcomes: Seq<Result<TermModel>>,
)
    requires
        before.with_terms(model, anchored, bucket, outcomes) is Ok,
    ensures
        ({
            let after = before.with_terms(model, anchored, bucket, outcomes)->Ok_0;
            let entries = outcomes.map_values(|outcome: Result<TermModel>| outcome->Ok_0);
            added(before, after) && entries_recorded(model, anchored, after.records, entries)
        }),
    decreases outcomes.len(),
{
    let pick = |outcome: Result<TermModel>| outcome->Ok_0;
    let entries = outcomes.map_values(pick);
    if outcomes.len() > 0 {
        let entry = outcomes[0]->Ok_0;
        let next = before.with_term(model, anchored, bucket, entry)->Ok_0;
        let rest = outcomes.drop_first();
        let after = before.with_terms(model, anchored, bucket, outcomes)->Ok_0;
        term_captured(before, model, anchored, bucket, entry);
        terms_captured(next, model, anchored, bucket, rest);
        let one = seq![entry];
        assert(entries_recorded(model, anchored, next.records, one));
        entries_later(model, anchored, next.records, after.records, one);
        assert forall|i: int| 0 <= i < entries.len() implies entry_recorded(
            model,
            anchored,
            after.records,
            #[trigger] entries[i],
        ) by {
            if i == 0 {
                assert(entries[0] == one[0]);
            } else {
                assert(entries[i] == rest.map_values(pick)[i - 1]);
            }
        }
    }
}

/// The postings of the terms on a dictionary chain are recorded.
proof fn dictionary_captured(
    before: CaptureModel,
    model: StoreModel,
    anchored: bool,
    bucket: int,
    block: u32,
    tail: u32,
)
    requires
        before.with_dictionary(model, anchored, bucket, block, tail) is Ok,
    ensures
        ({
            let after = before.with_dictionary(model, anchored, bucket, block, tail)->Ok_0;
            &&& added(before, after)
            &&& shelf(model, block, tail) matches Some(entries) && entries_recorded(
                model,
                anchored,
                after.records,
                entries,
            )
        }),
    decreases tail - block,
{
    let image = model.load(block, PageKind::Dictionary)->Ok_0;
    let outcomes = image.terms()->Ok_0;
    let next = before.with_terms(model, anchored, bucket, outcomes)->Ok_0;
    let after = before.with_dictionary(model, anchored, bucket, block, tail)->Ok_0;
    terms_captured(before, model, anchored, bucket, outcomes);
    let here = page_entries(image);
    if let Some(following) = following_of(image, tail)->Ok_0 {
        assert(image.block == block);
        dictionary_captured(next, model, anchored, bucket, following, tail);
        let rest = shelf(model, following, tail)->Some_0;
        entries_later(model, anchored, next.records, after.records, here);
        let all = here + rest;
        assert forall|i: int| 0 <= i < all.len() implies entry_recorded(
            model,
            anchored,
            after.records,
            #[trigger] all[i],
        ) by {
            if i < here.len() {
                assert(all[i] == here[i]);
            } else {
                assert(all[i] == rest[i - here.len()]);
            }
        }
    }
}

/// The postings of the terms in some buckets are recorded.
proof fn buckets_captured(
    before: CaptureModel,
    model: StoreModel,
    meta: Image,
    anchored: bool,
    bucket: int,
    wanted: int,
)
    requires
        before.with_buckets(model, meta, anchored, bucket) is Ok,
    ensures
        ({
            let after = before.with_buckets(model, meta, anchored, bucket)->Ok_0;
            &&& added(before, after)
            &&& bucket <= wanted < 512 ==> (meta.bucket(wanted) matches Ok((head, tail)) && (head
                != NO_BLOCK ==> (shelf(model, head, tail) matches Some(entries)
                && entries_recorded(model, anchored, after.records, entries))))
        }),
    decreases 512 - bucket,
{
    if bucket < 512 {
        let (head, tail) = meta.bucket(bucket)->Ok_0;
        let after = before.with_buckets(model, meta, anchored, bucket)->Ok_0;
        if head == NO_BLOCK {
            buckets_captured(before, model, meta, anchored, bucket + 1, wanted);
        } else {
            let next = before.with_dictionary(model, anchored, bucket, head, tail)->Ok_0;
            dictionary_captured(before, model, anchored, bucket, head, tail);
            buckets_captured(next, model, meta, anchored, bucket + 1, wanted);
            entries_later(
                model,
                anchored,
                next.records,
                after.records,
                shelf(model, head, tail)->Some_0,
            );
        }
    }
}

/// A capture misses nothing: every searchable owner is recorded, and under each
/// term every owner of its list that leads to a root. With anchors the last
/// owner of the term's list is recorded too.
#[verifier::rlimit(60)]
#[verifier::spinoff_prover]
pub proof fn captures_miss_nothing(
    model: StoreModel,
    meta: Image,
    anchored: bool,
    text: Seq<u8>,
)
    requires
        model.load(0, PageKind::Meta) == Ok::<Image, Error>(meta),
        captured(model, anchored) is Ok,
    ensures
        ({
            let all = captured(model, anchored)->Ok_0;
            &&& all_owners(model, meta) matches Some(list) && owners_recorded(all.records, list)
            &&& term_shelf(model, meta, text) matches Some(entries) && (entry_of(entries, text)
                matches Some(entry) ==> entry_recorded(model, anchored, all.records, entry))
        }),
{
    let (head, tail) = meta.owner_chain()->Ok_0;
    let owners = if head == NO_BLOCK {
        nothing_captured()
    } else {
        nothing_captured().with_owners(model, head, tail)->Ok_0
    };
    if head != NO_BLOCK {
        owners_captured(nothing_captured(), model, head, tail);
    }
    let all = captured(model, anchored)->Ok_0;
    let bucket = term_bucket(text);
    buckets_captured(owners, model, meta, anchored, 0, bucket as int);
    owners_later(owners.records, all.records, all_owners(model, meta)->Some_0);
    let entries = term_shelf(model, meta, text)->Some_0;
    if let Some(entry) = entry_of(entries, text) {
        let i = choose|i: int| names(entries, text, i);
        assert(entry == entries[i]);
        assert(entry_recorded(model, anchored, all.records, entries[i]));
    }
}

/// Whether all records behind those of a capture are of a kind.
spec fn only(before: CaptureModel, after: CaptureModel, kind: spec_fn(Seq<u8>) -> bool) -> bool {
    forall|i: int|
        before.records.len() <= i < after.records.len() ==> kind(#[trigger] after.records[i])
}

/// Whether the records of the searchable owners of a list are of a kind.
spec fn owners_are(list: Seq<OwnerModel>, kind: spec_fn(Seq<u8>) -> bool) -> bool {
    forall|i: int|
        0 <= i < list.len() && searchable(#[trigger] list[i]) ==> kind(
            posting_record(0, list[i].root, list[i].reference),
        )
}

/// Whether the records of a list of references are of a kind.
spec fn list_is(
    model: StoreModel,
    term: u64,
    list: Seq<OwnerRef>,
    kind: spec_fn(Seq<u8>) -> bool,
) -> bool {
    forall|i: int|
        0 <= i < list.len() ==> (model.resolved(#[trigger] list[i]) matches Ok(Some(root)) ==> kind(
            posting_record(term, root, list[i]),
        ))
}

/// The record of the anchor of a term with the given last owner.
pub open spec fn anchor_record(entry: TermModel, last: OwnerRef) -> Seq<u8> {
    record_code(
        (Anchor { head: entry.head, tail: entry.tail, last: last.incarnation.get() }).words(
            term_number(entry.reference),
        ),
    )
}

/// Whether the records of an entry are of a kind.
spec fn entry_is(
    model: StoreModel,
    anchored: bool,
    entry: TermModel,
    kind: spec_fn(Seq<u8>) -> bool,
) -> bool {
    entry_list(model, entry) matches Some(list) ==> {
        &&& list_is(model, term_number(entry.reference), list, kind)
        &&& anchored ==> kind(anchor_record(entry, list.last()))
    }
}

proof fn slots_only(
    before: CaptureModel,
    image: Image,
    slot: int,
    count: int,
    layout: crate::identity::HeapLayout,
    kind: spec_fn(Seq<u8>) -> bool,
)
    requires
        0 <= slot <= count,
        count == image.owner_count()->Ok_0,
        before.with_slots(image, slot, count, layout) is Ok,
        owners_are(records(image, layout), kind),
    ensures
        only(before, before.with_slots(image, slot, count, layout)->Ok_0, kind),
    decreases count - slot,
{
    if slot < count {
        let owner = image.owner(slot as u16, layout)->Ok_0;
        let next = before.with_owner(owner)->Ok_0;
        assert(records(image, layout)[slot] == owner);
        slots_captured(next, image, slot + 1, count, layout);
        slots_only(next, image, slot + 1, count, layout, kind);
        let after = before.with_slots(image, slot, count, layout)->Ok_0;
        if next.records.len() > before.records.len() {
            assert(after.records[before.records.len() as int] == next.records[before.records.len() as int]);
        }
    }
}

proof fn owners_only(
    before: CaptureModel,
    model: StoreModel,
    block: u32,
    tail: u32,
    kind: spec_fn(Seq<u8>) -> bool,
)
    requires
        before.with_owners(model, block, tail) is Ok,
        roster(model, block, tail) matches Some(list) && owners_are(list, kind),
    ensures
        only(before, before.with_owners(model, block, tail)->Ok_0, kind),
    decreases tail - block,
{
    let image = model.load(block, PageKind::Owners)->Ok_0;
    let count = image.owner_count()->Ok_0 as int;
    let next = before.with_slots(image, 0, count, model.layout)->Ok_0;
    let after = before.with_owners(model, block, tail)->Ok_0;
    let list = roster(model, block, tail)->Some_0;
    let here = records(image, model.layout);
    assert(owners_are(here, kind)) by {
        assert forall|i: int| 0 <= i < here.len() && searchable(#[trigger] here[i]) implies kind(
            posting_record(0, here[i].root, here[i].reference),
        ) by {
            assert(list[i] == here[i]);
        }
    }
    slots_only(before, image, 0, count, model.layout, kind);
    if let Some(following) = following_of(image, tail)->Ok_0 {
        assert(image.block == block);
        let rest = roster(model, following, tail)->Some_0;
        assert(owners_are(rest, kind)) by {
            assert forall|i: int| 0 <= i < rest.len() && searchable(#[trigger] rest[i]) implies kind(
                posting_record(0, rest[i].root, rest[i].reference),
            ) by {
                assert(list[here.len() + i] == rest[i]);
            }
        }
        owners_only(next, model, following, tail, kind);
        owners_captured(next, model, following, tail);
        only_joins(before, next, after, kind);
    }
}

/// What is of a kind twice is of that kind.
proof fn only_joins(
    first: CaptureModel,
    second: CaptureModel,
    third: CaptureModel,
    kind: spec_fn(Seq<u8>) -> bool,
)
    requires
        only(first, second, kind),
        only(second, third, kind),
        added(second, third),
    ensures
        only(first, third, kind),
{
    assert forall|i: int| first.records.len() <= i < third.records.len() implies kind(
        #[trigger] third.records[i],
    ) by {
        if i < second.records.len() {
            assert(third.records[i] == second.records[i]);
        }
    }
}

proof fn list_parts(
    model: StoreModel,
    term: u64,
    left: Seq<OwnerRef>,
    right: Seq<OwnerRef>,
    kind: spec_fn(Seq<u8>) -> bool,
)
    requires
        list_is(model, term, left + right, kind),
    ensures
        list_is(model, term, left, kind),
        list_is(model, term, right, kind),
{
    let list = left + right;
    assert forall|i: int| 0 <= i < left.len() implies (model.resolved(
        #[trigger] left[i],
    ) matches Ok(Some(root)) ==> kind(posting_record(term, root, left[i]))) by {
        assert(list[i] == left[i]);
    }
    assert forall|i: int| 0 <= i < right.len() implies (model.resolved(
        #[trigger] right[i],
    ) matches Ok(Some(root)) ==> kind(posting_record(term, root, right[i]))) by {
        assert(list[left.len() + i] == right[i]);
    }
}

proof fn page_only(
    before: CaptureModel,
    model: StoreModel,
    term: u64,
    outcomes: Seq<Result<OwnerRef>>,
    previous: OwnerRef,
    kind: spec_fn(Seq<u8>) -> bool,
)
    requires
        before.with_page(model, term, outcomes, previous) is Ok,
        list_is(
            model,
            term,
            outcomes.map_values(|outcome: Result<OwnerRef>| outcome->Ok_0),
            kind,
        ),
    ensures
        only(before, before.with_page(model, term, outcomes, previous)->Ok_0.0, kind),
    decreases outcomes.len(),
{
    let pick = |outcome: Result<OwnerRef>| outcome->Ok_0;
    if outcomes.len() > 0 {
        let owner = outcomes[0]->Ok_0;
        let rest = outcomes.drop_first();
        let next = before.with_reference(model, term, owner)->Ok_0;
        let list = outcomes.map_values(pick);
        assert(list =~= seq![owner] + rest.map_values(pick));
        list_parts(model, term, seq![owner], rest.map_values(pick), kind);
        assert(list[0] == owner);
        assert(only(before, next, kind));
        page_captured(next, model, term, rest, owner);
        page_only(next, model, term, rest, owner, kind);
        only_joins(
            before,
            next,
            before.with_page(model, term, outcomes, previous)->Ok_0.0,
            kind,
        );
    }
}

proof fn chain_only(
    before: CaptureModel,
    model: StoreModel,
    anchored: bool,
    entry: TermModel,
    block: u32,
    remaining: u32,
    previous: OwnerRef,
    kind: spec_fn(Seq<u8>) -> bool,
)
    requires
        before.with_chain(model, anchored, entry, block, remaining, previous) is Ok,
        chain_list(model, entry.reference, block, entry.tail, remaining) matches Some(list)
            && list_is(model, term_number(entry.reference), list, kind),
    ensures
        only(
            before,
            before.with_chain(model, anchored, entry, block, remaining, previous)->Ok_0.0,
            kind,
        ),
    decreases remaining,
{
    let image = model.load_posting(block, entry.reference)->Ok_0;
    let outcomes = image.posting_stream()->Ok_0.outcomes();
    let term = term_number(entry.reference);
    let (next, middle) = before.with_page(model, term, outcomes, previous)->Ok_0;
    let (after, last) = before.with_chain(
        model,
        anchored,
        entry,
        block,
        remaining,
        previous,
    )->Ok_0;
    let here = page_references(image);
    match posting_next_of(image, entry.tail, remaining)->Ok_0 {
        None => {
            page_only(before, model, term, outcomes, previous, kind);
        },
        Some(following) => {
            let left = (remaining - 1) as u32;
            let rest = chain_list(model, entry.reference, following, entry.tail, left)->Some_0;
            list_parts(model, term, here, rest, kind);
            page_only(before, model, term, outcomes, previous, kind);
            chain_only(next, model, anchored, entry, following, left, middle, kind);
            chain_captured(next, model, anchored, entry, following, left, middle);
            only_joins(before, next, after, kind);
        },
    }
}

#[verifier::rlimit(60)]
#[verifier::spinoff_prover]
proof fn term_only(
    before: CaptureModel,
    model: StoreModel,
    anchored: bool,
    bucket: int,
    entry: TermModel,
    kind: spec_fn(Seq<u8>) -> bool,
)
    requires
        before.with_term(model, anchored, bucket, entry) is Ok,
        entry_is(model, anchored, entry, kind),
    ensures
        only(before, before.with_term(model, anchored, bucket, entry)->Ok_0, kind),
{
    let term = term_number(entry.reference);
    let next = before.with_reference(model, term, entry.first)->Ok_0;
    let after = before.with_term(model, anchored, bucket, entry)->Ok_0;
    term_captured(before, model, anchored, bucket, entry);
    let list = entry_list(model, entry)->Some_0;
    let one = seq![entry.first];
    if entry.head == NO_BLOCK {
        assert(list[0] == entry.first);
        assert(only(before, next, kind));
        assert(list.last() == entry.first);
    } else {
        let size = model.pages.len() as u32;
        let rest = chain_list(model, entry.reference, entry.head, entry.tail, size)->Some_0;
        list_parts(model, term, one, rest, kind);
        assert(one[0] == entry.first);
        assert(only(before, next, kind));
        let (later, last) = next.with_chain(
            model,
            anchored,
            entry,
            entry.head,
            size,
            entry.first,
        )->Ok_0;
        chain_only(next, model, anchored, entry, entry.head, size, entry.first, kind);
        chain_captured(next, model, anchored, entry, entry.head, size, entry.first);
        only_joins(before, next, later, kind);
        if rest.len() > 0 {
            assert(list.last() == rest.last());
        } else {
            assert(list =~= one);
        }
        assert(last == list.last());
    }
}

proof fn terms_only(
    before: CaptureModel,
    model: StoreModel,
    anchored: bool,
    bucket: int,
    outcomes: Seq<Result<TermModel>>,
    kind: spec_fn(Seq<u8>) -> bool,
)
    requires
        before.with_terms(model, anchored, bucket, outcomes) is Ok,
        forall|i: int|
            0 <= i < outcomes.len() ==> entry_is(
                model,
                anchored,
                (#[trigger] outcomes[i])->Ok_0,
                kind,
            ),
    ensures
        only(before, before.with_terms(model, anchored, bucket, outcomes)->Ok_0, kind),
    decreases outcomes.len(),
{
    if outcomes.len() > 0 {
        let entry = outcomes[0]->Ok_0;
        let next = before.with_term(model, anchored, bucket, entry)->Ok_0;
        let rest = outcomes.drop_first();
        assert forall|i: int| 0 <= i < rest.len() implies entry_is(
            model,
            anchored,
            (#[trigger] rest[i])->Ok_0,
            kind,
        ) by {
            assert(rest[i] == outcomes[i + 1]);
        }
        term_only(before, model, anchored, bucket, entry, kind);
        terms_captured(next, model, anchored, bucket, rest);
        terms_only(next, model, anchored, bucket, rest, kind);
        only_joins(
            before,
            next,
            before.with_terms(model, anchored, bucket, outcomes)->Ok_0,
            kind,
        );
    }
}

proof fn dictionary_only(
    before: CaptureModel,
    model: StoreModel,
    anchored: bool,
    bucket: int,
    block: u32,
    tail: u32,
    kind: spec_fn(Seq<u8>) -> bool,
)
    requires
        before.with_dictionary(model, anchored, bucket, block, tail) is Ok,
        shelf(model, block, tail) matches Some(entries) && forall|i: int|
            0 <= i < entries.len() ==> entry_is(model, anchored, #[trigger] entries[i], kind),
    ensures
        only(before, before.with_dictionary(model, anchored, bucket, block, tail)->Ok_0, kind),
    decreases tail - block,
{
    let image = model.load(block, PageKind::Dictionary)->Ok_0;
    let outcomes = image.terms()->Ok_0;
    let next = before.with_terms(model, anchored, bucket, outcomes)->Ok_0;
    let after = before.with_dictionary(model, anchored, bucket, block, tail)->Ok_0;
    let here = page_entries(image);
    let all = shelf(model, block, tail)->Some_0;
    assert forall|i: int| 0 <= i < outcomes.len() implies entry_is(
        model,
        anchored,
        (#[trigger] outcomes[i])->Ok_0,
        kind,
    ) by {
        assert(here[i] == outcomes[i]->Ok_0);
        assert(all[i] == here[i]);
    }
    terms_only(before, model, anchored, bucket, outcomes, kind);
    if let Some(following) = following_of(image, tail)->Ok_0 {
        assert(image.block == block);
        let rest = shelf(model, following, tail)->Some_0;
        assert forall|i: int| 0 <= i < rest.len() implies entry_is(
            model,
            anchored,
            #[trigger] rest[i],
            kind,
        ) by {
            assert(all[here.len() + i] == rest[i]);
        }
        dictionary_only(next, model, anchored, bucket, following, tail, kind);
        dictionary_captured(next, model, anchored, bucket, following, tail);
        only_joins(before, next, after, kind);
    }
}

/// Whether a bucket of the dictionary has an entry.
pub open spec fn in_bucket(model: StoreModel, meta: Image, bucket: int, entry: TermModel) -> bool {
    meta.bucket(bucket) matches Ok((head, tail)) && head != NO_BLOCK && (shelf(
        model,
        head,
        tail,
    ) matches Some(entries) && entries.contains(entry))
}

proof fn buckets_only(
    before: CaptureModel,
    model: StoreModel,
    meta: Image,
    anchored: bool,
    bucket: int,
    kind: spec_fn(Seq<u8>) -> bool,
)
    requires
        0 <= bucket,
        before.with_buckets(model, meta, anchored, bucket) is Ok,
        forall|at: int, entry: TermModel|
            0 <= at < 512 && #[trigger] in_bucket(model, meta, at, entry) ==> entry_is(
                model,
                anchored,
                entry,
                kind,
            ),
    ensures
        only(before, before.with_buckets(model, meta, anchored, bucket)->Ok_0, kind),
    decreases 512 - bucket,
{
    if bucket < 512 {
        let (head, tail) = meta.bucket(bucket)->Ok_0;
        let after = before.with_buckets(model, meta, anchored, bucket)->Ok_0;
        if head == NO_BLOCK {
            buckets_only(before, model, meta, anchored, bucket + 1, kind);
        } else {
            let next = before.with_dictionary(model, anchored, bucket, head, tail)->Ok_0;
            dictionary_captured(before, model, anchored, bucket, head, tail);
            let entries = shelf(model, head, tail)->Some_0;
            assert forall|i: int| 0 <= i < entries.len() implies entry_is(
                model,
                anchored,
                #[trigger] entries[i],
                kind,
            ) by {
                assert(in_bucket(model, meta, bucket, entries[i]));
            }
            dictionary_only(before, model, anchored, bucket, head, tail, kind);
            buckets_only(next, model, meta, anchored, bucket + 1, kind);
            buckets_captured(next, model, meta, anchored, bucket + 1, 512);
            only_joins(before, next, after, kind);
        }
    }
}

/// Whether a record is that of a searchable owner.
pub open spec fn of_owner(model: StoreModel, meta: Image, record: Seq<u8>) -> bool {
    exists|owner: OwnerModel|
        all_owners(model, meta)->Some_0.contains(owner) && searchable(owner) && record
            == #[trigger] posting_record(0, owner.root, owner.reference)
}

/// Whether a record is that of a posting of a term, or with anchors of its last owner.
pub open spec fn of_entry(
    model: StoreModel,
    anchored: bool,
    entry: TermModel,
    record: Seq<u8>,
) -> bool {
    entry_list(model, entry) matches Some(list) && {
        ||| anchored && record == anchor_record(entry, list.last())
        ||| exists|i: int|
            0 <= i < list.len() && (model.resolved(#[trigger] list[i]) matches Ok(Some(root))
                && record == posting_record(term_number(entry.reference), root, list[i]))
    }
}

/// Whether a record is that of a posting or an anchor of some term.
pub open spec fn of_term(model: StoreModel, meta: Image, anchored: bool, record: Seq<u8>) -> bool {
    exists|bucket: int, entry: TermModel|
        0 <= bucket < 512 && #[trigger] in_bucket(model, meta, bucket, entry) && of_entry(
            model,
            anchored,
            entry,
            record,
        )
}

/// A capture invents nothing: every record is that of a searchable owner, of an
/// owner in the list of a term that leads to a root, or with anchors of the last
/// owner of a term.
#[verifier::rlimit(60)]
#[verifier::spinoff_prover]
pub proof fn captures_invent_nothing(model: StoreModel, meta: Image, anchored: bool, index: int)
    requires
        model.load(0, PageKind::Meta) == Ok::<Image, Error>(meta),
        captured(model, anchored) matches Ok(all) && 0 <= index < all.records.len(),
    ensures
        ({
            let record = captured(model, anchored)->Ok_0.records[index];
            of_owner(model, meta, record) || of_term(model, meta, anchored, record)
        }),
{
    let kind = |record: Seq<u8>|
        of_owner(model, meta, record) || of_term(model, meta, anchored, record);
    let (head, tail) = meta.owner_chain()->Ok_0;
    let nothing = nothing_captured();
    let owners = if head == NO_BLOCK {
        nothing
    } else {
        nothing.with_owners(model, head, tail)->Ok_0
    };
    if head != NO_BLOCK {
        owners_captured(nothing, model, head, tail);
        let list = roster(model, head, tail)->Some_0;
        assert forall|i: int| 0 <= i < list.len() && searchable(#[trigger] list[i]) implies kind(
            posting_record(0, list[i].root, list[i].reference),
        ) by {
            let owner = list[i];
            assert(all_owners(model, meta)->Some_0.contains(owner));
            assert(of_owner(model, meta, posting_record(0, owner.root, owner.reference)));
        }
        owners_only(nothing, model, head, tail, kind);
    }
    let all = captured(model, anchored)->Ok_0;
    assert forall|at: int, entry: TermModel|
        0 <= at < 512 && #[trigger] in_bucket(model, meta, at, entry) implies entry_is(
        model,
        anchored,
        entry,
        kind,
    ) by {
        if let Some(list) = entry_list(model, entry) {
            let term = term_number(entry.reference);
            assert forall|i: int| 0 <= i < list.len() implies (model.resolved(
                #[trigger] list[i],
            ) matches Ok(Some(root)) ==> kind(posting_record(term, root, list[i]))) by {
                if let Ok(Some(root)) = model.resolved(list[i]) {
                    assert(of_entry(model, anchored, entry, posting_record(term, root, list[i])));
                }
            }
            if anchored {
                assert(of_entry(model, anchored, entry, anchor_record(entry, list.last())));
            }
        }
    }
    buckets_only(owners, model, meta, anchored, 0, kind);
    buckets_captured(owners, model, meta, anchored, 0, 512);
    only_joins(nothing, owners, all, kind);
    assert(kind(all.records[index]));
}

} // verus!
