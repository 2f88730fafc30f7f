//! What the terms of a document lead to while the document is linked.

use crate::codec::bytes::group_bytes;
use crate::error::Error;
use crate::identity::group_identity;
use crate::mutable::compact::owners_kept;
use crate::mutable::linking::{
    all_relinked, chain_appended, chain_extended, chain_kept, chain_moved, entry_added, foreign,
    grew, page_linked, pieces_kept, relinked, shelf_appended, shelf_extended, shelf_kept, shelf_relinked,
    stored_reads,
};
use crate::mutable::listing::{
    chain_list, entry_list, entry_of, entry_of_at, entry_of_join, names, page_decodes, page_entries,
    page_references, pages_fit, proper, references_of, shelf, term_found_listed, term_shelf,
};
use crate::mutable::page::laws_link::{
    bucket_set, checked_terms_ok, next_set, posting_appended, posting_started, term_appended,
    term_started,
};
use crate::mutable::page::model::{term_bucket, Image, TermModel, CAPACITY};
use crate::mutable::page::{OwnerRef, PageKind, TermRef, NO_BLOCK};
use crate::mutable::store::{stored, StoreModel};
use crate::mutable::writer::{first_posting, first_term, posting_added, term_added, term_linked};
use vstd::prelude::*;
use vstd::utf8::valid_utf8;

verus! {

broadcast use {group_bytes, group_identity};

/// Whether the metadata at hand is that of the relation, every page fits and
/// no dictionary page is empty.
pub open spec fn orderly(model: StoreModel, meta: Image) -> bool {
    &&& 0 < model.pages.len() <= NO_BLOCK
    &&& meta.kind == PageKind::Meta
    &&& meta.block == 0
    &&& meta.check(model.layout) is Ok
    &&& model.pages[0].kind == PageKind::Meta
    &&& model.pages[0].block == 0
    &&& model.pages[0].bytes == meta.bytes
    &&& pages_fit(model)
    &&& forall|p: int|
        0 <= p < model.pages.len() && (#[trigger] model.pages[p]).kind == PageKind::Dictionary
            ==> model.pages[p].bytes.len() > 16
}

/// Whether an owner follows all references of a list.
pub open spec fn follows_all(owner: OwnerRef, list: Seq<OwnerRef>) -> bool {
    forall|i: int| 0 <= i < list.len() ==> owner.follows(#[trigger] list[i])
}

/// What a term lists once an owner was linked under another or the same term.
pub open spec fn linked_list(list: Seq<OwnerRef>, same: bool, owner: OwnerRef) -> Seq<OwnerRef> {
    if same {
        list.push(owner)
    } else {
        list
    }
}

/// A relinked entry names what it named.
proof fn relinked_entries(entries: Seq<TermModel>, term: TermRef, head: u32, tail: u32, text: Seq<u8>)
    ensures
        proper(entries, text) ==> proper(all_relinked(entries, term, head, tail), text),
        proper(entries, text) ==> entry_of(all_relinked(entries, term, head, tail), text) == (
        match entry_of(entries, text) {
            None => None,
            Some(entry) => Some(relinked(entry, term, head, tail)),
        }),
{
    let more = all_relinked(entries, term, head, tail);
    assert forall|i: int| 0 <= i < entries.len() implies (#[trigger] more[i]).term
        == entries[i].term by {}
    if proper(entries, text) {
        assert(proper(more, text)) by {
            assert forall|i: int| 0 <= i < more.len() implies term_bucket((#[trigger] more[i]).term)
                == term_bucket(text) by {
                assert(entries[i].term == more[i].term);
            }
            assert forall|i: int, j: int| 0 <= i < j < more.len() implies !((
            #[trigger] more[i]).term == text && (#[trigger] more[j]).term == text) by {
                assert(entries[i].term == more[i].term && entries[j].term == more[j].term);
            }
        }
        if exists|i: int| names(entries, text, i) {
            let i = choose|i: int| names(entries, text, i);
            assert(names(more, text, i));
            entry_of_at(entries, text, i);
            entry_of_at(more, text, i);
        } else {
            assert forall|i: int| !names(more, text, i) by {
                assert(names(more, text, i) ==> names(entries, text, i));
            }
        }
    }
}

/// Another bucket's entries come with entries of that bucket.
proof fn nonempty_entries(model: StoreModel, meta: Image, p: u32)
    requires
        orderly(model, meta),
        model.load(p, PageKind::Dictionary) is Ok,
    ensures
        page_entries(model.pages[p as int]).len() > 0,
{
    let image = model.pages[p as int];
    assert(image.bytes.len() > 16);
    checked_terms_ok(image.terms()->Ok_0, 0);
    assert(image.entries().len() > 0);
    assert(image.terms()->Ok_0.len() > 0);
}

/// What a dictionary chain is made of belongs to its bucket, its last page too.
proof fn last_on_shelf(model: StoreModel, block: u32, tail: u32) -> (at: int)
    requires
        shelf(model, block, tail) is Some,
        model.load(tail, PageKind::Dictionary) is Ok,
        page_entries(model.pages[tail as int]).len() > 0,
    ensures
        0 <= at < shelf(model, block, tail)->Some_0.len(),
        shelf(model, block, tail)->Some_0[at] == page_entries(model.pages[tail as int])[0],
    decreases tail - block,
{
    let image = model.load(block, PageKind::Dictionary)->Ok_0;
    if block == tail {
        0
    } else {
        let next = crate::mutable::store::following_of(image, tail)->Ok_0->Some_0;
        let at = last_on_shelf(model, next, tail);
        let rest = shelf(model, next, tail)->Some_0;
        assert((page_entries(image) + rest)[page_entries(image).len() + at] == rest[at]);
        page_entries(image).len() + at
    }
}

/// Whether the posting pages of other terms stay.
pub open spec fn other_postings_kept(before: StoreModel, after: StoreModel, term: TermRef) -> bool {
    forall|p: int|
        #![trigger before.pages[p]]
        0 <= p < before.pages.len() && before.pages[p].holds_postings()
            && before.pages[p].posting_term() != Ok::<TermRef, Error>(term) ==> after.pages[p]
            == before.pages[p]
}

/// An entry of another term lists what it listed.
pub proof fn other_entry_kept(
    before: StoreModel,
    after: StoreModel,
    entry: TermModel,
    term: TermRef,
)
    requires
        grew(before, after),
        after.pages.len() <= NO_BLOCK,
        other_postings_kept(before, after, term),
        entry.reference != term,
        entry_list(before, entry) is Some,
    ensures
        entry_list(after, entry) == entry_list(before, entry),
{
    if entry.head != NO_BLOCK {
        chain_kept(
            before,
            after,
            entry.reference,
            entry.head,
            entry.tail,
            before.pages.len() as u32,
            after.pages.len() as u32,
        );
    }
}

/// Terms with one entry in common are the same.
pub proof fn same_entry(model: StoreModel, meta: Image, left: Seq<u8>, right: Seq<u8>)
    requires
        pages_fit(model),
        references_of(model, meta, left) is Some,
        model.find_term(meta, right) is Ok,
        entry_of(term_shelf(model, meta, left)->Some_0, left) matches Some(one) && (entry_of(
            term_shelf(model, meta, right)->Some_0,
            right,
        ) matches Some(two) && one.reference == two.reference),
    ensures
        left == right,
{
    term_found_listed(model, meta, left);
    term_found_listed(model, meta, right);
    let one = term_shelf(model, meta, left)->Some_0;
    let two = term_shelf(model, meta, right)->Some_0;
    assert(names(one, left, choose|i: int| names(one, left, i)));
    assert(names(two, right, choose|i: int| names(two, right, i)));
}

/// Setting a posting chain changes that one entry of what a term shares its bucket with.
pub proof fn shelf_after_move(
    before: StoreModel,
    after: StoreModel,
    meta: Image,
    text: Seq<u8>,
    term: TermRef,
    head: u32,
    tail: u32,
)
    requires
        chain_moved(before, after, term, head, tail),
        term_shelf(before, meta, text) matches Some(entries) && proper(entries, text),
    ensures
        ({
            let entries = term_shelf(before, meta, text)->Some_0;
            let more = all_relinked(entries, term, head, tail);
            &&& term_shelf(after, meta, text) == Some(more)
            &&& proper(more, text)
            &&& entry_of(more, text) == (match entry_of(entries, text) {
                None => None,
                Some(entry) => Some(relinked(entry, term, head, tail)),
            })
        }),
{
    let entries = term_shelf(before, meta, text)->Some_0;
    let (first, last) = meta.bucket(term_bucket(text))->Ok_0;
    if first != NO_BLOCK {
        shelf_relinked(before, after, first, last, term, head, tail);
    } else {
        assert(all_relinked(entries, term, head, tail) =~= entries);
    }
    relinked_entries(entries, term, head, tail, text);
}

/// Where no dictionary page changes, a term shares its bucket with what it did.
pub proof fn shelf_untouched(before: StoreModel, after: StoreModel, meta: Image, text: Seq<u8>)
    requires
        grew(before, after),
        term_shelf(before, meta, text) matches Some(entries) && proper(entries, text),
        forall|p: int|
            #![trigger before.pages[p]]
            0 <= p < before.pages.len() && before.pages[p].kind == PageKind::Dictionary
                ==> after.pages[p] == before.pages[p],
    ensures
        term_shelf(after, meta, text) == term_shelf(before, meta, text),
{
    let (first, last) = meta.bucket(term_bucket(text))->Ok_0;
    if first != NO_BLOCK {
        shelf_kept(before, after, first, last, term_bucket(text));
    }
}

/// The references of the last page come last on a chain.
proof fn last_on_chain(
    model: StoreModel,
    term: TermRef,
    block: u32,
    tail: u32,
    remaining: u32,
)
    requires
        chain_list(model, term, block, tail, remaining) is Some,
    ensures
        model.load_posting(tail, term) is Ok,
        ({
            let here = page_references(model.pages[tail as int]);
            let all = chain_list(model, term, block, tail, remaining)->Some_0;
            here.len() > 0 ==> all.len() > 0 && all.last() == here.last()
        }),
    decreases remaining,
{
    let image = model.load_posting(block, term)->Ok_0;
    if block != tail {
        let next = crate::mutable::store::posting_next_of(image, tail, remaining)->Ok_0->Some_0;
        last_on_chain(model, term, next, tail, (remaining - 1) as u32);
    }
}

/// How a posting page reads does not depend on whether it is new.
pub proof fn stored_postings(image: Image, layout: crate::identity::HeapLayout)
    requires
        image.kind == PageKind::Postings,
        image.check(layout) is Ok,
    ensures
        stored(image).check(layout) is Ok,
        stored(image).posting_term() == image.posting_term(),
        stored(image).posting_stream() == image.posting_stream(),
        stored(image).next() == image.next(),
        page_references(stored(image)) == page_references(image),
{
}

/// A posting page with one more reference lists it last.
proof fn references_pushed(before: Image, after: Image, owner: OwnerRef)
    requires
        after.posting_stream()->Ok_0.outcomes() == before.posting_stream()->Ok_0.outcomes().push(
            Ok(owner),
        ),
    ensures
        page_references(after) == page_references(before).push(owner),
{
    assert(page_references(after) =~= page_references(before).push(owner));
}

/// Linking an owner under a known term adds it to what that term lists, and
/// leaves what other terms list.
#[verifier::rlimit(60)]
#[verifier::spinoff_prover]
pub proof fn posting_links(
    model: StoreModel,
    meta: Image,
    text: Seq<u8>,
    owner: OwnerRef,
    other: Seq<u8>,
)
    requires
        orderly(model, meta),
        model.find_term(meta, text) matches Ok(Some(_)),
        ({
            let (dictionary, reference) = model.find_term(meta, text)->Ok_0->Some_0;
            posting_added(model, dictionary, reference, owner).value is Ok
        }),
        owner.incarnation.get() != 0,
        references_of(model, meta, other) is Some,
        other == text ==> follows_all(owner, references_of(model, meta, text)->Some_0),
    ensures
        ({
            let (dictionary, reference) = model.find_term(meta, text)->Ok_0->Some_0;
            let after = posting_added(model, dictionary, reference, owner).model;
            let list = references_of(model, meta, other)->Some_0;
            &&& references_of(after, meta, other) == Some(linked_list(list, other == text, owner))
        }),
{
    let (dictionary, reference) = model.find_term(meta, text)->Ok_0->Some_0;
    let after = posting_added(model, dictionary, reference, owner).model;
    term_found_listed(model, meta, text);
    let shared = term_shelf(model, meta, text)->Some_0;
    let entry = entry_of(shared, text)->Some_0;
    assert(dictionary.term(reference) == Ok::<TermModel, Error>(entry));
    assert(dictionary == model.pages[reference.page as int]);
    let layout = model.layout;
    let block = model.pages.len() as u32;
    let mine = term_shelf(model, meta, other)->Some_0;
    let found = entry_of(mine, other);
    if other != text {
        if let Some(one) = found {
            if one.reference == reference {
                same_entry(model, meta, other, text);
            }
        }
    }
    if entry.head == NO_BLOCK {
        let page = first_posting(block, reference, owner)->Ok_0;
        posting_started(block, reference, owner, layout);
        stored_postings(page, layout);
        assert(after.pages[block as int] == stored(page));
        assert(chain_moved(model, after, reference, block, block));
        shelf_after_move(model, after, meta, other, reference, block, block);
        if other == text {
            let linked = relinked(entry, reference, block, block);
            assert(page_references(stored(page)) =~= seq![owner]);
            assert(chain_list(after, reference, block, block, after.pages.len() as u32) == Some(
                seq![owner],
            ));
            assert(seq![entry.first] + seq![owner] =~= seq![entry.first].push(owner));
            assert(entry_list(after, linked) == Some(seq![entry.first].push(owner)));
        } else if let Some(one) = found {
            other_entry_kept(model, after, one, reference);
        }
    } else {
        let last = model.load(entry.tail, PageKind::Postings)->Ok_0;
        assert(last == model.pages[entry.tail as int]);
        if other == text {
            last_on_chain(
                model,
                reference,
                entry.head,
                entry.tail,
                model.pages.len() as u32,
            );
            let rest = chain_list(
                model,
                reference,
                entry.head,
                entry.tail,
                model.pages.len() as u32,
            )->Some_0;
            let list = seq![entry.first] + rest;
            page_decodes(model, entry.tail, reference);
            if page_references(last).len() > 0 {
                assert(list[list.len() - 1] == rest.last());
                assert(owner.follows(list[list.len() - 1]));
            }
        }
        if let Some(page) = last.with_posting(owner)->Ok_0 {
            assert(after.pages[entry.tail as int] == stored(page));
            shelf_untouched(model, after, meta, other);
            if other == text {
                posting_appended(last, owner, layout);
                stored_postings(page, layout);
                references_pushed(last, page, owner);
                chain_appended(
                    model,
                    after,
                    reference,
                    entry.head,
                    entry.tail,
                    model.pages.len() as u32,
                    after.pages.len() as u32,
                    owner,
                );
                let rest = chain_list(
                    model,
                    reference,
                    entry.head,
                    entry.tail,
                    model.pages.len() as u32,
                )->Some_0;
                assert(seq![entry.first] + rest.push(owner) =~= (seq![entry.first] + rest).push(
                    owner,
                ));
            } else if let Some(one) = found {
                other_entry_kept(model, after, one, reference);
            }
        } else {
            let page = first_posting(block, reference, owner)->Ok_0;
            let linked = last.with_next(block)->Ok_0;
            posting_started(block, reference, owner, layout);
            stored_postings(page, layout);
            next_set(last, block, layout);
            stored_postings(linked, layout);
            assert(after.pages[block as int] == stored(page));
            assert(after.pages[entry.tail as int] == stored(linked));
            assert(chain_moved(model, after, reference, entry.head, block));
            shelf_after_move(model, after, meta, other, reference, entry.head, block);
            if other == text {
                assert(page_references(stored(page)) =~= seq![owner]);
                assert(page_references(stored(linked)) == page_references(last));
                chain_extended(
                    model,
                    after,
                    reference,
                    entry.head,
                    entry.tail,
                    block,
                    model.pages.len() as u32,
                    after.pages.len() as u32,
                    owner,
                );
                let rest = chain_list(
                    model,
                    reference,
                    entry.head,
                    entry.tail,
                    model.pages.len() as u32,
                )->Some_0;
                assert(seq![entry.first] + rest.push(owner) =~= (seq![entry.first] + rest).push(
                    owner,
                ));
            } else if let Some(one) = found {
                other_entry_kept(model, after, one, reference);
            }
        }
    }
}

/// An entry lists what it listed where no posting page changes.
proof fn entry_untouched(before: StoreModel, after: StoreModel, entry: TermModel)
    requires
        grew(before, after),
        after.pages.len() <= NO_BLOCK,
        entry_list(before, entry) is Some,
        forall|p: int|
            #![trigger before.pages[p]]
            0 <= p < before.pages.len() && before.pages[p].holds_postings() ==> after.pages[p]
                == before.pages[p],
    ensures
        entry_list(after, entry) == entry_list(before, entry),
{
    if entry.head != NO_BLOCK {
        chain_kept(
            before,
            after,
            entry.reference,
            entry.head,
            entry.tail,
            before.pages.len() as u32,
            after.pages.len() as u32,
        );
    }
}

/// One entry by itself.
proof fn single_entry(entry: TermModel, text: Seq<u8>)
    requires
        term_bucket(entry.term) == term_bucket(text),
    ensures
        proper(seq![entry], text),
        entry_of(seq![entry], text) == (if entry.term == text {
            Some(entry)
        } else {
            None
        }),
{
    if entry.term == text {
        assert(names(seq![entry], text, 0));
        entry_of_at(seq![entry], text, 0);
    }
}

/// What a term lists once a new entry joined its bucket.
proof fn joined_bucket(
    before: StoreModel,
    after: StoreModel,
    entries: Seq<TermModel>,
    entry: TermModel,
    text: Seq<u8>,
)
    requires
        proper(entries, text),
        entry_of(entries, entry.term) is None,
        proper(entries, entry.term),
        term_bucket(entry.term) == term_bucket(text),
    ensures
        proper(entries.push(entry), text),
        entry_of(entries.push(entry), text) == (if entry.term == text {
            Some(entry)
        } else {
            entry_of(entries, text)
        }),
{
    single_entry(entry, text);
    assert(entries.push(entry) =~= entries + seq![entry]);
    entry_of_join(entries, seq![entry], text);
}

/// Linking an owner under a new term makes that term list it alone, and leaves
/// what other terms list.
#[verifier::rlimit(60)]
#[verifier::spinoff_prover]
pub proof fn term_links(
    model: StoreModel,
    meta: Image,
    text: Seq<u8>,
    owner: OwnerRef,
    other: Seq<u8>,
)
    requires
        orderly(model, meta),
        model.find_term(meta, text) == Ok::<Option<(Image, TermRef)>, Error>(None),
        term_added(model, meta, text, owner).value is Ok,
        valid_utf8(text),
        owner.incarnation.get() != 0,
        references_of(model, meta, other) is Some,
    ensures
        ({
            let after = term_added(model, meta, text, owner);
            let list = references_of(model, meta, other)->Some_0;
            references_of(after.model, after.value->Ok_0, other) == Some(
                linked_list(list, other == text, owner),
            )
        }),
{
    let after = term_added(model, meta, text, owner).model;
    let spent = term_added(model, meta, text, owner).value->Ok_0;
    term_found_listed(model, meta, text);
    let bucket = term_bucket(text);
    let (head, tail) = meta.bucket(bucket)->Ok_0;
    let layout = model.layout;
    let block = model.pages.len() as u32;
    let shared = term_shelf(model, meta, text)->Some_0;
    let mine = term_shelf(model, meta, other)->Some_0;
    assert(entry_of(shared, text) is None);
    if let Some(one) = entry_of(mine, other) {
        entry_untouched(model, after, one);
    }
    if head == NO_BLOCK {
        let page = first_term(block, text, owner)->Ok_0;
        term_started(block, text, owner, layout);
        stored_reads(page, layout);
        assert(after.pages[block as int] == stored(page));
        let entry = page.terms()->Ok_0[0]->Ok_0;
        assert(page_entries(stored(page)) =~= seq![entry]);
        bucket_set(meta, bucket, block, block, layout);
        if term_bucket(other) == bucket {
            assert(shelf(after, block, block) == Some(seq![entry]));
            single_entry(entry, other);
            assert(entry_of(mine, other) is None);
            if other == text {
                assert(entry_list(after, entry) == Some(seq![owner]));
                assert(Seq::<OwnerRef>::empty().push(owner) =~= seq![owner]);
            }
        } else {
            shelf_untouched(model, after, meta, other);
            assert(spent.bucket(term_bucket(other)) == meta.bucket(term_bucket(other)));
        }
    } else {
        let last = model.load(tail, PageKind::Dictionary)->Ok_0;
        assert(last == model.pages[tail as int]);
        nonempty_entries(model, meta, tail);
        let at = last_on_shelf(model, head, tail);
        assert(term_bucket(shared[at].term) == bucket);
        if term_bucket(other) != bucket {
            assert(foreign(last, term_bucket(other)));
        }
        if let Some(page) = last.with_term(text, owner)->Ok_0 {
            term_appended(last, text, owner, layout);
            stored_reads(page, layout);
            assert(after.pages[tail as int] == stored(page));
            let entry = page.terms()->Ok_0.last()->Ok_0;
            assert(page_entries(stored(page)) =~= page_entries(last).push(entry));
            if term_bucket(other) == bucket {
                assert(entry_added(model, after, tail, entry));
                shelf_appended(model, after, head, tail, entry);
                joined_bucket(model, after, shared, entry, other);
                if other == text {
                    assert(entry_list(after, entry) == Some(seq![owner]));
                    assert(Seq::<OwnerRef>::empty().push(owner) =~= seq![owner]);
                }
            } else {
                let (first, end) = meta.bucket(term_bucket(other))->Ok_0;
                if first != NO_BLOCK {
                    shelf_kept(model, after, first, end, term_bucket(other));
                }
            }
        } else {
            let page = first_term(block, text, owner)->Ok_0;
            let linked = last.with_next(block)->Ok_0;
            term_started(block, text, owner, layout);
            stored_reads(page, layout);
            next_set(last, block, layout);
            stored_reads(linked, layout);
            assert(after.pages[block as int] == stored(page));
            assert(after.pages[tail as int] == stored(linked));
            let entry = page.terms()->Ok_0[0]->Ok_0;
            assert(page_entries(stored(page)) =~= seq![entry]);
            assert(page_entries(stored(linked)) == page_entries(last));
            bucket_set(meta, bucket, head, block, layout);
            if term_bucket(other) == bucket {
                assert(page_linked(model, after, tail, block, entry));
                shelf_extended(model, after, head, tail, block, entry);
                joined_bucket(model, after, shared, entry, other);
                if other == text {
                    assert(entry_list(after, entry) == Some(seq![owner]));
                    assert(Seq::<OwnerRef>::empty().push(owner) =~= seq![owner]);
                }
            } else {
                assert(spent.bucket(term_bucket(other)) == meta.bucket(term_bucket(other)));
                let (first, end) = meta.bucket(term_bucket(other))->Ok_0;
                if first != NO_BLOCK {
                    shelf_kept(model, after, first, end, term_bucket(other));
                }
            }
        }
    }
}

/// Linking leaves the relation orderly and its owner and fragment pages as they
/// were.
#[verifier::rlimit(60)]
#[verifier::spinoff_prover]
pub proof fn linking_is_orderly(model: StoreModel, meta: Image, text: Seq<u8>, owner: OwnerRef)
    requires
        orderly(model, meta),
        term_linked(model, meta, text, owner).value is Ok,
        valid_utf8(text),
        owner.incarnation.get() != 0,
    ensures
        ({
            let after = term_linked(model, meta, text, owner);
            &&& orderly(after.model, after.value->Ok_0)
            &&& owners_kept(model, after.model)
            &&& pieces_kept(model, after.model)
            &&& after.value->Ok_0.owner_chain() == meta.owner_chain()
        }),
{
    let after = term_linked(model, meta, text, owner).model;
    let layout = model.layout;
    let block = model.pages.len() as u32;
    term_found_listed(model, meta, text);
    match model.find_term(meta, text)->Ok_0 {
        Some((dictionary, reference)) => {
            assert(dictionary == model.pages[reference.page as int]);
            let entry = dictionary.term(reference)->Ok_0;
            assert(owner.code().len() == 16);
            if entry.head == NO_BLOCK {
                let page = first_posting(block, reference, owner)->Ok_0;
                assert(page.bytes.len() <= CAPACITY);
            } else {
                let last = model.load(entry.tail, PageKind::Postings)->Ok_0;
                assert(last == model.pages[entry.tail as int]);
                if last.with_posting(owner)->Ok_0 is None {
                    let page = first_posting(block, reference, owner)->Ok_0;
                    assert(page.bytes.len() <= CAPACITY);
                }
            }
        },
        None => {
            let bucket = term_bucket(text);
            let (head, tail) = meta.bucket(bucket)->Ok_0;
            if head == NO_BLOCK {
                term_started(block, text, owner, layout);
                bucket_set(meta, bucket, block, block, layout);
            } else {
                let last = model.load(tail, PageKind::Dictionary)->Ok_0;
                assert(last == model.pages[tail as int]);
                if last.with_term(text, owner)->Ok_0 is Some {
                    term_appended(last, text, owner, layout);
                } else {
                    term_started(block, text, owner, layout);
                    next_set(last, block, layout);
                    bucket_set(meta, bucket, head, block, layout);
                }
            }
        },
    }
    assert(pages_fit(after)) by {
        assert forall|p: int|
            0 <= p < after.pages.len() && (#[trigger] after.pages[p]).kind
                != PageKind::Meta implies after.pages[p].bytes.len() <= CAPACITY by {
            if p < model.pages.len() {
                assert(model.pages[p].kind != PageKind::Meta ==> model.pages[p].bytes.len() <= CAPACITY);
            }
        }
    }
    assert forall|p: int|
        0 <= p < after.pages.len() && (#[trigger] after.pages[p]).kind
            == PageKind::Dictionary implies after.pages[p].bytes.len() > 16 by {
        if p < model.pages.len() {
            assert(model.pages[p].kind == PageKind::Dictionary ==> model.pages[p].bytes.len() > 16);
        }
    }
}

/// Linking an owner under a term adds it to what that term lists, and leaves
/// what other terms list.
pub proof fn link_lists(
    model: StoreModel,
    meta: Image,
    text: Seq<u8>,
    owner: OwnerRef,
    other: Seq<u8>,
)
    requires
        orderly(model, meta),
        term_linked(model, meta, text, owner).value is Ok,
        valid_utf8(text),
        owner.incarnation.get() != 0,
        references_of(model, meta, other) is Some,
        other == text ==> follows_all(owner, references_of(model, meta, text)->Some_0),
    ensures
        ({
            let after = term_linked(model, meta, text, owner);
            let list = references_of(model, meta, other)->Some_0;
            references_of(after.model, after.value->Ok_0, other) == Some(
                linked_list(list, other == text, owner),
            )
        }),
{
    if model.find_term(meta, text)->Ok_0 is Some {
        posting_links(model, meta, text, owner, other);
    } else {
        term_links(model, meta, text, owner, other);
    }
}

} // verus!
