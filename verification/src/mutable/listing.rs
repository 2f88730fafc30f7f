//! What terms lead to, as lists: the entries of a dictionary chain, the
//! references of a posting chain and the references of a term.

use crate::callbacks::RootItem;
use crate::error::{Error, Result};
use crate::identity::group_identity;
use crate::mutable::page::laws_link::{checked_postings_ok, checked_terms_ok, offsets_above, offsets_differ};
use crate::mutable::page::model::{term_bucket, term_found, Image, TermModel, CAPACITY};
use crate::mutable::page::{OwnerRef, PageKind, TermRef, NO_BLOCK};
use crate::mutable::store::{entry_named, following_of, posting_next_of, StoreModel};
use crate::mutable::walk::Walk;
use vstd::prelude::*;

verus! {

broadcast use group_identity;

/// The entries of a dictionary page.
pub open spec fn page_entries(image: Image) -> Seq<TermModel> {
    image.terms()->Ok_0.map_values(|outcome: Result<TermModel>| outcome->Ok_0)
}

/// The references of a posting page.
pub open spec fn page_references(image: Image) -> Seq<OwnerRef> {
    image.posting_stream()->Ok_0.outcomes().map_values(|outcome: Result<OwnerRef>| outcome->Ok_0)
}

/// The entries on the dictionary chain from `block` to `tail`, unless it is damaged.
pub open spec fn shelf(model: StoreModel, block: u32, tail: u32) -> Option<Seq<TermModel>>
    decreases tail - block,
{
    match model.load(block, PageKind::Dictionary) {
        Err(_) => None,
        Ok(image) => match following_of(image, tail) {
            Err(_) => None,
            Ok(None) => Some(page_entries(image)),
            Ok(Some(next)) => if block < next <= tail {
                match shelf(model, next, tail) {
                    None => None,
                    Some(rest) => Some(page_entries(image) + rest),
                }
            } else {
                None
            },
        },
    }
}

/// Whether all entries belong to the bucket of a term, and at most one names it.
pub open spec fn proper(entries: Seq<TermModel>, text: Seq<u8>) -> bool {
    &&& forall|i: int|
        0 <= i < entries.len() ==> term_bucket((#[trigger] entries[i]).term) == term_bucket(text)
    &&& forall|i: int, j: int|
        0 <= i < j < entries.len() ==> !((#[trigger] entries[i]).term == text && (
        #[trigger] entries[j]).term == text)
}

/// Whether an entry names a term.
pub open spec fn names(entries: Seq<TermModel>, text: Seq<u8>, i: int) -> bool {
    0 <= i < entries.len() && entries[i].term == text
}

/// The entry that names a term.
pub open spec fn entry_of(entries: Seq<TermModel>, text: Seq<u8>) -> Option<TermModel> {
    if exists|i: int| names(entries, text, i) {
        Some(entries[choose|i: int| names(entries, text, i)])
    } else {
        None
    }
}

/// The one entry that names a term is found, wherever it stands.
pub proof fn entry_of_at(entries: Seq<TermModel>, text: Seq<u8>, i: int)
    requires
        proper(entries, text),
        names(entries, text, i),
    ensures
        entry_of(entries, text) == Some(entries[i]),
{
    let j = choose|j: int| names(entries, text, j);
    assert(names(entries, text, j));
    if i < j {
        assert(!(entries[i].term == text && entries[j].term == text));
    } else if j < i {
        assert(!(entries[j].term == text && entries[i].term == text));
    }
}

/// The references on the posting chain from `block` to `tail` of at most
/// `remaining` pages, unless it is damaged.
pub open spec fn chain_list(
    model: StoreModel,
    term: TermRef,
    block: u32,
    tail: u32,
    remaining: u32,
) -> Option<Seq<OwnerRef>>
    decreases remaining,
{
    match model.load_posting(block, term) {
        Err(_) => None,
        Ok(image) => match posting_next_of(image, tail, remaining) {
            Err(_) => None,
            Ok(None) => Some(page_references(image)),
            Ok(Some(next)) => if remaining > 0 {
                match chain_list(model, term, next, tail, (remaining - 1) as u32) {
                    None => None,
                    Some(rest) => Some(page_references(image) + rest),
                }
            } else {
                None
            },
        },
    }
}

/// The references of an entry, unless its chain is damaged.
pub open spec fn entry_list(model: StoreModel, entry: TermModel) -> Option<Seq<OwnerRef>> {
    if entry.head == NO_BLOCK {
        Some(seq![entry.first])
    } else {
        match chain_list(
            model,
            entry.reference,
            entry.head,
            entry.tail,
            model.pages.len() as u32,
        ) {
            None => None,
            Some(rest) => Some(seq![entry.first] + rest),
        }
    }
}

/// The entries that share a bucket with a term, unless they are damaged.
pub open spec fn term_shelf(model: StoreModel, meta: Image, text: Seq<u8>) -> Option<
    Seq<TermModel>,
> {
    match meta.bucket(term_bucket(text)) {
        Err(_) => None,
        Ok((head, tail)) => if head == NO_BLOCK {
            Some(Seq::empty())
        } else {
            shelf(model, head, tail)
        },
    }
}

/// The references of a term, unless what leads to them is damaged.
pub open spec fn references_of(model: StoreModel, meta: Image, text: Seq<u8>) -> Option<
    Seq<OwnerRef>,
> {
    match term_shelf(model, meta, text) {
        None => None,
        Some(entries) => if !proper(entries, text) {
            None
        } else {
            match entry_of(entries, text) {
                None => Some(Seq::empty()),
                Some(entry) => entry_list(model, entry),
            }
        },
    }
}

/// The roots of the searchable owners of a list.
pub open spec fn list_walk<T: RootItem>(model: StoreModel, list: Seq<OwnerRef>) -> Walk<T> {
    model.references_walk::<T>(list.map_values(|owner: OwnerRef| Ok::<OwnerRef, Error>(owner)))
}

proof fn walks_join<T: RootItem>(
    model: StoreModel,
    left: Seq<Result<OwnerRef>>,
    right: Seq<Result<OwnerRef>>,
)
    ensures
        model.references_walk::<T>(left + right) == model.references_walk::<T>(left).and(
            model.references_walk::<T>(right),
        ),
    decreases left.len(),
{
    if left.len() == 0 {
        assert(left + right =~= right);
        let walk = model.references_walk::<T>(right);
        assert(Walk::<T>::nothing().and(walk) =~= walk);
    } else {
        assert((left + right)[0] == left[0]);
        assert((left + right).drop_first() =~= left.drop_first() + right);
        walks_join::<T>(model, left.drop_first(), right);
        if let Ok(owner) = left[0] {
            let first = model.resolved_walk::<T>(owner);
            let middle = model.references_walk::<T>(left.drop_first());
            let rest = model.references_walk::<T>(right);
            assert(first.and(middle.and(rest)) =~= first.and(middle).and(rest));
        }
    }
}

/// Lists that follow each other are walked one after the other.
pub proof fn lists_join<T: RootItem>(model: StoreModel, left: Seq<OwnerRef>, right: Seq<OwnerRef>)
    ensures
        list_walk::<T>(model, left + right) == list_walk::<T>(model, left).and(
            list_walk::<T>(model, right),
        ),
{
    let ok = |owner: OwnerRef| Ok::<OwnerRef, Error>(owner);
    assert((left + right).map_values(ok) =~= left.map_values(ok) + right.map_values(ok));
    walks_join::<T>(model, left.map_values(ok), right.map_values(ok));
}

/// A walk of one owner.
pub proof fn list_of_one<T: RootItem>(model: StoreModel, owner: OwnerRef)
    ensures
        list_walk::<T>(model, seq![owner]) == model.resolved_walk::<T>(owner),
{
    let ok = |owner: OwnerRef| Ok::<OwnerRef, Error>(owner);
    let outcomes = seq![owner].map_values(ok);
    assert(outcomes[0] == Ok::<OwnerRef, Error>(owner));
    assert(outcomes.drop_first() =~= Seq::empty());
    let walk = model.resolved_walk::<T>(owner);
    assert(model.references_walk::<T>(outcomes.drop_first()) == Walk::<T>::nothing());
    assert(walk.and(Walk::nothing()) =~= walk);
}

/// A list whose walk ends well leads to owners.
pub proof fn list_resolves<T: RootItem>(model: StoreModel, list: Seq<OwnerRef>)
    requires
        list_walk::<T>(model, list).end is Ok,
    ensures
        forall|i: int| 0 <= i < list.len() ==> model.resolved(#[trigger] list[i]) is Ok,
    decreases list.len(),
{
    let ok = |owner: OwnerRef| Ok::<OwnerRef, Error>(owner);
    if list.len() > 0 {
        let outcomes = list.map_values(ok);
        assert(outcomes[0] == Ok::<OwnerRef, Error>(list[0]));
        assert(outcomes.drop_first() =~= list.drop_first().map_values(ok));
        assert(model.resolved(list[0]) is Ok);
        list_resolves::<T>(model, list.drop_first());
        assert forall|i: int| 0 <= i < list.len() implies model.resolved(#[trigger] list[i])
            is Ok by {
            if i > 0 {
                assert(list[i] == list.drop_first()[i - 1]);
            }
        }
    }
}

/// A list is walked alike where its owners resolve alike.
pub proof fn list_alike<T: RootItem>(before: StoreModel, after: StoreModel, list: Seq<OwnerRef>)
    requires
        forall|i: int|
            0 <= i < list.len() ==> after.resolved(#[trigger] list[i]) == before.resolved(list[i]),
    ensures
        list_walk::<T>(after, list) == list_walk::<T>(before, list),
    decreases list.len(),
{
    let ok = |owner: OwnerRef| Ok::<OwnerRef, Error>(owner);
    if list.len() > 0 {
        let outcomes = list.map_values(ok);
        assert(outcomes[0] == Ok::<OwnerRef, Error>(list[0]));
        assert(outcomes.drop_first() =~= list.drop_first().map_values(ok));
        assert(after.resolved(list[0]) == before.resolved(list[0]));
        assert forall|i: int| 0 <= i < list.drop_first().len() implies after.resolved(
            #[trigger] list.drop_first()[i],
        ) == before.resolved(list.drop_first()[i]) by {
            assert(list.drop_first()[i] == list[i + 1]);
        }
        list_alike::<T>(before, after, list.drop_first());
    }
}

/// The references of a loaded posting page are what its stream decodes to.
pub proof fn page_decodes(model: StoreModel, block: u32, term: TermRef)
    requires
        model.load_posting(block, term) is Ok,
    ensures
        ({
            let image = model.load_posting(block, term)->Ok_0;
            &&& image.posting_stream() is Ok
            &&& image.posting_stream()->Ok_0.outcomes() == page_references(image).map_values(
                |owner: OwnerRef| Ok::<OwnerRef, Error>(owner),
            )
        }),
{
    let image = model.load_posting(block, term)->Ok_0;
    let outcomes = image.posting_stream()->Ok_0.outcomes();
    checked_postings_ok(outcomes, 0, None);
    assert(outcomes =~= page_references(image).map_values(
        |owner: OwnerRef| Ok::<OwnerRef, Error>(owner),
    ));
}

/// A posting chain is walked as its list is, and can be walked to its end only
/// where it has one.
pub proof fn chain_walked<T: RootItem>(
    model: StoreModel,
    term: TermRef,
    block: u32,
    tail: u32,
    remaining: u32,
)
    ensures
        chain_list(model, term, block, tail, remaining) matches Some(list)
            ==> model.chain_walk::<T>(term, block, tail, remaining) == list_walk::<T>(model, list),
        model.chain_walk::<T>(term, block, tail, remaining).end is Ok ==> chain_list(
            model,
            term,
            block,
            tail,
            remaining,
        ) is Some,
    decreases remaining,
{
    if let Ok(image) = model.load_posting(block, term) {
        page_decodes(model, block, term);
        let here = page_references(image);
        let walk = list_walk::<T>(model, here);
        match posting_next_of(image, tail, remaining) {
            Err(_) => {},
            Ok(None) => {
                if let Ok(end) = walk.end {
                    assert(end == ());
                }
                assert(walk.and(Walk::<T>::nothing()) =~= walk);
            },
            Ok(Some(next)) => {
                if remaining > 0 {
                    let left = (remaining - 1) as u32;
                    chain_walked::<T>(model, term, next, tail, left);
                    if let Some(rest) = chain_list(model, term, next, tail, left) {
                        lists_join::<T>(model, here, rest);
                    }
                }
            },
        }
    }
}

proof fn named_among(outcomes: Seq<Result<TermModel>>, text: Seq<u8>, met: bool)
    requires
        forall|i: int| 0 <= i < outcomes.len() ==> (#[trigger] outcomes[i]) is Ok,
    ensures
        ({
            let entries = outcomes.map_values(|outcome: Result<TermModel>| outcome->Ok_0);
            &&& entry_named(outcomes, text, met) is Ok <==> proper(entries, text) && (met ==> entry_of(
                entries,
                text,
            ) is None)
            &&& entry_named(outcomes, text, met) matches Ok(found) ==> match entry_of(entries, text) {
                None => found is None,
                Some(entry) => found == Some(entry.reference),
            }
        }),
    decreases outcomes.len(),
{
    let pick = |outcome: Result<TermModel>| outcome->Ok_0;
    let entries = outcomes.map_values(pick);
    if outcomes.len() > 0 {
        assert(outcomes[0] is Ok);
        let entry = outcomes[0]->Ok_0;
        assert(entries[0] == entry);
        let rest = outcomes.drop_first();
        assert forall|i: int| 0 <= i < rest.len() implies (#[trigger] rest[i]) is Ok by {
            assert(rest[i] == outcomes[i + 1]);
        }
        let others = rest.map_values(pick);
        assert(others =~= entries.drop_first());
        let named = entry.term == text;
        named_among(rest, text, met || named);
        assert forall|i: int| #[trigger] names(others, text, i) implies names(entries, text, i + 1) by {}
        assert forall|i: int| #[trigger] names(entries, text, i) && i > 0 implies names(
            others,
            text,
            i - 1,
        ) by {}
        if proper(entries, text) {
            assert(proper(others, text)) by {
                assert forall|i: int| 0 <= i < others.len() implies term_bucket(
                    (#[trigger] others[i]).term,
                ) == term_bucket(text) by {
                    assert(others[i] == entries[i + 1]);
                }
                assert forall|i: int, j: int| 0 <= i < j < others.len() implies !((
                #[trigger] others[i]).term == text && (#[trigger] others[j]).term == text) by {
                    assert(others[i] == entries[i + 1]);
                    assert(others[j] == entries[j + 1]);
                }
            }
            if named {
                assert(names(entries, text, 0));
                entry_of_at(entries, text, 0);
                assert forall|i: int| !names(others, text, i) by {
                    if names(others, text, i) {
                        assert(entries[i + 1] == others[i]);
                        assert(!(entries[0].term == text && entries[i + 1].term == text));
                    }
                }
            } else if exists|i: int| names(others, text, i) {
                let i = choose|i: int| names(others, text, i);
                entry_of_at(others, text, i);
                entry_of_at(entries, text, i + 1);
            }
        }
        if proper(others, text) && term_bucket(entry.term) == term_bucket(text) && (named ==> entry_of(
            others,
            text,
        ) is None) {
            assert(proper(entries, text)) by {
                assert forall|i: int| 0 <= i < entries.len() implies term_bucket(
                    (#[trigger] entries[i]).term,
                ) == term_bucket(text) by {
                    if i > 0 {
                        assert(entries[i] == others[i - 1]);
                    }
                }
                assert forall|i: int, j: int| 0 <= i < j < entries.len() implies !((
                #[trigger] entries[i]).term == text && (#[trigger] entries[j]).term == text) by {
                    assert(entries[j] == others[j - 1]);
                    if i > 0 {
                        assert(entries[i] == others[i - 1]);
                    } else if entries[0].term == text && entries[j].term == text {
                        assert(names(others, text, j - 1));
                    }
                }
            }
        }
        if !(term_bucket(entry.term) == term_bucket(text)) {
            assert(!proper(entries, text));
        }
    } else {
        assert(proper(entries, text));
    }
}

/// Entries that follow each other name a term where one part does.
pub proof fn entry_of_join(left: Seq<TermModel>, right: Seq<TermModel>, text: Seq<u8>)
    ensures
        proper(left + right, text) <==> proper(left, text) && proper(right, text) && !(entry_of(
            left,
            text,
        ) is Some && entry_of(right, text) is Some),
        proper(left + right, text) ==> entry_of(left + right, text) == (match entry_of(left, text) {
            Some(entry) => Some(entry),
            None => entry_of(right, text),
        }),
{
    let all = left + right;
    let n = left.len() as int;
    assert forall|i: int| #[trigger] names(left, text, i) implies names(all, text, i) by {}
    assert forall|i: int| #[trigger] names(right, text, i) implies names(all, text, i + n) by {}
    assert forall|i: int| #[trigger] names(all, text, i) && i < n implies names(left, text, i) by {}
    assert forall|i: int| #[trigger] names(all, text, i) && i >= n implies names(
        right,
        text,
        i - n,
    ) by {}
    if proper(all, text) {
        assert forall|i: int| 0 <= i < left.len() implies term_bucket((#[trigger] left[i]).term)
            == term_bucket(text) by {
            assert(all[i] == left[i]);
        }
        assert forall|i: int| 0 <= i < right.len() implies term_bucket((#[trigger] right[i]).term)
            == term_bucket(text) by {
            assert(all[i + n] == right[i]);
        }
        assert forall|i: int, j: int| 0 <= i < j < left.len() implies !((
        #[trigger] left[i]).term == text && (#[trigger] left[j]).term == text) by {
            assert(all[i] == left[i] && all[j] == left[j]);
        }
        assert forall|i: int, j: int| 0 <= i < j < right.len() implies !((
        #[trigger] right[i]).term == text && (#[trigger] right[j]).term == text) by {
            assert(all[i + n] == right[i] && all[j + n] == right[j]);
        }
        if exists|i: int| names(left, text, i) {
            let i = choose|i: int| names(left, text, i);
            assert(names(all, text, i));
            entry_of_at(left, text, i);
            entry_of_at(all, text, i);
            assert forall|j: int| !names(right, text, j) by {
                if names(right, text, j) {
                    assert(all[i] == left[i] && all[j + n] == right[j]);
                }
            }
        } else if exists|i: int| names(right, text, i) {
            let i = choose|i: int| names(right, text, i);
            assert(names(all, text, i + n));
            entry_of_at(right, text, i);
            entry_of_at(all, text, i + n);
        }
    }
    if proper(left, text) && proper(right, text) && !(entry_of(left, text) is Some && entry_of(
        right,
        text,
    ) is Some) {
        assert forall|i: int| 0 <= i < all.len() implies term_bucket((#[trigger] all[i]).term)
            == term_bucket(text) by {
            if i >= n {
                assert(all[i] == right[i - n]);
            } else {
                assert(all[i] == left[i]);
            }
        }
        assert forall|i: int, j: int| 0 <= i < j < all.len() implies !((#[trigger] all[i]).term
            == text && (#[trigger] all[j]).term == text) by {
            if all[i].term == text && all[j].term == text {
                assert(names(all, text, i));
                assert(names(all, text, j));
                if i >= n {
                    assert(all[i] == right[i - n] && all[j] == right[j - n]);
                } else if j < n {
                    assert(all[i] == left[i] && all[j] == left[j]);
                } else {
                    assert(names(left, text, i));
                    assert(names(right, text, j - n));
                }
            }
        }
    }
}

/// Whether no page behind the metadata holds more than fits.
pub open spec fn pages_fit(model: StoreModel) -> bool {
    forall|p: int|
        0 <= p < model.pages.len() && (#[trigger] model.pages[p]).kind != PageKind::Meta
            ==> model.pages[p].bytes.len() <= CAPACITY
}

proof fn term_found_of(outcomes: Seq<Result<TermModel>>, index: int, i: int)
    requires
        0 <= index <= i < outcomes.len(),
        forall|k: int| 0 <= k < outcomes.len() ==> (#[trigger] outcomes[k]) is Ok,
        forall|k: int|
            0 <= k < i ==> (#[trigger] outcomes[k])->Ok_0.reference != outcomes[i]->Ok_0.reference,
    ensures
        term_found(outcomes, index, outcomes[i]->Ok_0.reference) == outcomes[i],
    decreases i - index,
{
    assert(outcomes[index] is Ok);
    if index < i {
        assert(outcomes[index]->Ok_0.reference != outcomes[i]->Ok_0.reference);
        term_found_of(outcomes, index + 1, i);
    }
}

/// An entry of a sound dictionary page reads back by its reference.
pub proof fn entry_reads_back(image: Image, layout: crate::identity::HeapLayout, i: int)
    requires
        image.kind == PageKind::Dictionary,
        16 <= image.bytes.len() <= CAPACITY,
        image.check(layout) is Ok,
        0 <= i < page_entries(image).len(),
    ensures
        image.term(page_entries(image)[i].reference) == Ok::<TermModel, Error>(
            page_entries(image)[i],
        ),
        page_entries(image)[i].reference.page == image.block,
{
    let outcomes = image.terms()->Ok_0;
    checked_terms_ok(outcomes, 0);
    offsets_above(image.block, image.entries(), 0);
    assert(outcomes[i]->Ok_0 == page_entries(image)[i]);
    assert forall|k: int| 0 <= k < i implies (#[trigger] outcomes[k])->Ok_0.reference
        != outcomes[i]->Ok_0.reference by {
        offsets_differ(image.block, image.entries(), 0, k, i);
    }
    term_found_of(outcomes, 0, i);
}

/// Whether a lookup found an entry, or nothing but what was found before.
pub open spec fn found_as(
    model: StoreModel,
    found: Option<(Image, TermRef)>,
    entry: Option<TermModel>,
    before: Option<(Image, TermRef)>,
) -> bool {
    match entry {
        None => found == before,
        Some(entry) => found matches Some((image, reference)) && (reference == entry.reference
            && reference.page == image.block && image.term(reference) == Ok::<TermModel, Error>(
            entry,
        ) && model.load(image.block, PageKind::Dictionary) == Ok::<Image, Error>(image)),
    }
}

/// A lookup along a dictionary chain finds what the chain lists.
pub proof fn found_on_shelf(
    model: StoreModel,
    text: Seq<u8>,
    block: u32,
    tail: u32,
    found: Option<(Image, TermRef)>,
)
    requires
        pages_fit(model),
    ensures
        model.find_from(text, block, tail, found) is Ok <==> (shelf(model, block, tail) matches Some(
            entries,
        ) && (proper(entries, text) && (found is Some ==> entry_of(entries, text) is None))),
        model.find_from(text, block, tail, found) matches Ok(result) ==> found_as(
            model,
            result,
            entry_of(shelf(model, block, tail)->Some_0, text),
            found,
        ),
    decreases tail - block,
{
    if let Ok(image) = model.load(block, PageKind::Dictionary) {
        let outcomes = image.terms()->Ok_0;
        let here = page_entries(image);
        assert(model.pages[block as int].bytes.len() <= CAPACITY);
        checked_terms_ok(outcomes, 0);
        named_among(outcomes, text, found is Some);
        assert(image.bytes.len() >= 16);
        if entry_named(outcomes, text, found is Some) is Ok {
            if let Some(entry) = entry_of(here, text) {
                let i = choose|i: int| names(here, text, i);
                entry_reads_back(image, model.layout, i);
            }
            let reference = entry_named(outcomes, text, found is Some)->Ok_0;
            let more = match reference {
                Some(reference) => Some((image, reference)),
                None => found,
            };
            if let Ok(Some(next)) = following_of(image, tail) {
                found_on_shelf(model, text, next, tail, more);
                if let Some(rest) = shelf(model, next, tail) {
                    entry_of_join(here, rest, text);
                }
            }
        } else if let Ok(Some(next)) = following_of(image, tail) {
            if let Some(rest) = shelf(model, next, tail) {
                entry_of_join(here, rest, text);
            }
        }
    }
}

/// A term is found as its bucket lists it.
pub proof fn term_found_listed(model: StoreModel, meta: Image, text: Seq<u8>)
    requires
        pages_fit(model),
    ensures
        model.find_term(meta, text) is Ok <==> (term_shelf(model, meta, text) matches Some(entries)
            && proper(entries, text)),
        model.find_term(meta, text) matches Ok(result) ==> found_as(
            model,
            result,
            entry_of(term_shelf(model, meta, text)->Some_0, text),
            None,
        ),
{
    if let Ok((head, tail)) = meta.bucket(term_bucket(text)) {
        if head != NO_BLOCK {
            found_on_shelf(model, text, head, tail, None);
        } else {
            let none = Seq::<TermModel>::empty();
            assert(proper(none, text));
            assert(entry_of(none, text) is None);
        }
    }
}

/// A term is walked as its list of references is, and can be walked to its end
/// only where it has one.
pub proof fn term_walked<T: RootItem>(model: StoreModel, meta: Image, text: Seq<u8>)
    requires
        pages_fit(model),
    ensures
        references_of(model, meta, text) matches Some(list) ==> model.term_walk::<T>(meta, text)
            == list_walk::<T>(model, list),
        model.term_walk::<T>(meta, text).end is Ok ==> references_of(model, meta, text) is Some,
{
    term_found_listed(model, meta, text);
    if let Some(entries) = term_shelf(model, meta, text) {
        if proper(entries, text) {
            match entry_of(entries, text) {
                None => {
                    let none = Seq::<OwnerRef>::empty();
                    assert(none.map_values(|owner: OwnerRef| Ok::<OwnerRef, Error>(owner))
                        =~= Seq::empty());
                },
                Some(entry) => {
                    list_of_one::<T>(model, entry.first);
                    let first = model.resolved_walk::<T>(entry.first);
                    if entry.head == NO_BLOCK {
                        assert(first.and(Walk::nothing()) =~= first);
                    } else {
                        let remaining = model.pages.len() as u32;
                        chain_walked::<T>(
                            model,
                            entry.reference,
                            entry.head,
                            entry.tail,
                            remaining,
                        );
                        if let Some(rest) = chain_list(
                            model,
                            entry.reference,
                            entry.head,
                            entry.tail,
                            remaining,
                        ) {
                            lists_join::<T>(model, seq![entry.first], rest);
                        }
                    }
                },
            }
        }
    }
}

} // verus!
