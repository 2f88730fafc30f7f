//! The conditions that queries are scanned by: as sharp as the terms of
//! documents allow, and met by what scans hand over.

use crate::callbacks::RootItem;
use crate::candidate::CandidatePlan;
use crate::error::Error;
use crate::identity::RootTid;
use crate::mutable::listing::{list_walk, pages_fit, references_of, term_walked};
use crate::mutable::page::model::Image;
use crate::mutable::page::{OwnerModel, OwnerRef, PageKind};
use crate::mutable::query::query_value;
use crate::mutable::reader::searchable;
use crate::mutable::roster::{all_owners, picked, universe_walked};
use crate::mutable::store::StoreModel;
use crate::query::{phrase_at, phrase_present, KindModel, QueryModel};
use crate::text::text_bytes;
use vstd::prelude::*;

verus! {

/// Whether all words of a phrase are words of a document.
pub open spec fn all_words(document: Seq<Seq<u8>>, phrase: Seq<Seq<u8>>) -> bool {
    forall|k: int| 0 <= k < phrase.len() ==> document.contains(#[trigger] phrase[k])
}

/// The phrases among the first nodes of a query whose words a document has, one
/// behind the other.
spec fn possible_phrases(query: QueryModel, document: Seq<Seq<u8>>, n: int) -> Seq<Seq<u8>>
    decreases n,
{
    if n <= 0 {
        Seq::empty()
    } else {
        let front = possible_phrases(query, document, n - 1);
        match query.nodes[n - 1] {
            KindModel::Phrase(terms) => if all_words(document, terms) {
                front + terms
            } else {
                front
            },
            _ => front,
        }
    }
}

/// Such phrases have no other words, and each of them is there.
proof fn phrases_possible(query: QueryModel, document: Seq<Seq<u8>>, n: int, index: int)
    requires
        0 <= n <= query.nodes.len(),
    ensures
        forall|i: int|
            0 <= i < possible_phrases(query, document, n).len() ==> document.contains(
                #[trigger] possible_phrases(query, document, n)[i],
            ),
        0 <= index < n ==> (query.nodes[index] matches KindModel::Phrase(terms) ==> (all_words(
            document,
            terms,
        ) ==> phrase_present(document + possible_phrases(query, document, n), terms))),
    decreases n,
{
    if n > 0 {
        phrases_possible(query, document, n - 1, index);
        let front = possible_phrases(query, document, n - 1);
        let all = possible_phrases(query, document, n);
        if let KindModel::Phrase(terms) = query.nodes[n - 1] {
            if all_words(document, terms) {
                assert forall|i: int| 0 <= i < all.len() implies document.contains(
                    #[trigger] all[i],
                ) by {
                    if i < front.len() {
                        assert(all[i] == front[i]);
                    } else {
                        assert(all[i] == terms[i - front.len()]);
                    }
                }
                let start = (document.len() + front.len()) as int;
                let whole = document + all;
                assert(whole.subrange(start, start + terms.len()) =~= terms);
                assert(phrase_at(whole, terms, start));
            }
        }
        if 0 <= index < n - 1 {
            if let KindModel::Phrase(terms) = query.nodes[index] {
                if all_words(document, terms) {
                    let before = document + front;
                    let whole = document + all;
                    let start = choose|start: int| #[trigger] phrase_at(before, terms, start);
                    assert(whole.subrange(start, start + terms.len()) =~= before.subrange(
                        start,
                        start + terms.len(),
                    ));
                    assert(phrase_at(whole, terms, start));
                }
            }
        }
    }
}

/// The conditions of a query without prefixes and negations are sharp: where
/// they hold of the words of a document, the same words in some order and
/// number satisfy the query.
pub proof fn conditions_are_sharp(query: QueryModel, document: Seq<Seq<u8>>) -> (other: Seq<
    Seq<u8>,
>)
    requires
        query.wf(),
        forall|i: int|
            0 <= i < query.nodes.len() ==> !((#[trigger] query.nodes[i]) is Prefix)
                && !(query.nodes[i] is Not),
        query_value(query, query.root, |term: Seq<u8>| document.contains(term)),
    ensures
        forall|term: Seq<u8>| #[trigger] other.contains(term) == document.contains(term),
        query.holds(other),
{
    let n = query.nodes.len() as int;
    let more = possible_phrases(query, document, n);
    let other = document + more;
    phrases_possible(query, document, n, 0);
    assert forall|term: Seq<u8>| #[trigger] other.contains(term) == document.contains(term) by {
        if document.contains(term) {
            let i = choose|i: int| 0 <= i < document.len() && document[i] == term;
            assert(other[i] == term);
        }
        if other.contains(term) {
            let i = choose|i: int| 0 <= i < other.len() && other[i] == term;
            if i >= document.len() {
                assert(more[i - document.len()] == term);
            }
        }
    }
    sharp_at(query, document, query.root);
    other
}

proof fn sharp_at(query: QueryModel, document: Seq<Seq<u8>>, index: int)
    requires
        query.wf(),
        0 <= index < query.nodes.len(),
        forall|i: int|
            0 <= i < query.nodes.len() ==> !((#[trigger] query.nodes[i]) is Prefix)
                && !(query.nodes[i] is Not),
        query_value(query, index, |term: Seq<u8>| document.contains(term)),
    ensures
        query.holds_at(
            index,
            document + possible_phrases(query, document, query.nodes.len() as int),
        ),
    decreases index,
{
    let n = query.nodes.len() as int;
    let more = possible_phrases(query, document, n);
    let other = document + more;
    let mentioned = |term: Seq<u8>| document.contains(term);
    assert(crate::query::ordered(query.nodes[index], index));
    match query.nodes[index] {
        KindModel::Term(term) => {
            let i = choose|i: int| 0 <= i < document.len() && document[i] == term;
            assert(other[i] == term);
        },
        KindModel::Phrase(terms) => {
            assert forall|k: int| 0 <= k < terms.len() implies document.contains(
                #[trigger] terms[k],
            ) by {
                assert(mentioned(terms[k]));
            }
            phrases_possible(query, document, n, index);
        },
        KindModel::And(left, right) => {
            sharp_at(query, document, left);
            sharp_at(query, document, right);
        },
        KindModel::Or(left, right) => {
            if query_value(query, left, mentioned) {
                sharp_at(query, document, left);
            } else {
                sharp_at(query, document, right);
            }
        },
        _ => {},
    }
}

/// Whether an item is the root of a searchable owner of a list, to be rechecked.
pub open spec fn root_among<T: RootItem>(
    model: StoreModel,
    list: Seq<OwnerRef>,
    item: T,
) -> bool {
    exists|owner: OwnerRef, root: RootTid|
        list.contains(owner) && #[trigger] model.resolved(owner) == Ok::<Option<RootTid>, Error>(
            Some(root),
        ) && item == #[trigger] T::of(root, true)
}

/// What is walked to of a list is of its owners.
proof fn list_roots<T: RootItem>(model: StoreModel, list: Seq<OwnerRef>, k: int)
    requires
        0 <= k < list_walk::<T>(model, list).items.len(),
    ensures
        root_among(model, list, list_walk::<T>(model, list).items[k]),
    decreases list.len(),
{
    let ok = |owner: OwnerRef| Ok::<OwnerRef, Error>(owner);
    let items = list_walk::<T>(model, list).items;
    let outcomes = list.map_values(ok);
    if list.len() > 0 {
        let rest = list.drop_first();
        assert(outcomes[0] == Ok::<OwnerRef, Error>(list[0]));
        assert(outcomes.drop_first() =~= rest.map_values(ok));
        let first = model.resolved_walk::<T>(list[0]);
        let more = list_walk::<T>(model, rest).items;
        if k < first.items.len() {
            assert(items[k] == first.items[k]);
            let root = model.resolved(list[0])->Ok_0->Some_0;
            assert(list.contains(list[0]));
            assert(items[k] == T::of(root, true));
        } else {
            assert(items[k] == more[k - first.items.len()]);
            list_roots::<T>(model, rest, k - first.items.len());
            let (owner, root) = choose|owner: OwnerRef, root: RootTid|
                rest.contains(owner) && #[trigger] model.resolved(owner) == Ok::<
                    Option<RootTid>,
                    Error,
                >(Some(root)) && items[k] == #[trigger] T::of(root, true);
            let i = choose|i: int| 0 <= i < rest.len() && rest[i] == owner;
            assert(list[i + 1] == owner);
            assert(list.contains(owner));
        }
    }
}

/// What is walked to of some terms is of the owners of one of them.
proof fn terms_roots<T: RootItem>(model: StoreModel, meta: Image, terms: Seq<&str>, k: int) -> (i:
    int)
    requires
        pages_fit(model),
        model.terms_walk::<T>(meta, terms).end is Ok,
        0 <= k < model.terms_walk::<T>(meta, terms).items.len(),
    ensures
        0 <= i < terms.len(),
        references_of(model, meta, text_bytes(terms[i])) matches Some(list) && root_among(
            model,
            list,
            model.terms_walk::<T>(meta, terms).items[k],
        ),
    decreases terms.len(),
{
    let text = text_bytes(terms[0]);
    let rest = terms.drop_first();
    term_walked::<T>(model, meta, text);
    let first = model.term_walk::<T>(meta, text).items;
    if k < first.len() {
        list_roots::<T>(model, references_of(model, meta, text)->Some_0, k);
        0
    } else {
        let i = terms_roots::<T>(model, meta, rest, k - first.len());
        assert(rest[i] == terms[i + 1]);
        i + 1
    }
}

/// What is picked of a list is of a searchable owner.
proof fn picked_roots<T: RootItem>(list: Seq<OwnerModel>, k: int) -> (i: int)
    requires
        0 <= k < picked(list, |owner: OwnerModel| T::of(owner.root, true)).len(),
    ensures
        0 <= i < list.len(),
        searchable(list[i]),
        picked(list, |owner: OwnerModel| T::of(owner.root, true))[k] == T::of(list[i].root, true),
    decreases list.len(),
{
    let pick = |owner: OwnerModel| T::of(owner.root, true);
    let front = picked(list.drop_last(), pick);
    if k < front.len() {
        let i = picked_roots::<T>(list.drop_last(), k);
        assert(list.drop_last()[i] == list[i]);
        i
    } else {
        list.len() - 1
    }
}

/// The scan of a cover hands over roots of the cover alone: of searchable owners
/// that stand under one of its terms, or of any searchable owner where it is the
/// universe. All are to be rechecked.
pub proof fn cover_scan_is_of_the_cover<T: RootItem>(
    model: StoreModel,
    meta: Image,
    plan: CandidatePlan<'_>,
    k: int,
)
    requires
        pages_fit(model),
        model.load(0, PageKind::Meta) == Ok::<Image, Error>(meta),
        model.plan_walk::<T>(plan).end is Ok,
        0 <= k < model.plan_walk::<T>(plan).items.len(),
    ensures
        ({
            let item = model.plan_walk::<T>(plan).items[k];
            match plan {
                CandidatePlan::Empty => false,
                CandidatePlan::Universe => all_owners(model, meta) matches Some(list) && exists|
                    i: int,
                |
                    0 <= i < list.len() && searchable(#[trigger] list[i]) && item == T::of(
                        list[i].root,
                        true,
                    ),
                CandidatePlan::Terms(terms) => exists|i: int|
                    0 <= i < terms@.len() && (references_of(
                        model,
                        meta,
                        text_bytes(#[trigger] terms@[i]),
                    ) matches Some(list) && root_among(model, list, item)),
            }
        }),
{
    match plan {
        CandidatePlan::Empty => {},
        CandidatePlan::Universe => {
            let pick = |owner: OwnerModel| T::of(owner.root, true);
            universe_walked(model, meta, pick);
            let list = all_owners(model, meta)->Some_0;
            let i = picked_roots::<T>(list, k);
            assert(searchable(list[i]));
        },
        CandidatePlan::Terms(terms) => {
            let i = terms_roots::<T>(model, meta, terms@, k);
            assert(text_bytes(terms@[i]) == text_bytes(terms@[i]));
        },
    }
}

} // verus!
