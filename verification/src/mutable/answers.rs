//! What scans of queries hand over: every owner whose document satisfies the
//! query, and without a recheck none whose document does not.

use crate::callbacks::{Found, RootItem};
use crate::candidate::{listed, plan_covers_matches, CandidatePlan};
use crate::codec::bytes::group_bytes;
use crate::error::{Error, Result};
use crate::identity::{group_identity, RootTid};
use crate::mutable::counting::{cover_terms_are_named, indexed};
use crate::mutable::lists::{page_resumed, term_list_is_references};
use crate::mutable::listing::{
    chain_list, entry_of, list_walk, page_decodes, page_references, pages_fit, references_of,
    term_found_listed, term_shelf, term_walked,
};
use crate::mutable::page::model::Image;
use crate::mutable::page::postings::resumed_page;
use crate::mutable::page::{OwnerModel, OwnerRef, PageKind, TermRef, NO_BLOCK};
use crate::mutable::query::{
    covered_by, covered_scan, direct_record, direct_walk, directly_named, flat, kind_names,
    listed_under, listing, necessary, planned_scan, positive, query_told, query_texts, query_value,
    rechecked, root_shown, scanned, selected, shown, single_phrase, sufficient, term_list,
    term_reference, terms_of, undamaged, universal,
};
use crate::mutable::reader::searchable;
use crate::mutable::roster::{all_owners, picked, universe_walked};
use crate::mutable::store::{posting_next_of, StoreModel};
use crate::query::{KindModel, QueryModel};
use crate::text::text_bytes;
use vstd::prelude::*;

verus! {

broadcast use {group_bytes, group_identity};

/// The flag that a scan hands over without a recheck is true to the query: a
/// document satisfies the conditions on its terms just where it satisfies the
/// query.
pub proof fn unrechecked_is_exact(query: QueryModel, document: Seq<Seq<u8>>)
    requires
        query.wf(),
        !rechecked(query),
    ensures
        query_value(query, query.root, |term: Seq<u8>| document.contains(term)) == query.holds(
            document,
        ),
{
    assert forall|i: int| 0 <= i < query.nodes.len() implies positive(#[trigger] query.nodes[i]) by {
        if !positive(query.nodes[i]) {
            assert(rechecked(query));
        }
    }
    sufficient(query, query.root, document);
}

/// A recheck is asked for where a phrase, a prefix or a negation stands in the
/// query, and nowhere else.
pub proof fn recheck_is_for_approximations(query: QueryModel)
    ensures
        rechecked(query) <==> exists|i: int|
            0 <= i < query.nodes.len() && match #[trigger] query.nodes[i] {
                KindModel::Phrase(_) => true,
                KindModel::Prefix(_) => true,
                KindModel::Not(_) => true,
                _ => false,
            },
{
}

/// An owner stands under the terms of the query that its document mentions.
proof fn listed_as_indexed(
    model: StoreModel,
    meta: Image,
    query: QueryModel,
    owner: OwnerRef,
    document: Seq<Seq<u8>>,
    term: Seq<u8>,
)
    requires
        pages_fit(model),
        undamaged(model, meta, query_texts(query)),
        indexed(model, meta, query_texts(query), owner, document),
        query_texts(query).contains(term),
    ensures
        listed_under(model, meta, owner, term) == document.contains(term),
{
    reveal(undamaged);
    assert(term_list(model, meta, term) is Some);
    term_list_is_references(model, meta, term);
}

/// The conditions of a query hold of an owner where they hold of its document.
pub(crate) proof fn value_indexed(
    model: StoreModel,
    meta: Image,
    query: QueryModel,
    index: int,
    owner: OwnerRef,
    document: Seq<Seq<u8>>,
)
    requires
        pages_fit(model),
        query.wf(),
        0 <= index < query.nodes.len(),
        undamaged(model, meta, query_texts(query)),
        indexed(model, meta, query_texts(query), owner, document),
    ensures
        query_value(query, index, terms_of(model, meta, owner)) == query_value(
            query,
            index,
            |term: Seq<u8>| document.contains(term),
        ),
    decreases index,
{
    assert(crate::query::ordered(query.nodes[index], index));
    let under = terms_of(model, meta, owner);
    match query.nodes[index] {
        KindModel::Term(term) => {
            assert(kind_names(query.nodes[index], term));
            listed_as_indexed(model, meta, query, owner, document, term);
        },
        KindModel::Phrase(terms) => {
            assert forall|k: int| 0 <= k < terms.len() implies under(#[trigger] terms[k])
                == document.contains(terms[k]) by {
                assert(kind_names(query.nodes[index], terms[k]));
                listed_as_indexed(model, meta, query, owner, document, terms[k]);
            }
            let mentioned = |term: Seq<u8>| document.contains(term);
            if query_value(query, index, under) {
                assert forall|k: int| 0 <= k < terms.len() implies mentioned(
                    #[trigger] terms[k],
                ) by {
                    assert(under(terms[k]));
                }
            }
            if query_value(query, index, mentioned) {
                assert forall|k: int| 0 <= k < terms.len() implies under(#[trigger] terms[k]) by {
                    assert(mentioned(terms[k]));
                }
            }
        },
        KindModel::And(left, right) => {
            value_indexed(model, meta, query, left, owner, document);
            value_indexed(model, meta, query, right, owner, document);
        },
        KindModel::Or(left, right) => {
            value_indexed(model, meta, query, left, owner, document);
            value_indexed(model, meta, query, right, owner, document);
        },
        _ => {},
    }
}

/// What is handed over of one owner is handed over of all.
pub(crate) proof fn flat_holds<T>(items: Seq<Option<T>>, i: int)
    requires
        0 <= i < items.len(),
        items[i] is Some,
    ensures
        flat(items).contains(items[i]->Some_0),
    decreases items.len(),
{
    let front = items.drop_last();
    let all = flat(items);
    if i == items.len() - 1 {
        assert(all[all.len() - 1] == items[i]->Some_0);
    } else {
        assert(front[i] == items[i]);
        flat_holds(front, i);
        let k = choose|k: int| 0 <= k < flat(front).len() && flat(front)[k] == items[i]->Some_0;
        assert(all[k] == flat(front)[k]);
    }
}

/// What is handed over of all is handed over of one.
pub(crate) proof fn flat_from<T>(items: Seq<Option<T>>, k: int) -> (i: int)
    requires
        0 <= k < flat(items).len(),
    ensures
        0 <= i < items.len(),
        items[i] == Some(flat(items)[k]),
    decreases items.len(),
{
    let front = items.drop_last();
    if k < flat(front).len() {
        let i = flat_from(front, k);
        assert(front[i] == items[i]);
        i
    } else {
        items.len() - 1
    }
}

/// Whether a root is that of an owner's record, or the one that a direct page of
/// a term names for it.
pub open spec fn named_root(
    model: StoreModel,
    term: TermRef,
    owner: OwnerRef,
    root: RootTid,
) -> bool {
    ||| model.resolved(owner) == Ok::<Option<RootTid>, Error>(Some(root))
    ||| exists|block: u32, slot: int| #[trigger]
        direct_record(model, term, block, slot, owner, Some(root))
}

/// Whether an item is the root of an owner of a list, proved.
pub open spec fn proved_under<T: RootItem>(
    model: StoreModel,
    term: TermRef,
    list: Seq<OwnerRef>,
    item: T,
) -> bool {
    exists|owner: OwnerRef, root: RootTid|
        list.contains(owner) && #[trigger] named_root(model, term, owner, root) && item == T::of(
            root,
            false,
        )
}

/// More owners prove no less.
proof fn proved_more<T: RootItem>(
    model: StoreModel,
    term: TermRef,
    list: Seq<OwnerRef>,
    more: Seq<OwnerRef>,
    item: T,
)
    requires
        proved_under(model, term, list, item),
        forall|owner: OwnerRef| list.contains(owner) ==> #[trigger] more.contains(owner),
    ensures
        proved_under(model, term, more, item),
{
    let (owner, root) = choose|owner: OwnerRef, root: RootTid|
        list.contains(owner) && #[trigger] named_root(model, term, owner, root) && item == T::of(
            root,
            false,
        );
    assert(more.contains(owner));
}

/// Whether what was handed over of owners is proved, and an owner's root is among it.
spec fn proved_all<T: RootItem>(
    model: StoreModel,
    term: TermRef,
    list: Seq<OwnerRef>,
    items: Seq<T>,
    owner: OwnerRef,
    root: RootTid,
) -> bool {
    &&& forall|k: int|
        0 <= k < items.len() ==> proved_under(model, term, list, #[trigger] items[k])
    &&& list.contains(owner) && truly_named(model, term, owner, root) ==> items.contains(
        T::of(root, false),
    )
}

/// Whether an owner leads to a root, and direct pages of a term name no other.
pub open spec fn truly_named(
    model: StoreModel,
    term: TermRef,
    owner: OwnerRef,
    root: RootTid,
) -> bool {
    &&& model.resolved(owner) == Ok::<Option<RootTid>, Error>(Some(root))
    &&& forall|block: u32, slot: int, other: Option<RootTid>| #[trigger]
        direct_record(model, term, block, slot, owner, other) ==> other == Some(root)
}

/// Lists and items that follow each other are proved where both are.
proof fn proved_join<T: RootItem>(
    model: StoreModel,
    term: TermRef,
    list: Seq<OwnerRef>,
    more: Seq<OwnerRef>,
    items: Seq<T>,
    rest: Seq<T>,
    owner: OwnerRef,
    root: RootTid,
)
    requires
        proved_all(model, term, list, items, owner, root),
        proved_all(model, term, more, rest, owner, root),
    ensures
        proved_all(model, term, list + more, items + rest, owner, root),
{
    let (owners, all) = (list + more, items + rest);
    assert forall|other: OwnerRef| list.contains(other) implies #[trigger] owners.contains(
        other,
    ) by {
        let i = choose|i: int| 0 <= i < list.len() && list[i] == other;
        assert(owners[i] == other);
    }
    assert forall|other: OwnerRef| more.contains(other) implies #[trigger] owners.contains(
        other,
    ) by {
        let i = choose|i: int| 0 <= i < more.len() && more[i] == other;
        assert(owners[list.len() + i] == other);
    }
    assert forall|k: int| 0 <= k < all.len() implies proved_under(
        model,
        term,
        owners,
        #[trigger] all[k],
    ) by {
        if k < items.len() {
            assert(all[k] == items[k]);
            proved_more(model, term, list, owners, items[k]);
        } else {
            assert(all[k] == rest[k - items.len()]);
            proved_more(model, term, more, owners, rest[k - items.len()]);
        }
    }
    if owners.contains(owner) && truly_named(model, term, owner, root) {
        let wanted = T::of(root, false);
        let i = choose|i: int| 0 <= i < owners.len() && owners[i] == owner;
        if i < list.len() {
            assert(list[i] == owner);
            let k = choose|k: int| 0 <= k < items.len() && items[k] == wanted;
            assert(all[k] == wanted);
        } else {
            assert(more[i - list.len()] == owner);
            let k = choose|k: int| 0 <= k < rest.len() && rest[k] == wanted;
            assert(all[items.len() + k] == wanted);
        }
    }
}

/// Nothing is proved of nothing.
proof fn proved_none<T: RootItem>(
    model: StoreModel,
    term: TermRef,
    owner: OwnerRef,
    root: RootTid,
)
    ensures
        proved_all::<T>(model, term, Seq::empty(), Seq::empty(), owner, root),
{
}

/// What is handed over of one owner is proved.
proof fn proved_one<T: RootItem>(
    model: StoreModel,
    term: TermRef,
    one: OwnerRef,
    owner: OwnerRef,
    root: RootTid,
)
    requires
        model.proved_walk::<T>(one).end is Ok,
    ensures
        proved_all(model, term, seq![one], model.proved_walk::<T>(one).items, owner, root),
{
    let items = model.proved_walk::<T>(one).items;
    let list = seq![one];
    assert(list[0] == one);
    assert(list.contains(one));
    if let Some(found) = model.resolved(one)->Ok_0 {
        assert(named_root(model, term, one, found));
        assert(proved_under(model, term, list, items[0]));
        assert(items[0] == T::of(found, false));
        assert(items.contains(T::of(found, false)));
    }
}

/// What is handed over of a page's references is proved.
proof fn references_proved<T: RootItem>(
    model: StoreModel,
    term: TermRef,
    outcomes: Seq<Result<OwnerRef>>,
    previous: OwnerRef,
    owner: OwnerRef,
    root: RootTid,
)
    requires
        model.ordered_roots::<T>(outcomes, previous).end is Ok,
    ensures
        proved_all(
            model,
            term,
            outcomes.map_values(|outcome: Result<OwnerRef>| outcome->Ok_0),
            model.ordered_roots::<T>(outcomes, previous).items,
            owner,
            root,
        ),
    decreases outcomes.len(),
{
    let pick = |outcome: Result<OwnerRef>| outcome->Ok_0;
    let items = model.ordered_roots::<T>(outcomes, previous).items;
    if outcomes.len() > 0 {
        let one = outcomes[0]->Ok_0;
        let rest = outcomes.drop_first();
        proved_one::<T>(model, term, one, owner, root);
        references_proved::<T>(model, term, rest, one, owner, root);
        proved_join(
            model,
            term,
            seq![one],
            rest.map_values(pick),
            model.proved_walk::<T>(one).items,
            model.ordered_roots::<T>(rest, one).items,
            owner,
            root,
        );
        assert(outcomes.map_values(pick) =~= seq![one] + rest.map_values(pick));
    } else {
        proved_none::<T>(model, term, owner, root);
        assert(outcomes.map_values(pick) =~= Seq::empty());
        assert(items =~= Seq::empty());
    }
}

/// What is handed over of a direct page is proved.
proof fn direct_proved<T: RootItem>(
    model: StoreModel,
    term: TermRef,
    block: u32,
    slot: int,
    owner: OwnerRef,
    root: RootTid,
)
    requires
        pages_fit(model),
        model.load_posting(block, term) matches Ok(image) && (image.kind
            == PageKind::DirectPostings && direct_walk::<T>(image, slot, model.layout).end is Ok
            && 0 <= slot <= page_references(image).len()),
    ensures
        ({
            let image = model.load_posting(block, term)->Ok_0;
            proved_all(
                model,
                term,
                page_references(image).skip(slot),
                direct_walk::<T>(image, slot, model.layout).items,
                owner,
                root,
            )
        }),
    decreases page_references(model.load_posting(block, term)->Ok_0).len() - slot,
{
    let image = model.load_posting(block, term)->Ok_0;
    let list = page_references(image);
    page_resumed(model, block, term);
    let whole = resumed_page(image)->Ok_0;
    let count = image.posting_count()->Ok_0;
    assert(count == image.posting_stream()->Ok_0.count);
    assert(list.len() == count);
    let items = direct_walk::<T>(image, slot, model.layout).items;
    if slot < count {
        direct_proved::<T>(model, term, block, slot + 1, owner, root);
        let one = list[slot];
        assert(whole.pending[slot] == Ok::<OwnerRef, Error>(one));
        let named = image.direct_root(slot as u16, model.layout)->Ok_0;
        assert(direct_record(model, term, block, slot, one, named));
        let rest = direct_walk::<T>(image, slot + 1, model.layout).items;
        let here: Seq<T> = match named {
            Some(found) => seq![T::of(found, false)],
            None => Seq::empty(),
        };
        assert(seq![one][0] == one);
        assert(seq![one].contains(one));
        if let Some(found) = named {
            assert(named_root(model, term, one, found));
            assert(proved_under(model, term, seq![one], here[0]));
            assert(here.contains(T::of(found, false)));
        }
        assert(proved_all(model, term, seq![one], here, owner, root));
        proved_join(model, term, seq![one], list.skip(slot + 1), here, rest, owner, root);
        assert(list.skip(slot) =~= seq![one] + list.skip(slot + 1));
        assert(items =~= here + rest);
    } else {
        proved_none::<T>(model, term, owner, root);
        assert(list.skip(slot) =~= Seq::empty());
        assert(items =~= Seq::empty());
    }
}

/// What is handed over of a chain is proved, of each of its references.
proof fn chain_proved<T: RootItem>(
    model: StoreModel,
    term: TermRef,
    block: u32,
    tail: u32,
    remaining: u32,
    previous: OwnerRef,
    owner: OwnerRef,
    root: RootTid,
)
    requires
        pages_fit(model),
        model.proved_chain::<T>(term, block, tail, remaining, previous).end is Ok,
    ensures
        chain_list(model, term, block, tail, remaining) matches Some(list) && proved_all(
            model,
            term,
            list,
            model.proved_chain::<T>(term, block, tail, remaining, previous).items,
            owner,
            root,
        ),
    decreases remaining,
{
    let image = model.load_posting(block, term)->Ok_0;
    let here = page_references(image);
    page_decodes(model, block, term);
    let (page, last) = model.page_roots::<T>(image, previous);
    if image.kind == PageKind::DirectPostings {
        direct_proved::<T>(model, term, block, 0, owner, root);
        assert(here.skip(0) =~= here);
    } else {
        let outcomes = image.posting_stream()->Ok_0.outcomes();
        references_proved::<T>(model, term, outcomes, previous, owner, root);
    }
    assert(proved_all(model, term, here, page.items, owner, root));
    let items = model.proved_chain::<T>(term, block, tail, remaining, previous).items;
    match posting_next_of(image, tail, remaining)->Ok_0 {
        None => {
            assert(items =~= page.items);
        },
        Some(next) => {
            let left = (remaining - 1) as u32;
            chain_proved::<T>(model, term, next, tail, left, last, owner, root);
            let rest = model.proved_chain::<T>(term, next, tail, left, last).items;
            let more = chain_list(model, term, next, tail, left)->Some_0;
            proved_join(model, term, here, more, page.items, rest, owner, root);
            assert(items =~= page.items + rest);
        },
    }
}

/// What is handed over of a term is proved, of each owner that its list names.
proof fn term_proved<T: RootItem>(
    model: StoreModel,
    meta: Image,
    text: Seq<u8>,
    owner: OwnerRef,
    root: RootTid,
)
    requires
        pages_fit(model),
        model.load(0, PageKind::Meta) == Ok::<Image, Error>(meta),
        model.single_term::<T>(text).end is Ok,
    ensures
        references_of(model, meta, text) matches Some(list) && proved_all(
            model,
            term_reference(model, meta, text),
            list,
            model.single_term::<T>(text).items,
            owner,
            root,
        ),
{
    term_found_listed(model, meta, text);
    let items = model.single_term::<T>(text).items;
    let term = term_reference(model, meta, text);
    match model.find_term(meta, text)->Ok_0 {
        None => {
            proved_none::<T>(model, term, owner, root);
            assert(items =~= Seq::empty());
        },
        Some((image, reference)) => {
            let entry = image.term(reference)->Ok_0;
            assert(entry_of(term_shelf(model, meta, text)->Some_0, text) == Some(entry));
            assert(entry.reference == reference);
            proved_one::<T>(model, reference, entry.first, owner, root);
            let first = model.proved_walk::<T>(entry.first).items;
            if entry.head == NO_BLOCK {
                assert(items =~= first);
            } else {
                let size = model.pages.len() as u32;
                chain_proved::<T>(
                    model,
                    reference,
                    entry.head,
                    entry.tail,
                    size,
                    entry.first,
                    owner,
                    root,
                );
                let rest = model.proved_chain::<T>(
                    reference,
                    entry.head,
                    entry.tail,
                    size,
                    entry.first,
                ).items;
                let more = chain_list(model, reference, entry.head, entry.tail, size)->Some_0;
                proved_join(model, reference, seq![entry.first], more, first, rest, owner, root);
                assert(items =~= first + rest);
            }
        },
    }
}

/// Whether all items ask for a recheck.
pub open spec fn all_rechecked(items: Seq<Found>) -> bool {
    forall|k: int| 0 <= k < items.len() ==> (#[trigger] items[k]).recheck
}

/// The roots of a list ask for a recheck.
proof fn list_rechecked(model: StoreModel, list: Seq<OwnerRef>)
    ensures
        all_rechecked(list_walk::<Found>(model, list).items),
    decreases list.len(),
{
    let ok = |owner: OwnerRef| Ok::<OwnerRef, Error>(owner);
    let items = list_walk::<Found>(model, list).items;
    if list.len() > 0 {
        let outcomes = list.map_values(ok);
        assert(outcomes[0] == Ok::<OwnerRef, Error>(list[0]));
        assert(outcomes.drop_first() =~= list.drop_first().map_values(ok));
        list_rechecked(model, list.drop_first());
        let first = model.resolved_walk::<Found>(list[0]);
        let rest = list_walk::<Found>(model, list.drop_first()).items;
        assert forall|k: int| 0 <= k < items.len() implies (#[trigger] items[k]).recheck by {
            if k < first.items.len() {
                assert(items[k] == first.items[k]);
            } else {
                assert(items[k] == rest[k - first.items.len()]);
            }
        }
    }
}

/// The roots of some terms ask for a recheck.
proof fn terms_rechecked(model: StoreModel, meta: Image, terms: Seq<&str>)
    requires
        pages_fit(model),
        model.terms_walk::<Found>(meta, terms).end is Ok,
    ensures
        all_rechecked(model.terms_walk::<Found>(meta, terms).items),
    decreases terms.len(),
{
    if terms.len() > 0 {
        let text = text_bytes(terms[0]);
        term_walked::<Found>(model, meta, text);
        list_rechecked(model, references_of(model, meta, text)->Some_0);
        terms_rechecked(model, meta, terms.drop_first());
        let items = model.terms_walk::<Found>(meta, terms).items;
        let first = model.term_walk::<Found>(meta, text).items;
        let rest = model.terms_walk::<Found>(meta, terms.drop_first()).items;
        assert forall|k: int| 0 <= k < items.len() implies (#[trigger] items[k]).recheck by {
            if k < first.len() {
                assert(items[k] == first[k]);
            } else {
                assert(items[k] == rest[k - first.len()]);
            }
        }
    }
}

/// What is picked of owners asks for a recheck.
proof fn picked_rechecked(list: Seq<OwnerModel>)
    ensures
        all_rechecked(picked(list, |owner: OwnerModel| Found::of(owner.root, true))),
    decreases list.len(),
{
    if list.len() > 0 {
        picked_rechecked(list.drop_last());
    }
}

/// A cover is scanned with a recheck.
pub(crate) proof fn plan_rechecked(model: StoreModel, plan: CandidatePlan<'_>)
    requires
        pages_fit(model),
        model.plan_walk::<Found>(plan).end is Ok,
    ensures
        all_rechecked(model.plan_walk::<Found>(plan).items),
{
    let meta = model.load(0, PageKind::Meta)->Ok_0;
    match plan {
        CandidatePlan::Empty => {},
        CandidatePlan::Universe => {
            let pick = |owner: OwnerModel| Found::of(owner.root, true);
            universe_walked(model, meta, pick);
            picked_rechecked(all_owners(model, meta)->Some_0);
        },
        CandidatePlan::Terms(terms) => {
            terms_rechecked(model, meta, terms@);
        },
    }
}

/// An owner of a list is walked to.
proof fn list_reaches<T: RootItem>(
    model: StoreModel,
    list: Seq<OwnerRef>,
    owner: OwnerRef,
    root: RootTid,
)
    requires
        list_walk::<T>(model, list).end is Ok,
        list.contains(owner),
        model.resolved(owner) == Ok::<Option<RootTid>, Error>(Some(root)),
    ensures
        list_walk::<T>(model, list).items.contains(T::of(root, true)),
    decreases list.len(),
{
    let ok = |owner: OwnerRef| Ok::<OwnerRef, Error>(owner);
    let items = list_walk::<T>(model, list).items;
    let wanted = T::of(root, true);
    let outcomes = list.map_values(ok);
    let rest = list.drop_first();
    assert(outcomes[0] == Ok::<OwnerRef, Error>(list[0]));
    assert(outcomes.drop_first() =~= rest.map_values(ok));
    let first = model.resolved_walk::<T>(list[0]).items;
    let more = list_walk::<T>(model, rest).items;
    assert(items =~= first + more);
    let i = choose|i: int| 0 <= i < list.len() && list[i] == owner;
    if i == 0 {
        assert(items[0] == wanted);
    } else {
        assert(rest[i - 1] == owner);
        list_reaches::<T>(model, rest, owner, root);
        let k = choose|k: int| 0 <= k < more.len() && more[k] == wanted;
        assert(items[first.len() + k] == wanted);
    }
}

/// An owner of one of some terms is walked to.
proof fn terms_reach<T: RootItem>(
    model: StoreModel,
    meta: Image,
    terms: Seq<&str>,
    i: int,
    owner: OwnerRef,
    root: RootTid,
)
    requires
        pages_fit(model),
        model.terms_walk::<T>(meta, terms).end is Ok,
        0 <= i < terms.len(),
        references_of(model, meta, text_bytes(terms[i])) matches Some(list) && list.contains(owner),
        model.resolved(owner) == Ok::<Option<RootTid>, Error>(Some(root)),
    ensures
        model.terms_walk::<T>(meta, terms).items.contains(T::of(root, true)),
    decreases terms.len(),
{
    let text = text_bytes(terms[0]);
    let rest = terms.drop_first();
    let wanted = T::of(root, true);
    term_walked::<T>(model, meta, text);
    let items = model.terms_walk::<T>(meta, terms).items;
    let first = model.term_walk::<T>(meta, text).items;
    let more = model.terms_walk::<T>(meta, rest).items;
    assert(items =~= first + more);
    if i == 0 {
        list_reaches::<T>(model, references_of(model, meta, text)->Some_0, owner, root);
        let k = choose|k: int| 0 <= k < first.len() && first[k] == wanted;
        assert(items[k] == wanted);
    } else {
        assert(rest[i - 1] == terms[i]);
        terms_reach::<T>(model, meta, rest, i - 1, owner, root);
        let k = choose|k: int| 0 <= k < more.len() && more[k] == wanted;
        assert(items[first.len() + k] == wanted);
    }
}

/// A searchable owner is picked.
proof fn picked_reaches<T: RootItem>(list: Seq<OwnerModel>, owner: OwnerModel)
    requires
        list.contains(owner),
        searchable(owner),
    ensures
        picked(list, |owner: OwnerModel| T::of(owner.root, true)).contains(T::of(owner.root, true)),
    decreases list.len(),
{
    let pick = |owner: OwnerModel| T::of(owner.root, true);
    let wanted = T::of(owner.root, true);
    let front = picked(list.drop_last(), pick);
    let all = picked(list, pick);
    let i = choose|i: int| 0 <= i < list.len() && list[i] == owner;
    if i == list.len() - 1 {
        assert(all == front.push(wanted));
        assert(all[all.len() - 1] == wanted);
    } else {
        assert(list.drop_last()[i] == owner);
        picked_reaches::<T>(list.drop_last(), owner);
        let k = choose|k: int| 0 <= k < front.len() && front[k] == wanted;
        assert(all[k] == wanted);
    }
}

/// Whether an owner is stored: it is one of all owners, searchable, and its
/// reference leads to it.
pub open spec fn kept(model: StoreModel, meta: Image, owner: OwnerModel) -> bool {
    &&& all_owners(model, meta) matches Some(list) && list.contains(owner)
    &&& model.owner_of(owner.reference) == Ok::<OwnerModel, Error>(owner)
    &&& searchable(owner)
}

/// Whether direct pages of some terms name no other root of an owner.
pub open spec fn told_truly(
    model: StoreModel,
    meta: Image,
    texts: Set<Seq<u8>>,
    owner: OwnerModel,
) -> bool {
    forall|root: Option<RootTid>| #[trigger]
        directly_named(model, meta, texts, owner.reference, root) ==> root == Some(owner.root)
}

/// A plan that covers a query leads to every owner whose document satisfies it.
pub proof fn cover_scan_loses_nothing<T: RootItem>(
    model: StoreModel,
    meta: Image,
    query: QueryModel,
    plan: CandidatePlan<'_>,
    owner: OwnerModel,
    document: Seq<Seq<u8>>,
)
    requires
        pages_fit(model),
        model.load(0, PageKind::Meta) == Ok::<Image, Error>(meta),
        model.plan_walk::<T>(plan).end is Ok,
        query.wf(),
        plan.is_cover(query) || plan is Universe,
        kept(model, meta, owner),
        indexed(model, meta, query_texts(query), owner.reference, document),
        query.holds(document),
    ensures
        model.plan_walk::<T>(plan).items.contains(T::of(owner.root, true)),
{
    match plan {
        CandidatePlan::Empty => {
            plan_covers_matches(query, plan, document);
        },
        CandidatePlan::Universe => {
            let pick = |owner: OwnerModel| T::of(owner.root, true);
            universe_walked(model, meta, pick);
            picked_reaches::<T>(all_owners(model, meta)->Some_0, owner);
        },
        CandidatePlan::Terms(terms) => {
            plan_covers_matches(query, plan, document);
            let term = choose|term: Seq<u8>| #[trigger]
                listed(terms@, term) && document.contains(term);
            let i = choose|i: int| 0 <= i < terms@.len() && text_bytes(#[trigger] terms@[i]) == term;
            assert(query.cover(query.root).contains(term));
            cover_terms_are_named(query, query.root, term);
            terms_reach::<T>(model, meta, terms@, i, owner.reference, owner.root);
        },
    }
}

/// Direct pages of a term of the query name no other root.
proof fn truly_under(
    model: StoreModel,
    meta: Image,
    query: QueryModel,
    term: Seq<u8>,
    owner: OwnerModel,
)
    requires
        kept(model, meta, owner),
        told_truly(model, meta, query_texts(query), owner),
        query_texts(query).contains(term),
    ensures
        truly_named(model, term_reference(model, meta, term), owner.reference, owner.root),
{
    let reference = term_reference(model, meta, term);
    assert forall|block: u32, slot: int, other: Option<RootTid>| #[trigger]
        direct_record(model, reference, block, slot, owner.reference, other) implies other == Some(
        owner.root,
    ) by {
        assert(directly_named(model, meta, query_texts(query), owner.reference, other));
    }
}

/// Whether a scan handed over a root, with a recheck or without.
pub open spec fn handed_over<T: RootItem>(before: Seq<T>, now: Seq<T>, root: RootTid) -> bool {
    exists|i: int, recheck: bool|
        before.len() <= i < now.len() && #[trigger] now[i] == #[trigger] T::of(root, recheck)
}

/// What is among the items that were added was handed over.
pub(crate) proof fn added_handed<T: RootItem>(
    before: Seq<T>,
    now: Seq<T>,
    items: Seq<T>,
    root: RootTid,
    recheck: bool,
)
    requires
        now == before + items,
        items.contains(T::of(root, recheck)),
    ensures
        handed_over(before, now, root),
{
    let k = choose|k: int| 0 <= k < items.len() && items[k] == T::of(root, recheck);
    assert(now[before.len() + k] == T::of(root, recheck));
}

/// A scan loses no match: every stored owner whose document satisfies the query
/// is handed over, with a recheck or without.
#[verifier::rlimit(60)]
#[verifier::spinoff_prover]
pub proof fn scan_loses_nothing<T: RootItem>(
    model: StoreModel,
    meta: Image,
    query: QueryModel,
    memory_bytes: usize,
    phrase_positions: bool,
    before: Seq<T>,
    now: Seq<T>,
    count: u64,
    certain: bool,
    owner: OwnerModel,
    document: Seq<Seq<u8>>,
)
    requires
        pages_fit(model),
        model.load(0, PageKind::Meta) == Ok::<Image, Error>(meta),
        query.wf(),
        undamaged(model, meta, query_texts(query)),
        query_told(
            model,
            query,
            memory_bytes,
            phrase_positions,
            before,
            now,
            Ok(count),
            certain,
        ),
        !(phrase_positions && single_phrase(query)),
        kept(model, meta, owner),
        told_truly(model, meta, query_texts(query), owner),
        indexed(model, meta, query_texts(query), owner.reference, document),
        query.holds(document),
    ensures
        handed_over(before, now, owner.root),
{
    let result: Result<u64> = Ok(count);
    if let KindModel::Term(term) = query.nodes[query.root] {
        assert(kind_names(query.nodes[query.root], term));
        assert(query_texts(query).contains(term));
        term_proved::<T>(model, meta, term, owner.reference, owner.root);
        truly_under(model, meta, query, term, owner);
        added_handed(before, now, model.single_term::<T>(term).items, owner.root, false);
    } else {
        reveal(scanned);
        if exists|room: usize|
            room <= memory_bytes && #[trigger] planned_scan(
                model,
                query,
                phrase_positions,
                room,
                before,
                now,
                result,
                certain,
            ) {
            let room = choose|room: usize|
                room <= memory_bytes && #[trigger] planned_scan(
                    model,
                    query,
                    phrase_positions,
                    room,
                    before,
                    now,
                    result,
                    certain,
                );
            reveal(planned_scan);
            if universal(query) {
                let plan: CandidatePlan<'_> = CandidatePlan::Universe;
                cover_scan_loses_nothing::<T>(model, meta, query, plan, owner, document);
                added_handed(before, now, model.plan_walk::<T>(plan).items, owner.root, true);
            } else {
                let (owners, items) = choose|owners: Seq<OwnerRef>, items: Seq<Option<T>>|
                    #![trigger listing(model, query, phrase_positions, room, owners, items)]
                    selected(model, meta, query, owners) && listing(
                        model,
                        query,
                        phrase_positions,
                        room,
                        owners,
                        items,
                    ) && now == before + flat(items);
                necessary(query, query.root, document);
                value_indexed(model, meta, query, query.root, owner.reference, document);
                assert(owners.contains(owner.reference));
                let i = choose|i: int| 0 <= i < owners.len() && owners[i] == owner.reference;
                assert(shown(model, query, phrase_positions, room, owners[i], items[i]));
                let root = choose|root: Option<RootTid>| #[trigger]
                    root_shown(model, query, owner.reference, root) && items[i] == match root {
                        Some(root) => Some(T::of(root, rechecked(query))),
                        None => None,
                    };
                assert(root == Some(owner.root));
                flat_holds(items, i);
                added_handed(before, now, flat(items), owner.root, rechecked(query));
            }
        } else {
            reveal(covered_scan);
            let plan = choose|plan: CandidatePlan<'_>|
                plan.is_cover(query) && #[trigger] covered_by(
                    model,
                    plan,
                    before,
                    now,
                    result,
                    certain,
                );
            cover_scan_loses_nothing::<T>(model, meta, query, plan, owner, document);
            added_handed(before, now, model.plan_walk::<T>(plan).items, owner.root, true);
        }
    }
}

/// What a scan hands over without a recheck satisfies the query: it is the root
/// of an owner every document of which, as the terms of the query tell it,
/// satisfies the query.
#[verifier::rlimit(60)]
#[verifier::spinoff_prover]
pub proof fn unrechecked_roots_match(
    model: StoreModel,
    meta: Image,
    query: QueryModel,
    memory_bytes: usize,
    phrase_positions: bool,
    before: Seq<Found>,
    now: Seq<Found>,
    count: u64,
    certain: bool,
    i: int,
) -> (owner: OwnerRef)
    requires
        pages_fit(model),
        model.load(0, PageKind::Meta) == Ok::<Image, Error>(meta),
        query.wf(),
        undamaged(model, meta, query_texts(query)),
        query_told(
            model,
            query,
            memory_bytes,
            phrase_positions,
            before,
            now,
            Ok(count),
            certain,
        ),
        !(phrase_positions && single_phrase(query)),
        before.len() <= i < now.len(),
        !now[i].recheck,
    ensures
        root_shown(model, query, owner, Some(now[i].root)),
        forall|document: Seq<Seq<u8>>| #[trigger]
            indexed(model, meta, query_texts(query), owner, document) ==> query.holds(document),
{
    let result: Result<u64> = Ok(count);
    let none = OwnerRef { page: 0, slot: 0, incarnation: crate::identity::Incarnation::of(0) };
    if let KindModel::Term(term) = query.nodes[query.root] {
        assert(kind_names(query.nodes[query.root], term));
        assert(query_texts(query).contains(term));
        term_proved::<Found>(model, meta, term, none, now[i].root);
        let items = model.single_term::<Found>(term).items;
        let list = references_of(model, meta, term)->Some_0;
        let reference = term_reference(model, meta, term);
        let k = i - before.len();
        assert(now[i] == items[k]);
        assert(proved_under(model, reference, list, items[k]));
        let (owner, root) = choose|owner: OwnerRef, root: RootTid|
            list.contains(owner) && #[trigger] named_root(model, reference, owner, root) && items[k]
                == Found::of(root, false);
        if model.resolved(owner) != Ok::<Option<RootTid>, Error>(Some(root)) {
            let (block, slot) = choose|block: u32, slot: int| #[trigger]
                direct_record(model, reference, block, slot, owner, Some(root));
            assert(directly_named(model, meta, query_texts(query), owner, Some(root)));
        }
        assert forall|document: Seq<Seq<u8>>| #[trigger]
            indexed(model, meta, query_texts(query), owner, document) implies query.holds(
            document,
        ) by {
            assert(document.contains(term));
        }
        owner
    } else {
        reveal(scanned);
        if exists|room: usize|
            room <= memory_bytes && #[trigger] planned_scan(
                model,
                query,
                phrase_positions,
                room,
                before,
                now,
                result,
                certain,
            ) {
            let room = choose|room: usize|
                room <= memory_bytes && #[trigger] planned_scan(
                    model,
                    query,
                    phrase_positions,
                    room,
                    before,
                    now,
                    result,
                    certain,
                );
            reveal(planned_scan);
            if universal(query) {
                let plan: CandidatePlan<'_> = CandidatePlan::Universe;
                plan_rechecked(model, plan);
                assert(now[i] == model.plan_walk::<Found>(plan).items[i - before.len()]);
                none
            } else {
                let (owners, items) = choose|owners: Seq<OwnerRef>, items: Seq<Option<Found>>|
                    #![trigger listing(model, query, phrase_positions, room, owners, items)]
                    selected(model, meta, query, owners) && listing(
                        model,
                        query,
                        phrase_positions,
                        room,
                        owners,
                        items,
                    ) && now == before + flat(items);
                let k = i - before.len();
                assert(now[i] == flat(items)[k]);
                let j = flat_from(items, k);
                let owner = owners[j];
                assert(shown(model, query, phrase_positions, room, owners[j], items[j]));
                let root = choose|root: Option<RootTid>| #[trigger]
                    root_shown(model, query, owner, root) && items[j] == match root {
                        Some(root) => Some(Found::of(root, rechecked(query))),
                        None => None,
                    };
                assert(root == Some(now[i].root));
                assert(!rechecked(query));
                assert(owners.contains(owner));
                assert(query_value(query, query.root, terms_of(model, meta, owner)));
                assert forall|document: Seq<Seq<u8>>| #[trigger]
                    indexed(model, meta, query_texts(query), owner, document) implies query.holds(
                    document,
                ) by {
                    value_indexed(model, meta, query, query.root, owner, document);
                    unrechecked_is_exact(query, document);
                }
                owner
            }
        } else {
            reveal(covered_scan);
            let plan = choose|plan: CandidatePlan<'_>|
                plan.is_cover(query) && #[trigger] covered_by(
                    model,
                    plan,
                    before,
                    now,
                    result,
                    certain,
                );
            plan_rechecked(model, plan);
            assert(now[i] == model.plan_walk::<Found>(plan).items[i - before.len()]);
            none
        }
    }
}

} // verus!
