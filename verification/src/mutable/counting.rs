//! What counts and work batches hand over: every owner that can satisfy the
//! query, as the lists of terms and of owners name them.

use crate::candidate::{listed, plan_covers_matches, CandidatePlan};
use crate::error::{Error, Result};
use crate::identity::group_identity;
use crate::mutable::count::{last_owner, ordered_walk, plain_candidate, CountCandidate};
use crate::mutable::listing::{
    chain_list, entry_of, page_references, pages_fit, references_of, term_found_listed, term_shelf,
};
use crate::mutable::page::model::Image;
use crate::mutable::page::{OwnerModel, OwnerRef, PageKind, TermRef, NO_BLOCK};
use crate::mutable::query::query_texts;
use crate::mutable::reader::searchable;
use crate::mutable::roster::{
    all_owners, owners_sound, picked, picked_join, records, roster, slots_walked, universe_walked,
};
use crate::mutable::store::{answers, following_of, posting_next_of, Host, StoreModel};
use crate::mutable::walk::delivered;
use crate::mutable::work::{
    captures, checked_work, is_work, no_work, owner_work, term_work, unordered_walk, work_previous,
    words_of, WorkState,
};
use crate::query::{KindModel, QueryModel};
use crate::text::text_bytes;
use vstd::prelude::*;

verus! {

broadcast use group_identity;

/// Whether an owner stands under those of some terms that its document mentions,
/// and under no others of them.
pub open spec fn indexed(
    model: StoreModel,
    meta: Image,
    texts: Set<Seq<u8>>,
    owner: OwnerRef,
    document: Seq<Seq<u8>>,
) -> bool {
    forall|term: Seq<u8>| #[trigger]
        texts.contains(term) ==> (references_of(model, meta, term) matches Some(list)
            && list.contains(owner) == document.contains(term))
}

/// The owners of candidates.
pub open spec fn owners_of(items: Seq<CountCandidate>) -> Seq<OwnerRef> {
    Seq::new(items.len(), |i: int| items[i].owner)
}

/// The references of the searchable owners of a list.
pub open spec fn searchable_of(list: Seq<OwnerModel>) -> Seq<OwnerRef>
    decreases list.len(),
{
    if list.len() == 0 {
        Seq::empty()
    } else if list.last().live && list.last().publication
        == crate::codec::records::Publication::Published {
        searchable_of(list.drop_last()).push(list.last().reference)
    } else {
        searchable_of(list.drop_last())
    }
}

/// Whether no candidate is one of a sealed posting page.
pub open spec fn unsealed(items: Seq<CountCandidate>) -> bool {
    forall|i: int| 0 <= i < items.len() ==> !(#[trigger] items[i]).sealed_term
}

/// What is picked of owners names the searchable ones.
proof fn picked_owners(list: Seq<OwnerModel>)
    ensures
        owners_of(picked(list, plain_candidate())) == searchable_of(list),
        unsealed(picked(list, plain_candidate())),
    decreases list.len(),
{
    let pick = plain_candidate();
    if list.len() > 0 {
        picked_owners(list.drop_last());
        let front = picked(list.drop_last(), pick);
        let last = list.last();
        if searchable(last) {
            assert(picked(list, pick) == front.push(pick(last)));
            assert(owners_of(front.push(pick(last))) =~= owners_of(front).push(last.reference));
        }
        assert(owners_of(picked(list, pick)) =~= searchable_of(list));
    } else {
        assert(owners_of(picked(list, pick)) =~= searchable_of(list));
    }
}

/// A searchable owner of a list is named.
pub proof fn searchable_named(list: Seq<OwnerModel>, owner: OwnerModel)
    requires
        list.contains(owner),
        searchable(owner),
    ensures
        searchable_of(list).contains(owner.reference),
    decreases list.len(),
{
    let i = choose|i: int| 0 <= i < list.len() && list[i] == owner;
    let front = searchable_of(list.drop_last());
    let all = searchable_of(list);
    if i == list.len() - 1 {
        assert(all == front.push(owner.reference));
        assert(all[all.len() - 1] == owner.reference);
    } else {
        assert(list.drop_last()[i] == owner);
        searchable_named(list.drop_last(), owner);
        let k = choose|k: int| 0 <= k < front.len() && front[k] == owner.reference;
        assert(all[k] == owner.reference);
    }
}

/// The owners of a page that could be walked to its end are those that it lists.
proof fn ordered_owners(outcomes: Seq<Result<OwnerRef>>, previous: OwnerRef, sealed_term: bool)
    requires
        ordered_walk(outcomes, previous, sealed_term).end is Ok,
    ensures
        ({
            let items = ordered_walk(outcomes, previous, sealed_term).items;
            &&& owners_of(items) == outcomes.map_values(
                |outcome: Result<OwnerRef>| outcome->Ok_0,
            )
            &&& forall|i: int| 0 <= i < items.len() ==> (#[trigger] items[i]).sealed_term
                == sealed_term
        }),
    decreases outcomes.len(),
{
    let items = ordered_walk(outcomes, previous, sealed_term).items;
    let pick = |outcome: Result<OwnerRef>| outcome->Ok_0;
    if outcomes.len() > 0 {
        let owner = outcomes[0]->Ok_0;
        let rest = outcomes.drop_first();
        ordered_owners(rest, owner, sealed_term);
        let more = ordered_walk(rest, owner, sealed_term).items;
        assert(items =~= seq![CountCandidate { owner, sealed_term }] + more);
        assert(owners_of(items) =~= seq![owner] + owners_of(more));
        assert(outcomes.map_values(pick) =~= seq![owner] + rest.map_values(pick));
        assert forall|i: int| 0 <= i < items.len() implies (#[trigger] items[i]).sealed_term
            == sealed_term by {
            if i > 0 {
                assert(items[i] == more[i - 1]);
            }
        }
    } else {
        assert(owners_of(items) =~= outcomes.map_values(pick));
    }
}

/// Whether the candidates with a seal stand on sealed pages of a term.
pub open spec fn seals_true(
    model: StoreModel,
    term: TermRef,
    items: Seq<CountCandidate>,
) -> bool {
    forall|i: int|
        0 <= i < items.len() && (#[trigger] items[i]).sealed_term ==> on_sealed_page(
            model,
            term,
            items[i].owner,
        )
}

/// Whether a sealed posting page of a term holds an owner.
pub open spec fn on_sealed_page(model: StoreModel, term: TermRef, owner: OwnerRef) -> bool {
    exists|block: u32|
        (#[trigger] model.load_posting(block, term)) matches Ok(image) && (image.kind
            == PageKind::SealedPostings && page_references(image).contains(owner))
}

/// A chain that could be counted lists the owners that were.
proof fn chain_owners(
    model: StoreModel,
    term: TermRef,
    block: u32,
    tail: u32,
    remaining: u32,
    previous: OwnerRef,
)
    requires
        model.ordered_chain_walk(term, block, tail, remaining, previous).end is Ok,
    ensures
        ({
            let items = model.ordered_chain_walk(term, block, tail, remaining, previous).items;
            &&& chain_list(model, term, block, tail, remaining) == Some(owners_of(items))
            &&& seals_true(model, term, items)
        }),
    decreases remaining,
{
    let image = model.load_posting(block, term)->Ok_0;
    let outcomes = image.posting_stream()->Ok_0.outcomes();
    let sealed_term = image.kind == PageKind::SealedPostings;
    let page = ordered_walk(outcomes, previous, sealed_term);
    let items = model.ordered_chain_walk(term, block, tail, remaining, previous).items;
    ordered_owners(outcomes, previous, sealed_term);
    assert(owners_of(page.items) =~= page_references(image));
    assert forall|i: int| 0 <= i < page.items.len() && (#[trigger] page.items[i]).sealed_term implies on_sealed_page(
    model, term, page.items[i].owner) by {
        assert(page_references(image)[i] == owners_of(page.items)[i]);
        assert(model.load_posting(block, term) is Ok);
    }
    match posting_next_of(image, tail, remaining)->Ok_0 {
        None => {
            assert(items =~= page.items);
        },
        Some(next) => {
            let left = (remaining - 1) as u32;
            let last = last_owner(page.items, previous);
            chain_owners(model, term, next, tail, left, last);
            let rest = model.ordered_chain_walk(term, next, tail, left, last).items;
            assert(items =~= page.items + rest);
            assert(owners_of(items) =~= owners_of(page.items) + owners_of(rest));
            assert forall|i: int| 0 <= i < items.len() && (#[trigger] items[i]).sealed_term implies on_sealed_page(
            model, term, items[i].owner) by {
                if i < page.items.len() {
                    assert(items[i] == page.items[i]);
                } else {
                    assert(items[i] == rest[i - page.items.len()]);
                }
            }
        },
    }
}

/// A term that could be counted lists the owners that were.
proof fn term_owners(model: StoreModel, meta: Image, text: Seq<u8>)
    requires
        pages_fit(model),
        model.term_owners_walk(meta, text).end is Ok,
    ensures
        ({
            let items = model.term_owners_walk(meta, text).items;
            &&& references_of(model, meta, text) == Some(owners_of(items))
            &&& items.len() > 0 ==> seals_true(
                model,
                crate::mutable::query::term_reference(model, meta, text),
                items,
            )
        }),
{
    let items = model.term_owners_walk(meta, text).items;
    term_found_listed(model, meta, text);
    match model.find_term(meta, text)->Ok_0 {
        None => {
            assert(owners_of(items) =~= Seq::empty());
        },
        Some((image, reference)) => {
            let entry = image.term(reference)->Ok_0;
            assert(entry_of(term_shelf(model, meta, text)->Some_0, text) == Some(entry));
            let first = CountCandidate { owner: entry.first, sealed_term: false };
            if entry.head == NO_BLOCK {
                assert(items =~= seq![first]);
                assert(owners_of(items) =~= seq![entry.first]);
            } else {
                let size = model.pages.len() as u32;
                chain_owners(model, reference, entry.head, entry.tail, size, entry.first);
                let rest = model.ordered_chain_walk(
                    reference,
                    entry.head,
                    entry.tail,
                    size,
                    entry.first,
                ).items;
                assert(items =~= seq![first] + rest);
                assert(owners_of(items) =~= seq![entry.first] + owners_of(rest));
                assert forall|i: int|
                    0 <= i < items.len() && (#[trigger] items[i]).sealed_term implies on_sealed_page(
                model, reference, items[i].owner) by {
                    assert(items[i] == rest[i - 1]);
                }
            }
        },
    }
}

/// A count hands over, of a term the owners that its list names, of nothing
/// none, and of any other query all searchable owners; each with its turn. A
/// seal stands for a sealed page of the one term.
pub proof fn count_streams_owners(
    model: StoreModel,
    meta: Image,
    query: QueryModel,
    before: Seq<CountCandidate>,
    now: Seq<CountCandidate>,
    count: u64,
    certain: bool,
) -> (items: Seq<CountCandidate>)
    requires
        pages_fit(model),
        model.load(0, PageKind::Meta) == Ok::<Image, Error>(meta),
        delivered(
            model.count_walk(query),
            before,
            now,
            Ok(count),
            certain,
            Error::Limit("count candidates"),
        ),
    ensures
        now == before + items,
        count == items.len(),
        match query.nodes[query.root] {
            KindModel::Nothing => items.len() == 0,
            KindModel::Term(term) => {
                &&& references_of(model, meta, term) == Some(owners_of(items))
                &&& items.len() > 0 ==> seals_true(
                    model,
                    crate::mutable::query::term_reference(model, meta, term),
                    items,
                )
            },
            _ => all_owners(model, meta) matches Some(list) && owners_of(items) == searchable_of(
                list,
            ) && unsealed(items),
        },
{
    let items = model.count_walk(query).items;
    match query.nodes[query.root] {
        KindModel::Nothing => {},
        KindModel::Term(term) => {
            term_owners(model, meta, term);
        },
        _ => {
            universe_walked(model, meta, plain_candidate());
            let list = all_owners(model, meta)->Some_0;
            picked_owners(list);
        },
    }
    items
}

/// A count loses no match: a searchable owner whose document satisfies the query
/// is among the candidates.
pub proof fn count_loses_nothing(
    model: StoreModel,
    meta: Image,
    query: QueryModel,
    before: Seq<CountCandidate>,
    now: Seq<CountCandidate>,
    count: u64,
    certain: bool,
    owner: OwnerModel,
    document: Seq<Seq<u8>>,
)
    requires
        pages_fit(model),
        model.load(0, PageKind::Meta) == Ok::<Image, Error>(meta),
        delivered(
            model.count_walk(query),
            before,
            now,
            Ok(count),
            certain,
            Error::Limit("count candidates"),
        ),
        query.wf(),
        all_owners(model, meta) matches Some(list) && list.contains(owner),
        searchable(owner),
        indexed(model, meta, query_texts(query), owner.reference, document),
        query.holds(document),
    ensures
        exists|i: int|
            before.len() <= i < now.len() && (#[trigger] now[i]).owner == owner.reference,
{
    let items = count_streams_owners(model, meta, query, before, now, count, certain);
    let list = all_owners(model, meta)->Some_0;
    let named = owners_of(items);
    match query.nodes[query.root] {
        KindModel::Nothing => {},
        KindModel::Term(term) => {
            assert(crate::mutable::query::kind_names(query.nodes[query.root], term));
            assert(query_texts(query).contains(term));
        },
        _ => {
            searchable_named(list, owner);
        },
    }
    let k = choose|k: int| 0 <= k < named.len() && named[k] == owner.reference;
    assert(now[before.len() + k] == items[k]);
}

/// A candidate with a seal satisfies the query, which is one term.
pub proof fn sealed_candidates_match(
    model: StoreModel,
    meta: Image,
    query: QueryModel,
    before: Seq<CountCandidate>,
    now: Seq<CountCandidate>,
    count: u64,
    certain: bool,
    i: int,
    document: Seq<Seq<u8>>,
)
    requires
        pages_fit(model),
        model.load(0, PageKind::Meta) == Ok::<Image, Error>(meta),
        delivered(
            model.count_walk(query),
            before,
            now,
            Ok(count),
            certain,
            Error::Limit("count candidates"),
        ),
        query.wf(),
        before.len() <= i < now.len(),
        now[i].sealed_term,
        indexed(model, meta, query_texts(query), now[i].owner, document),
    ensures
        query.nodes[query.root] is Term,
        query.holds(document),
{
    let items = count_streams_owners(model, meta, query, before, now, count, certain);
    let k = i - before.len();
    assert(now[i] == items[k]);
    assert(items[k].sealed_term);
    if let KindModel::Term(term) = query.nodes[query.root] {
        assert(crate::mutable::query::kind_names(query.nodes[query.root], term));
        assert(query_texts(query).contains(term));
        assert(owners_of(items)[k] == now[i].owner);
        assert(owners_of(items).contains(now[i].owner));
    }
}

impl StoreModel {
    /// The candidates of the batches from a position to the end of the work, of
    /// at most `n` batches; nothing where a batch fails or more are left.
    pub open spec fn worked_off(self, words: Seq<u64>, n: nat) -> Option<Seq<CountCandidate>>
        decreases n,
    {
        match self.next_batch(words) {
            Err(_) => None,
            Ok(None) => Some(Seq::empty()),
            Ok(Some((next, batch))) => {
                let walk = batch.candidates(self.layout);
                if n == 0 || walk.end is Err {
                    None
                } else {
                    match self.worked_off(next, (n - 1) as nat) {
                        None => None,
                        Some(rest) => Some(walk.items + rest),
                    }
                }
            },
        }
    }
}

/// Finished work hands over nothing.
proof fn nothing_left(model: StoreModel, n: nat)
    ensures
        model.worked_off(no_work(), n) == Some(Seq::<CountCandidate>::empty()),
{
    assert(no_work()[0] == 0);
}

/// The owners of a page without an order are those that it lists.
proof fn unordered_owners(outcomes: Seq<Result<OwnerRef>>, sealed_term: bool)
    requires
        unordered_walk(outcomes, sealed_term).end is Ok,
    ensures
        ({
            let items = unordered_walk(outcomes, sealed_term).items;
            &&& owners_of(items) == outcomes.map_values(
                |outcome: Result<OwnerRef>| outcome->Ok_0,
            )
            &&& !sealed_term ==> unsealed(items)
        }),
    decreases outcomes.len(),
{
    let items = unordered_walk(outcomes, sealed_term).items;
    let pick = |outcome: Result<OwnerRef>| outcome->Ok_0;
    if outcomes.len() > 0 {
        let owner = outcomes[0]->Ok_0;
        let rest = outcomes.drop_first();
        unordered_owners(rest, sealed_term);
        let more = unordered_walk(rest, sealed_term).items;
        assert(items =~= seq![CountCandidate { owner, sealed_term }] + more);
        assert(owners_of(items) =~= seq![owner] + owners_of(more));
        assert(outcomes.map_values(pick) =~= seq![owner] + rest.map_values(pick));
    } else {
        assert(owners_of(items) =~= outcomes.map_values(pick));
    }
}

/// The batches of a posting chain hand over what the chain lists.
proof fn postings_worked(model: StoreModel, words: Seq<u64>, n: nat)
    requires
        words.len() == 11,
        words[0] == 2,
        words[1] <= u32::MAX,
        words[2] <= u32::MAX,
        words[3] <= u32::MAX,
        words[10] <= 1,
        model.worked_off(words, n) is Some,
    ensures
        ({
            let term = TermRef { page: words[4] as u32, offset: words[5] as u16 };
            let items = model.worked_off(words, n)->Some_0;
            &&& chain_list(model, term, words[1] as u32, words[2] as u32, words[3] as u32) == Some(
                owners_of(items),
            )
            &&& words[10] == 0 ==> unsealed(items)
        }),
    decreases n,
{
    let term = TermRef { page: words[4] as u32, offset: words[5] as u16 };
    let (next, batch) = model.posting_batch(words)->Ok_0;
    let image = model.load_posting(words[1] as u32, term)->Ok_0;
    let walk = batch.candidates(model.layout);
    let outcomes = image.posting_stream()->Ok_0.outcomes();
    assert(image.kind != PageKind::Owners);
    unordered_owners(outcomes, batch.sealed_term);
    assert(owners_of(walk.items) =~= page_references(image));
    let items = model.worked_off(words, n)->Some_0;
    match posting_next_of(image, words[2] as u32, words[3] as u32)->Ok_0 {
        None => {
            nothing_left(model, (n - 1) as nat);
            assert(items =~= walk.items);
        },
        Some(block) => {
            reveal(checked_work);
            assert(next[0] == 2 && next[1] == block && next[3] == words[3] - 1);
            postings_worked(model, next, (n - 1) as nat);
            let rest = model.worked_off(next, (n - 1) as nat)->Some_0;
            assert(items =~= walk.items + rest);
            assert(owners_of(items) =~= owners_of(walk.items) + owners_of(rest));
        },
    }
}

/// The batches of the owner chain hand over the searchable owners on it.
proof fn owners_worked(model: StoreModel, words: Seq<u64>, n: nat)
    requires
        words.len() == 11,
        words[0] == 3,
        words[1] <= u32::MAX,
        words[2] <= u32::MAX,
        model.worked_off(words, n) is Some,
    ensures
        roster(model, words[1] as u32, words[2] as u32) matches Some(list) && model.worked_off(
            words,
            n,
        ) == Some(picked(list, plain_candidate())),
    decreases n,
{
    let pick = plain_candidate();
    let (next, batch) = model.owner_batch(words)->Ok_0;
    let image = model.load(words[1] as u32, PageKind::Owners)->Ok_0;
    let count = image.owner_count()->Ok_0;
    let here = records(image, model.layout);
    owners_sound(image, 0, 20 + count * 40, model.layout);
    slots_walked(image, 0, model.layout, pick);
    assert(here.skip(0) =~= here);
    let walk = batch.candidates(model.layout);
    assert(walk.items == picked(here, pick));
    let items = model.worked_off(words, n)->Some_0;
    match following_of(image, words[2] as u32)->Ok_0 {
        None => {
            nothing_left(model, (n - 1) as nat);
            assert(items =~= walk.items);
        },
        Some(block) => {
            reveal(checked_work);
            assert(next[0] == 3 && next[1] == block && next[2] == words[2]);
            owners_worked(model, next, (n - 1) as nat);
            let rest = roster(model, block, words[2] as u32)->Some_0;
            picked_join(here, rest, pick);
        },
    }
}

/// The work of a term hands over the owners that its list names.
#[verifier::rlimit(60)]
#[verifier::spinoff_prover]
proof fn term_worked(
    model: StoreModel,
    meta: Image,
    text: Seq<u8>,
    single: bool,
    words: Seq<u64>,
    n: nat,
)
    requires
        pages_fit(model),
        model.pages.len() <= u32::MAX,
        model.worked_off(words, n) is Some,
        match model.find_term(meta, text) {
            Err(_) => false,
            Ok(None) => words == no_work(),
            Ok(Some((image, reference))) => image.term(reference) matches Ok(entry) && words
                == term_work(
                model.pages.len() as u32,
                reference,
                entry.head,
                entry.tail,
                entry.first,
                single,
            ),
        },
    ensures
        references_of(model, meta, text) == Some(owners_of(model.worked_off(words, n)->Some_0)),
        !single ==> unsealed(model.worked_off(words, n)->Some_0),
{
    let items = model.worked_off(words, n)->Some_0;
    term_found_listed(model, meta, text);
    match model.find_term(meta, text)->Ok_0 {
        None => {
            nothing_left(model, n);
            assert(owners_of(items) =~= Seq::empty());
        },
        Some((image, reference)) => {
            let entry = image.term(reference)->Ok_0;
            assert(entry_of(term_shelf(model, meta, text)->Some_0, text) == Some(entry));
            let first = CountCandidate { owner: entry.first, sealed_term: false };
            assert(words[0] == 1 && words[1] == entry.head && words[6] == entry.first.page);
            assert(work_previous(words) == entry.first);
            let (next, batch) = model.next_batch(words)->Ok_0->Some_0;
            assert(batch.candidates(model.layout).items == seq![first]);
            if entry.head == NO_BLOCK {
                nothing_left(model, (n - 1) as nat);
                assert(items =~= seq![first]);
                assert(owners_of(items) =~= seq![entry.first]);
            } else {
                assert(next =~= words.update(0, 2));
                postings_worked(model, next, (n - 1) as nat);
                assert(TermRef { page: next[4] as u32, offset: next[5] as u16 } == reference);
                let rest = model.worked_off(next, (n - 1) as nat)->Some_0;
                assert(items =~= seq![first] + rest);
                assert(owners_of(items) =~= seq![entry.first] + owners_of(rest));
            }
        },
    }
}

/// The work of a cover hands over, of one term the owners that its list names,
/// of no term none, and of any wider cover all searchable owners.
#[verifier::rlimit(60)]
#[verifier::spinoff_prover]
pub proof fn work_covers_plan(
    model: StoreModel,
    meta: Image,
    cover: CandidatePlan<'_>,
    single: bool,
    words: Seq<u64>,
    n: nat,
)
    requires
        pages_fit(model),
        model.pages.len() <= u32::MAX,
        model.load(0, PageKind::Meta) == Ok::<Image, Error>(meta),
        model.cover_work(cover, single) == Ok::<Seq<u64>, Error>(words),
        model.worked_off(words, n) is Some,
    ensures
        ({
            let items = model.worked_off(words, n)->Some_0;
            &&& match cover {
                CandidatePlan::Empty => items.len() == 0,
                CandidatePlan::Universe => all_owners(model, meta) matches Some(list) && owners_of(
                    items,
                ) == searchable_of(list),
                CandidatePlan::Terms(terms) => if terms@.len() == 1 {
                    references_of(model, meta, text_bytes(terms@[0])) == Some(owners_of(items))
                } else {
                    all_owners(model, meta) matches Some(list) && owners_of(items)
                        == searchable_of(list)
                },
            }
            &&& !single ==> unsealed(items)
        }),
{
    reveal(checked_work);
    nothing_left(model, n);
    let items = model.worked_off(words, n)->Some_0;
    assert(owners_of(Seq::<CountCandidate>::empty()) =~= Seq::empty());
    let size = model.pages.len() as u32;
    let one = cover matches CandidatePlan::Terms(terms) && terms@.len() == 1;
    if cover is Empty {
    } else if one {
        term_worked(model, meta, text_bytes(cover->Terms_0@[0]), single, words, n);
    } else {
        let (head, tail) = meta.owner_chain()->Ok_0;
        if head == NO_BLOCK {
            assert(searchable_of(Seq::<OwnerModel>::empty()) =~= Seq::empty());
        } else {
            assert(words == owner_work(size, head, tail));
            owners_worked(model, words, n);
            picked_owners(roster(model, head, tail)->Some_0);
        }
    }
}

/// The terms of a cover are terms of the query.
pub proof fn cover_terms_are_named(query: QueryModel, index: int, term: Seq<u8>)
    requires
        query.wf(),
        0 <= index < query.nodes.len(),
        query.cover(index).contains(term),
    ensures
        query_texts(query).contains(term),
    decreases index,
{
    assert(crate::query::ordered(query.nodes[index], index));
    match query.nodes[index] {
        KindModel::Term(_) => {
            assert(crate::mutable::query::kind_names(query.nodes[index], term));
        },
        KindModel::Phrase(terms) => {
            assert(terms[0] == term);
            assert(crate::mutable::query::kind_names(query.nodes[index], term));
        },
        KindModel::And(left, right) => {
            if query.cost(left) <= query.cost(right) {
                cover_terms_are_named(query, left, term);
            } else {
                cover_terms_are_named(query, right, term);
            }
        },
        KindModel::Or(left, right) => {
            if query.cover(left).contains(term) {
                cover_terms_are_named(query, left, term);
            } else {
                cover_terms_are_named(query, right, term);
            }
        },
        _ => {},
    }
}

/// Work loses no match: followed to its end, the work that was captured for a
/// query hands over every searchable owner whose document satisfies the query.
pub proof fn work_loses_nothing(
    host: Host,
    meta: Image,
    query: QueryModel,
    state: WorkState,
    n: nat,
    owner: OwnerModel,
    document: Seq<Seq<u8>>,
)
    requires
        pages_fit(host.model),
        host.model.pages.len() <= u32::MAX,
        host.model.load(0, PageKind::Meta) == Ok::<Image, Error>(meta),
        captures(host, query, Ok(state)),
        host.model.worked_off(state@, n) is Some,
        query.wf(),
        all_owners(host.model, meta) matches Some(list) && list.contains(owner),
        searchable(owner),
        indexed(host.model, meta, query_texts(query), owner.reference, document),
        query.holds(document),
    ensures
        owners_of(host.model.worked_off(state@, n)->Some_0).contains(owner.reference),
{
    let model = host.model;
    let single = query.nodes[query.root] is Term;
    let result: Result<WorkState> = Ok(state);
    let cover = choose|cover: CandidatePlan<'_>|
        cover.is_cover(query) && #[trigger] answers(
            host,
            host,
            words_of(result),
            model.cover_work(cover, single),
        );
    assert(model.cover_work(cover, single) == Ok::<Seq<u64>, Error>(state@));
    work_covers_plan(model, meta, cover, single, state@, n);
    plan_covers_matches(query, cover, document);
    searchable_named(all_owners(model, meta)->Some_0, owner);
    if let CandidatePlan::Terms(terms) = cover {
        if terms@.len() == 1 {
            let term = choose|term: Seq<u8>| #[trigger]
                listed(terms@, term) && document.contains(term);
            assert(text_bytes(terms@[0]) == term);
            assert(query.cover(query.root).contains(term));
            cover_terms_are_named(query, query.root, term);
        }
    }
}

/// Every batch brings work nearer to its end.
pub proof fn work_advances(model: StoreModel, words: Seq<u64>)
    requires
        words.len() == 11,
        is_work(words),
        model.next_batch(words) matches Ok(Some(_)),
    ensures
        model.next_batch(words) matches Ok(Some((next, _))) && (next == no_work() || (words[0] == 1
            && next == words.update(0, 2)) || (next[0] == words[0] && next[3] < words[3])),
{
    reveal(checked_work);
}

} // verus!
