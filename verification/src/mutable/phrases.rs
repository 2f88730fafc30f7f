//! Phrases of stored documents: what payloads tell of a phrase is what the words
//! of the document say.

use crate::callbacks::{Found, RootItem};
use crate::candidate::CandidatePlan;
use crate::error::{Error, Result};
use crate::mutable::answers::{
    added_handed, cover_scan_loses_nothing, flat_from, flat_holds, handed_over, kept,
    plan_rechecked, value_indexed,
};
use crate::mutable::counting::indexed;
use crate::mutable::document::{
    document_entries, entry_positions, phrase_at, phrase_lists, phrase_present, term_positions,
    TermEntry,
};
use crate::mutable::grouped::frontier::whole_payload;
use crate::mutable::insertion::mentions;
use crate::mutable::listing::pages_fit;
use crate::mutable::page::model::Image;
use crate::mutable::page::{OwnerModel, OwnerRef, PageKind, NO_BLOCK};
use crate::mutable::phrase_laws::prefixes_tell_of_documents;
use crate::mutable::phrase_prefix::wanted_bytes;
use crate::mutable::prepare::{
    document_code, document_code_valid, occurrences, occurrences_exact, prepared_read_back,
    storable,
};
use crate::mutable::query::{
    covered_by, covered_scan, first_fragment, flat, fragments, listing, necessary, payload_told,
    phrase_shown, planned_scan, query_texts, query_told, scanned, selected, shown, single_phrase,
    undamaged, universal,
};
use crate::mutable::reader::searchable;
use crate::mutable::store::StoreModel;
use crate::query::{KindModel, QueryModel};
use vstd::prelude::*;

verus! {

/// The last entry that names a term decides where it stands.
proof fn positions_found(entries: Seq<TermEntry>, term: Seq<u8>, words: Seq<Seq<u8>>)
    requires
        forall|k: int|
            0 <= k < entries.len() ==> entry_positions(#[trigger] entries[k]) == occurrences(
                words,
                entries[k].term,
            ),
    ensures
        term_positions(entries, term) == (if mentions(entries, term) {
            Some(occurrences(words, term))
        } else {
            None
        }),
    decreases entries.len(),
{
    if entries.len() > 0 {
        let front = entries.drop_last();
        assert forall|k: int| 0 <= k < front.len() implies entry_positions(#[trigger] front[k])
            == occurrences(words, front[k].term) by {
            assert(front[k] == entries[k]);
        }
        positions_found(front, term, words);
        let last = entries.len() - 1;
        if entries.last().term == term {
            assert(entries[last].term == term);
        } else {
            if mentions(front, term) {
                let i = choose|i: int| 0 <= i < front.len() && (#[trigger] front[i]).term == term;
                assert(entries[i].term == term);
            }
            if mentions(entries, term) {
                let i = choose|i: int|
                    0 <= i < entries.len() && (#[trigger] entries[i]).term == term;
                assert(front[i].term == term);
            }
        }
    }
}

/// A stored document mentions its words, and no others.
pub proof fn stored_documents_mention_their_words(
    words: Seq<Seq<u8>>,
    terms: Seq<Seq<u8>>,
    text: Seq<u8>,
)
    requires
        storable(words, terms),
    ensures
        mentions(document_entries(document_code(words, terms)), text) == words.contains(text),
{
    let entries = document_entries(document_code(words, terms));
    prepared_read_back(words, terms);
    if mentions(entries, text) {
        let i = choose|i: int| 0 <= i < entries.len() && (#[trigger] entries[i]).term == text;
        assert(terms[i] == text);
        assert(terms.contains(text));
    }
    if words.contains(text) {
        assert(terms.contains(text));
        let i = choose|i: int| 0 <= i < terms.len() && terms[i] == text;
        assert(entries[i].term == text);
    }
}

/// A phrase stands in a stored document where it stands in its words.
pub proof fn stored_phrases_are_those_of_words(
    words: Seq<Seq<u8>>,
    terms: Seq<Seq<u8>>,
    phrase: Seq<String>,
)
    requires
        storable(words, terms),
        phrase.len() > 0,
    ensures
        phrase_present(phrase_lists(document_entries(document_code(words, terms)), phrase))
            == crate::query::phrase_present(words, wanted_bytes(phrase)),
{
    let entries = document_entries(document_code(words, terms));
    let lists = phrase_lists(entries, phrase);
    let wanted = wanted_bytes(phrase);
    prepared_read_back(words, terms);
    assert forall|k: int| 0 <= k < entries.len() implies entry_positions(#[trigger] entries[k])
        == occurrences(words, entries[k].term) by {}
    assert forall|k: int| 0 <= k < phrase.len() implies #[trigger] lists[k] == (if words.contains(
        wanted[k],
    ) {
        Some(occurrences(words, wanted[k]))
    } else {
        None
    }) by {
        positions_found(entries, wanted[k], words);
        stored_documents_mention_their_words(words, terms, wanted[k]);
    }
    if phrase_present(lists) {
        let start = choose|start: int| 0 <= start && #[trigger] phrase_at(lists, start);
        assert forall|k: int| 0 <= k < phrase.len() implies start + k < words.len() && words[start
            + k] == #[trigger] wanted[k] by {
            assert(lists[k] is Some);
            occurrences_exact(words, wanted[k]);
            let found = occurrences(words, wanted[k]);
            let i = choose|i: int| 0 <= i < found.len() && found[i] == (start + k) as u32;
            assert(words[found[i] as int] == wanted[k]);
        }
        let last = phrase.len() - 1;
        assert(words[start + last] == wanted[last]);
        assert(words.subrange(start, start + wanted.len()) =~= wanted);
        assert(crate::query::phrase_at(words, wanted, start));
    }
    if crate::query::phrase_present(words, wanted) {
        let start = choose|start: int| #[trigger] crate::query::phrase_at(words, wanted, start);
        let part = words.subrange(start, start + wanted.len());
        assert forall|k: int| 0 <= k < lists.len() implies (#[trigger] lists[k]) is Some && start
            + k <= u32::MAX && lists[k]->Some_0.contains((start + k) as u32) by {
            assert(part[k] == words[start + k]);
            assert(words[start + k] == wanted[k]);
            occurrences_exact(words, wanted[k]);
        }
        assert(phrase_at(lists, start));
    }
}

/// Whether the payload of an owner is the stored form of some words.
pub open spec fn stores(model: StoreModel, owner: OwnerModel, words: Seq<Seq<u8>>) -> bool {
    exists|terms: Seq<Seq<u8>>| #[trigger]
        storable(words, terms) && whole_payload(model, owner) == Some(document_code(words, terms))
            && owner.tokens == words.len() && owner.terms == terms.len() && (owner.inline.len() == 0
            ==> owner.data_bytes == document_code(words, terms).len())
}

/// The first fragment begins the payload.
proof fn fragment_begins(model: StoreModel, owner: OwnerModel, bytes: Seq<u8>, part: Seq<u8>)
    requires
        owner.inline.len() == 0,
        whole_payload(model, owner) == Some(bytes),
        bytes.len() > 0,
        first_fragment(model, owner) == Some(part),
    ensures
        part.len() <= bytes.len(),
        part == bytes.take(part.len() as int),
{
    assert(owner.data_head != NO_BLOCK);
    let image = model.load(owner.data_head, PageKind::Fragment)->Ok_0;
    let next = image.next()->Ok_0;
    let rest = fragments(
        model,
        owner,
        next,
        part.len() as int,
        (model.pages.len() as u32 - 1) as u32,
    )->Some_0;
    assert(bytes == part + rest);
    assert(part =~= bytes.take(part.len() as int));
}

/// What a payload tells of a phrase is what the words say.
proof fn payload_is_true(
    model: StoreModel,
    owner: OwnerModel,
    words: Seq<Seq<u8>>,
    phrase: Seq<String>,
    part: Seq<u8>,
    present: bool,
)
    requires
        stores(model, owner, words),
        0 < phrase.len() <= 64,
        payload_told(model, owner, wanted_bytes(phrase), part, present),
    ensures
        present == crate::query::phrase_present(words, wanted_bytes(phrase)),
{
    let terms = choose|terms: Seq<Seq<u8>>| #[trigger]
        storable(words, terms) && whole_payload(model, owner) == Some(document_code(words, terms))
            && owner.tokens == words.len() && owner.terms == terms.len() && (owner.inline.len() == 0
            ==> owner.data_bytes == document_code(words, terms).len());
    let bytes = document_code(words, terms);
    document_code_valid(words, terms);
    assert(bytes.len() >= 4);
    if owner.inline.len() > 0 || part == bytes {
        assert(part =~= bytes.take(part.len() as int));
    } else {
        fragment_begins(model, owner, bytes, part);
    }
    prefixes_tell_of_documents(bytes, part.len() as int, phrase, Ok(Some(present)));
    stored_phrases_are_those_of_words(words, terms, phrase);
}

/// A query that is one phrase.
pub open spec fn asks_phrase(query: QueryModel, phrase: Seq<String>) -> bool {
    &&& query.wf()
    &&& single_phrase(query)
    &&& query.nodes[query.root] == KindModel::Phrase(wanted_bytes(phrase))
}

/// A scan that decides a phrase by payloads loses no match.
#[verifier::rlimit(60)]
#[verifier::spinoff_prover]
pub proof fn phrase_scan_loses_nothing<T: RootItem>(
    model: StoreModel,
    meta: Image,
    query: QueryModel,
    phrase: Seq<String>,
    memory_bytes: usize,
    before: Seq<T>,
    now: Seq<T>,
    count: u64,
    certain: bool,
    owner: OwnerModel,
    words: Seq<Seq<u8>>,
)
    requires
        pages_fit(model),
        model.load(0, PageKind::Meta) == Ok::<Image, Error>(meta),
        asks_phrase(query, phrase),
        undamaged(model, meta, query_texts(query)),
        query_told(model, query, memory_bytes, true, before, now, Ok(count), certain),
        kept(model, meta, owner),
        indexed(model, meta, query_texts(query), owner.reference, words),
        stores(model, owner, words),
        query.holds(words),
    ensures
        handed_over(before, now, owner.root),
{
    let result: Result<u64> = Ok(count);
    assert(phrase.len() > 0) by {
        assert(crate::query::ordered(query.nodes[query.root], query.root));
        assert(wanted_bytes(phrase).len() == phrase.len());
    }
    reveal(scanned);
    if exists|room: usize|
        room <= memory_bytes && #[trigger] planned_scan(
            model,
            query,
            true,
            room,
            before,
            now,
            result,
            certain,
        ) {
        let room = choose|room: usize|
            room <= memory_bytes && #[trigger] planned_scan(
                model,
                query,
                true,
                room,
                before,
                now,
                result,
                certain,
            );
        reveal(planned_scan);
        if universal(query) {
            let plan: CandidatePlan<'_> = CandidatePlan::Universe;
            cover_scan_loses_nothing::<T>(model, meta, query, plan, owner, words);
            added_handed(before, now, model.plan_walk::<T>(plan).items, owner.root, true);
        } else {
            let (owners, items) = choose|owners: Seq<OwnerRef>, items: Seq<Option<T>>|
                #![trigger listing(model, query, true, room, owners, items)]
                selected(model, meta, query, owners) && listing(
                    model,
                    query,
                    true,
                    room,
                    owners,
                    items,
                ) && now == before + flat(items);
            necessary(query, query.root, words);
            value_indexed(model, meta, query, query.root, owner.reference, words);
            assert(owners.contains(owner.reference));
            let i = choose|i: int| 0 <= i < owners.len() && owners[i] == owner.reference;
            assert(shown(model, query, true, room, owners[i], items[i]));
            let wanted = wanted_bytes(phrase);
            assert(phrase_shown(model, wanted, room, owner.reference, items[i]));
            assert forall|part: Seq<u8>, present: bool| #[trigger]
                payload_told(model, owner, wanted, part, present) implies present by {
                payload_is_true(model, owner, words, phrase, part, present);
            }
            flat_holds(items, i);
            let recheck = items[i] == Some(T::of(owner.root, true));
            assert(items[i] == Some(T::of(owner.root, recheck)));
            added_handed(before, now, flat(items), owner.root, recheck);
        }
    } else {
        reveal(covered_scan);
        let plan = choose|plan: CandidatePlan<'_>|
            plan.is_cover(query) && #[trigger] covered_by(
                model,
                plan,
                before,
                now,
                result,
                certain,
            );
        cover_scan_loses_nothing::<T>(model, meta, query, plan, owner, words);
        added_handed(before, now, model.plan_walk::<T>(plan).items, owner.root, true);
    }
}

/// A phrase that payloads prove stands in the document: what is handed over
/// without a recheck is the root of a searchable owner whose stored words hold
/// the phrase.
#[verifier::rlimit(60)]
#[verifier::spinoff_prover]
pub proof fn unrechecked_phrases_match(
    model: StoreModel,
    meta: Image,
    query: QueryModel,
    phrase: Seq<String>,
    memory_bytes: usize,
    before: Seq<Found>,
    now: Seq<Found>,
    count: u64,
    certain: bool,
    i: int,
) -> (owner: OwnerModel)
    requires
        pages_fit(model),
        model.load(0, PageKind::Meta) == Ok::<Image, Error>(meta),
        asks_phrase(query, phrase),
        undamaged(model, meta, query_texts(query)),
        query_told(model, query, memory_bytes, true, before, now, Ok(count), certain),
        before.len() <= i < now.len(),
        !now[i].recheck,
    ensures
        model.owner_of(owner.reference) == Ok::<OwnerModel, Error>(owner),
        searchable(owner),
        owner.root == now[i].root,
        forall|words: Seq<Seq<u8>>| #[trigger]
            stores(model, owner, words) ==> query.holds(words),
{
    let result: Result<u64> = Ok(count);
    assert(phrase.len() > 0) by {
        assert(crate::query::ordered(query.nodes[query.root], query.root));
        assert(wanted_bytes(phrase).len() == phrase.len());
    }
    reveal(scanned);
    let room = choose|room: usize|
        room <= memory_bytes && #[trigger] planned_scan(
            model,
            query,
            true,
            room,
            before,
            now,
            result,
            certain,
        );
    if !planned_scan(model, query, true, room, before, now, result, certain) {
        reveal(covered_scan);
        let plan = choose|plan: CandidatePlan<'_>|
            plan.is_cover(query) && #[trigger] covered_by(
                model,
                plan,
                before,
                now,
                result,
                certain,
            );
        plan_rechecked(model, plan);
        assert(now[i] == model.plan_walk::<Found>(plan).items[i - before.len()]);
    }
    reveal(planned_scan);
    if universal(query) {
        let plan: CandidatePlan<'_> = CandidatePlan::Universe;
        plan_rechecked(model, plan);
        assert(now[i] == model.plan_walk::<Found>(plan).items[i - before.len()]);
    }
    let (owners, items) = choose|owners: Seq<OwnerRef>, items: Seq<Option<Found>>|
        #![trigger listing(model, query, true, room, owners, items)]
        selected(model, meta, query, owners) && listing(model, query, true, room, owners, items)
            && now == before + flat(items);
    let k = i - before.len();
    assert(now[i] == flat(items)[k]);
    let j = flat_from(items, k);
    assert(shown(model, query, true, room, owners[j], items[j]));
    let wanted = wanted_bytes(phrase);
    assert(phrase_shown(model, wanted, room, owners[j], items[j]));
    let owner = model.owner_of(owners[j])->Ok_0;
    let (part, present) = choose|part: Seq<u8>, present: bool| #[trigger]
        payload_told(model, owner, wanted, part, present) && items[j] == if present {
            Some(Found::of(owner.root, false))
        } else {
            None
        };
    assert forall|words: Seq<Seq<u8>>| #[trigger] stores(model, owner, words) implies query.holds(
        words,
    ) by {
        payload_is_true(model, owner, words, phrase, part, present);
    }
    owner
}

} // verus!
