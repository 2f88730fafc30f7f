//! Duplicate-free owner streaming for a guarded direct count.
//! Sealed membership is not visibility: the host rereads the canonical owner
//! under protection before consulting visibility, or fetches and rechecks the heap.

use crate::callbacks::Sink;
use crate::codec::records::Publication;
use crate::error::{Error, Result};
use crate::mutable::page::model::Image;
use crate::mutable::page::{
    Owner, OwnerModel, OwnerRef, Page, PageKind, Postings, Term, TermRef, NO_BLOCK,
};
use crate::mutable::reader::slots_walk;
use crate::mutable::store::{
    find_term, following, following_of, load, load_posting, posting_next, posting_next_of,
    PageStore, StoreModel,
};
use crate::mutable::walk::{
    delivered, handed, reached, reached_next, reached_part, reached_partly, refused_partly, send,
    Walk,
};
use crate::query::{Kind, KindModel, Query, QueryModel};
use crate::text::text_bytes;
use vstd::prelude::*;

verus! {

broadcast use reached_partly;

/// An incarnation-qualified candidate, never a snapshot-visible row.
#[derive(Clone, Copy, Debug, Eq, PartialEq, Structural)]
pub struct CountCandidate {
    pub owner: OwnerRef,
    /// True only for an exact single-term hit in a sealed posting page.
    /// The host still validates publication, liveness and visibility ordering.
    pub sealed_term: bool,
}

/// Whether an owner stands behind another one, in place and in time.
pub open spec fn behind(owner: OwnerRef, previous: OwnerRef) -> bool {
    &&& previous.page < owner.page || (previous.page == owner.page && previous.slot < owner.slot)
    &&& previous.incarnation.spec_get() < owner.incarnation.spec_get()
}

/// The owners of a posting page, each behind the one before it.
pub open spec fn ordered_walk(
    outcomes: Seq<Result<OwnerRef>>,
    previous: OwnerRef,
    sealed_term: bool,
) -> Walk<CountCandidate>
    decreases outcomes.len(),
{
    if outcomes.len() == 0 {
        Walk::nothing()
    } else {
        match outcomes[0] {
            Err(error) => Walk::failed(error),
            Ok(owner) => if !behind(owner, previous) {
                Walk::failed(Error::InvalidState)
            } else {
                Walk::one(CountCandidate { owner, sealed_term }).and(
                    ordered_walk(outcomes.drop_first(), owner, sealed_term),
                )
            },
        }
    }
}

/// The owner met last.
pub open spec fn last_owner(items: Seq<CountCandidate>, previous: OwnerRef) -> OwnerRef {
    if items.len() == 0 {
        previous
    } else {
        items.last().owner
    }
}

impl StoreModel {
    /// The owners on a posting chain of at most `remaining` pages.
    pub open spec fn ordered_chain_walk(
        self,
        term: TermRef,
        block: u32,
        tail: u32,
        remaining: u32,
        previous: OwnerRef,
    ) -> Walk<CountCandidate>
        decreases remaining,
    {
        match self.load_posting(block, term) {
            Err(error) => Walk::failed(error),
            Ok(image) => match image.posting_stream() {
                Err(error) => Walk::failed(error),
                Ok(stream) => {
                    let page = ordered_walk(
                        stream.outcomes(),
                        previous,
                        image.kind == PageKind::SealedPostings,
                    );
                    page.and(
                        match posting_next_of(image, tail, remaining) {
                            Err(error) => Walk::failed(error),
                            Ok(None) => Walk::nothing(),
                            Ok(Some(next)) => if remaining > 0 {
                                self.ordered_chain_walk(
                                    term,
                                    next,
                                    tail,
                                    (remaining - 1) as u32,
                                    last_owner(page.items, previous),
                                )
                            } else {
                                Walk::nothing()
                            },
                        },
                    )
                },
            },
        }
    }

    /// The owners of a term: the one that its entry names, then those of its chain.
    pub open spec fn term_owners_walk(self, meta: Image, term: Seq<u8>) -> Walk<CountCandidate> {
        match self.find_term(meta, term) {
            Err(error) => Walk::failed(error),
            Ok(None) => Walk::nothing(),
            Ok(Some((image, reference))) => match image.term(reference) {
                Err(error) => Walk::failed(error),
                Ok(entry) => Walk::one(
                    CountCandidate { owner: entry.first, sealed_term: false },
                ).and(
                    if entry.head == NO_BLOCK {
                        Walk::nothing()
                    } else {
                        self.ordered_chain_walk(
                            reference,
                            entry.head,
                            entry.tail,
                            self.pages.len() as u32,
                            entry.first,
                        )
                    },
                ),
            },
        }
    }

    /// The owners that may satisfy a query: of a term its postings, of any
    /// other expression all searchable owners.
    pub open spec fn count_walk(self, query: QueryModel) -> Walk<CountCandidate> {
        match query.nodes[query.root] {
            KindModel::Nothing => Walk::nothing(),
            kind => match self.load(0, PageKind::Meta) {
                Err(error) => Walk::failed(error),
                Ok(meta) => match kind {
                    KindModel::Term(term) => self.term_owners_walk(meta, term),
                    _ => self.universe_walk(meta, plain_candidate()),
                },
            },
        }
    }
}

/// A searchable owner as a candidate without a seal.
pub open spec fn plain_candidate() -> spec_fn(OwnerModel) -> CountCandidate {
    |owner: OwnerModel| CountCandidate { owner: owner.reference, sealed_term: false }
}

/// The owners of a posting page stand behind `previous` and one another.
pub proof fn walk_ordered(
    outcomes: Seq<Result<OwnerRef>>,
    previous: OwnerRef,
    sealed_term: bool,
)
    ensures
        chained(ordered_walk(outcomes, previous, sealed_term).items, previous),
    decreases outcomes.len(),
{
    if outcomes.len() > 0 {
        if let Ok(owner) = outcomes[0] {
            if behind(owner, previous) {
                walk_ordered(outcomes.drop_first(), owner, sealed_term);
                let rest = ordered_walk(outcomes.drop_first(), owner, sealed_term).items;
                let all = ordered_walk(outcomes, previous, sealed_term).items;
                assert(all =~= seq![CountCandidate { owner, sealed_term }] + rest);
                assert forall|i: int, j: int| 0 <= i < j < all.len() implies behind(
                    (#[trigger] all[j]).owner,
                    (#[trigger] all[i]).owner,
                ) by {
                    assert(all[j] == rest[j - 1]);
                    if i > 0 {
                        assert(all[i] == rest[i - 1]);
                    }
                }
                assert forall|i: int| 0 <= i < all.len() implies behind(
                    (#[trigger] all[i]).owner,
                    previous,
                ) by {
                    if i > 0 {
                        assert(all[i] == rest[i - 1]);
                    }
                }
            }
        }
    }
}

/// Whether each candidate stands behind `previous` and the ones before it.
pub open spec fn chained(items: Seq<CountCandidate>, previous: OwnerRef) -> bool {
    &&& forall|i: int| 0 <= i < items.len() ==> behind((#[trigger] items[i]).owner, previous)
    &&& forall|i: int, j: int|
        0 <= i < j < items.len() ==> behind(
            (#[trigger] items[j]).owner,
            (#[trigger] items[i]).owner,
        )
}

proof fn chain_ordered(
    model: StoreModel,
    term: TermRef,
    block: u32,
    tail: u32,
    remaining: u32,
    previous: OwnerRef,
)
    ensures
        chained(
            model.ordered_chain_walk(term, block, tail, remaining, previous).items,
            previous,
        ),
    decreases remaining,
{
    if let Ok(image) = model.load_posting(block, term) {
        if let Ok(stream) = image.posting_stream() {
            let sealed_term = image.kind == PageKind::SealedPostings;
            walk_ordered(stream.outcomes(), previous, sealed_term);
            let page = ordered_walk(stream.outcomes(), previous, sealed_term);
            let last = last_owner(page.items, previous);
            let all = model.ordered_chain_walk(term, block, tail, remaining, previous).items;
            if let Ok(Some(next)) = posting_next_of(image, tail, remaining) {
                if page.end is Ok && remaining > 0 {
                    chain_ordered(model, term, next, tail, (remaining - 1) as u32, last);
                    let rest = model.ordered_chain_walk(
                        term,
                        next,
                        tail,
                        (remaining - 1) as u32,
                        last,
                    ).items;
                    let split = page.items.len() as int;
                    assert(all =~= page.items + rest);
                    assert forall|i: int| 0 <= i < all.len() implies behind(
                        (#[trigger] all[i]).owner,
                        previous,
                    ) by {
                        if i >= split {
                            assert(behind(rest[i - split].owner, last));
                            if split > 0 {
                                assert(behind(page.items[split - 1].owner, previous));
                            }
                        }
                    }
                    assert forall|i: int, j: int| 0 <= i < j < all.len() implies behind(
                        (#[trigger] all[j]).owner,
                        (#[trigger] all[i]).owner,
                    ) by {
                        if j >= split {
                            assert(all[j] == rest[j - split]);
                            assert(behind(rest[j - split].owner, last));
                            if i >= split {
                                assert(all[i] == rest[i - split]);
                            } else if i < split - 1 {
                                assert(behind(page.items[split - 1].owner, page.items[i].owner));
                            }
                        }
                    }
                } else {
                    assert(all =~= page.items);
                }
            } else {
                assert(all =~= page.items);
            }
        }
    }
}

/// Each possible owner of a term is streamed once, in ascending order of place
/// and incarnation.
pub proof fn term_owners_distinct(model: StoreModel, meta: Image, term: Seq<u8>)
    ensures
        ({
            let items = model.term_owners_walk(meta, term).items;
            forall|i: int, j: int|
                0 <= i < j < items.len() ==> behind(
                    (#[trigger] items[j]).owner,
                    (#[trigger] items[i]).owner,
                )
        }),
{
    let items = model.term_owners_walk(meta, term).items;
    if let Ok(Some((image, reference))) = model.find_term(meta, term) {
        if let Ok(entry) = image.term(reference) {
            if entry.head != NO_BLOCK {
                let remaining = model.pages.len() as u32;
                chain_ordered(model, reference, entry.head, entry.tail, remaining, entry.first);
                let rest = model.ordered_chain_walk(
                    reference,
                    entry.head,
                    entry.tail,
                    remaining,
                    entry.first,
                ).items;
                assert(items =~= seq![CountCandidate { owner: entry.first, sealed_term: false }]
                    + rest);
                assert forall|i: int, j: int| 0 <= i < j < items.len() implies behind(
                    (#[trigger] items[j]).owner,
                    (#[trigger] items[i]).owner,
                ) by {
                    assert(items[j] == rest[j - 1]);
                    if i > 0 {
                        assert(items[i] == rest[i - 1]);
                    }
                }
            }
        }
    }
}

/// Hands over the owners of a posting page.
#[verifier::loop_isolation(false)]
fn count_page<E: Sink<CountCandidate>>(
    page: &Page,
    previous: &mut OwnerRef,
    emit: &mut E,
    count: &mut u64,
) -> (result: Result<()>)
    ensures
        final(emit).accepting() == old(emit).accepting(),
        ({
            let walk = match page@.posting_stream() {
                Err(error) => Walk::failed(error),
                Ok(stream) => ordered_walk(
                    stream.outcomes(),
                    *old(previous),
                    page@.kind == PageKind::SealedPostings,
                ),
            };
            &&& handed(
                walk,
                old(emit).received(),
                final(emit).received(),
                (*old(count) as int, *final(count) as int),
                result,
                old(emit).accepting(),
                Error::Limit("count candidates"),
            )
            &&& result is Ok ==> *final(previous) == last_owner(walk.items, *old(previous))
        }),
{
    let ghost before = emit.received();
    let ghost base = *count as int;
    let sealed_term: bool = page.kind() == PageKind::SealedPostings;
    let ghost total = match page@.posting_stream() {
        Err(error) => Walk::failed(error),
        Ok(stream) => ordered_walk(stream.outcomes(), *previous, sealed_term),
    };
    let ghost mut met: Seq<CountCandidate> = Seq::empty();
    assert(total =~= total.after(met));
    assert(before =~= before + met);
    assert(reached(total, before, emit.received(), *count - base, met, total));
    let mut references: Postings<'_> = page.posting_refs()?;
    loop
        invariant
            emit.accepting() == old(emit).accepting(),
            *previous == last_owner(met, *old(previous)),
            reached(
                total,
                before,
                emit.received(),
                *count - base,
                met,
                ordered_walk(references@, *previous, sealed_term),
            ),
        decreases references@.len(),
    {
        let owner: OwnerRef = match references.next() {
            None => {
                assert(total.items =~= met);
                return Ok(());
            },
            Some(owner) => owner?,
        };
        if owner.page < previous.page || (owner.page == previous.page && owner.slot
            <= previous.slot) || owner.incarnation.get() <= previous.incarnation.get() {
            return Err(Error::InvalidState);
        }
        let candidate: CountCandidate = CountCandidate { owner, sealed_term };
        let ghost now = emit.received();
        let ghost counted = *count - base;
        let ghost more = ordered_walk(references@, owner, sealed_term);
        proof {
            refused_partly(total, before, now, counted, met, candidate, more);
        }
        send(emit, candidate, count, "count candidates")?;
        proof {
            reached_next(total, before, now, counted, met, candidate, more);
            met = met.push(candidate);
        }
        *previous = owner;
    }
}

/// Hands over the owners of a term.
#[verifier::loop_isolation(false)]
fn count_term<S: PageStore, E: Sink<CountCandidate>>(
    store: &mut S,
    meta: &Page,
    term: &str,
    emit: &mut E,
) -> (result: Result<u64>)
    ensures
        final(store).host() == old(store).host(),
        delivered(
            old(store).host().model.term_owners_walk(meta@, text_bytes(term)),
            old(emit).received(),
            final(emit).received(),
            result,
            old(store).host().reliable && old(emit).accepting(),
            Error::Limit("count candidates"),
        ),
{
    let ghost model = store.host().model;
    let ghost before = emit.received();
    let mut count: u64 = 0;
    let ghost total = model.term_owners_walk(meta@, text_bytes(term));
    let ghost mut met: Seq<CountCandidate> = Seq::empty();
    assert(total =~= total.after(met));
    assert(before =~= before + met);
    assert(reached(total, before, emit.received(), 0, met, total));
    let (dictionary, reference): (Page, TermRef) = match find_term(store, meta, term)? {
        Some(found) => found,
        None => {
            return Ok(0);
        },
    };
    let entry: Term<'_> = dictionary.term(reference)?;
    let (first, head, tail): (OwnerRef, u32, u32) = (entry.first, entry.head, entry.tail);
    assert(entry@ == dictionary@.term(reference)->Ok_0);
    // the inline dictionary owner has no sealed-source certificate.
    let candidate: CountCandidate = CountCandidate { owner: first, sealed_term: false };
    let ghost rest = if head == NO_BLOCK {
        Walk::nothing()
    } else {
        model.ordered_chain_walk(reference, head, tail, model.pages.len() as u32, first)
    };
    proof {
        refused_partly(total, before, before, 0, met, candidate, rest);
    }
    send(emit, candidate, &mut count, "count candidates")?;
    proof {
        reached_next(total, before, before, 0, met, candidate, rest);
        met = met.push(candidate);
    }
    if head == NO_BLOCK {
        return Ok(count);
    }
    let mut previous: OwnerRef = first;
    let mut block: u32 = head;
    let mut remaining: u32 = store.blocks()?;
    loop
        invariant
            store.host() == old(store).host(),
            emit.accepting() == old(emit).accepting(),
            reached(
                total,
                before,
                emit.received(),
                count as int,
                met,
                model.ordered_chain_walk(reference, block, tail, remaining, previous),
            ),
        decreases remaining,
    {
        let page: Page = load_posting(store, block, reference)?;
        let ghost part = match page@.posting_stream() {
            Err(error) => Walk::failed(error),
            Ok(stream) => ordered_walk(
                stream.outcomes(),
                previous,
                page@.kind == PageKind::SealedPostings,
            ),
        };
        let ghost rest = match posting_next_of(page@, tail, remaining) {
            Err(error) => Walk::failed(error),
            Ok(None) => Walk::nothing(),
            Ok(Some(next)) => if remaining > 0 {
                model.ordered_chain_walk(
                    reference,
                    next,
                    tail,
                    (remaining - 1) as u32,
                    last_owner(part.items, previous),
                )
            } else {
                Walk::nothing()
            },
        };
        let ghost now = emit.received();
        let ghost counted = count as int;
        let outcome: Result<()> = count_page(&page, &mut previous, emit, &mut count);
        proof {
            assert(part.items.take(part.items.len() as int) =~= part.items);
            reached_part(total, before, now, counted, met, part, rest, emit.received());
            met = met + part.items;
        }
        outcome?;
        match posting_next(&page, tail, &mut remaining)? {
            Some(next) => {
                block = next;
            },
            None => {
                return Ok(count);
            },
        }
    }
}

/// Hands over all searchable owners.
#[verifier::loop_isolation(false)]
fn count_universe<S: PageStore, E: Sink<CountCandidate>>(store: &mut S, meta: &Page, emit: &mut E) -> (
result: Result<u64>)
    ensures
        final(store).host() == old(store).host(),
        delivered(
            old(store).host().model.universe_walk(meta@, plain_candidate()),
            old(emit).received(),
            final(emit).received(),
            result,
            old(store).host().reliable && old(emit).accepting(),
            Error::Limit("count candidates"),
        ),
{
    let ghost pick = plain_candidate();
    let ghost model = store.host().model;
    let ghost total = model.universe_walk(meta@, pick);
    let ghost before = emit.received();
    let ghost mut met: Seq<CountCandidate> = Seq::empty();
    assert(total =~= total.after(met));
    assert(before =~= before + met);
    let mut count: u64 = 0;
    assert(reached(total, before, emit.received(), count as int, met, total));
    let (head, tail): (u32, u32) = meta.owner_chain()?;
    if head == NO_BLOCK {
        return Ok(0);
    }
    let mut block: u32 = head;
    loop
        invariant
            store.host() == old(store).host(),
            emit.accepting() == old(emit).accepting(),
            reached(
                total,
                before,
                emit.received(),
                count as int,
                met,
                model.owners_walk(block, tail, pick),
            ),
        decreases tail - block,
    {
        let page: Page = load(store, block, PageKind::Owners)?;
        let ghost rest = match following_of(page@, tail) {
            Err(error) => Walk::failed(error),
            Ok(None) => Walk::nothing(),
            Ok(Some(next)) => if block < next <= tail {
                model.owners_walk(next, tail, pick)
            } else {
                Walk::nothing()
            },
        };
        let slots: u16 = page.owner_count()?;
        let mut slot: u16 = 0;
        while slot < slots
            invariant
                slot <= slots,
                store.host() == old(store).host(),
                emit.accepting() == old(emit).accepting(),
                reached(
                    total,
                    before,
                    emit.received(),
                    count as int,
                    met,
                    slots_walk(page@, slot as int, model.layout, pick).and(rest),
                ),
            decreases slots - slot,
        {
            let owner: Owner<'_> = page.owner(slot, store.layout())?;
            let ghost more = slots_walk(page@, slot + 1, model.layout, pick).and(rest);
            // dead or unpublished owners cannot become visible in this snapshot.
            if owner.live && owner.publication == Publication::Published {
                let candidate: CountCandidate = CountCandidate {
                    owner: owner.reference,
                    sealed_term: false,
                };
                let ghost now = emit.received();
                let ghost counted = count as int;
                proof {
                    assert(pick(owner@) == candidate);
                    assert(slots_walk(page@, slot as int, model.layout, pick).and(rest)
                        =~= Walk::one(candidate).and(more));
                    refused_partly(total, before, now, counted, met, candidate, more);
                }
                send(emit, candidate, &mut count, "count candidates")?;
                proof {
                    reached_next(total, before, now, counted, met, candidate, more);
                    met = met.push(candidate);
                }
            }
            slot += 1;
        }
        assert(slots_walk(page@, slot as int, model.layout, pick).and(rest) =~= rest);
        match following(&page, tail)? {
            Some(next) => {
                block = next;
            },
            None => {
                return Ok(count);
            },
        }
    }
}

/// Streams each possible matching owner once with constant-sized private state.
/// The host holds the shared structural barrier throughout this call. Only a
/// single term uses postings; other expressions use the non-null universe and
/// require a full heap predicate recheck. No lossy union or result set is built.
///
/// # Errors
/// Rejects malformed chains, duplicate or out-of-order term owners and host errors.
/// The returned value is candidate accounting, not an exact SQL count. Host
/// errors abort the operation; no partial count may be exposed to the caller.
pub fn scan_count<S: PageStore, E: Sink<CountCandidate>>(
    store: &mut S,
    query: &Query,
    emit: &mut E,
) -> (result: Result<u64>)
    ensures
        final(store).host() == old(store).host(),
        delivered(
            old(store).host().model.count_walk(query@),
            old(emit).received(),
            final(emit).received(),
            result,
            old(store).host().reliable && old(emit).accepting(),
            Error::Limit("count candidates"),
        ),
{
    let ghost before = emit.received();
    assert(before =~= before + Seq::<CountCandidate>::empty());
    assert(before =~= before + old(store).host().model.count_walk(query@).items.take(0));
    let root: usize = query.root();
    let kind: &Kind = &query.node(root).kind;
    if let Kind::Nothing = kind {
        return Ok(0);
    }
    let meta: Page = load(store, 0, PageKind::Meta)?;
    if let Kind::Term(term) = kind {
        count_term(store, &meta, term.as_str(), emit)
    } else {
        count_universe(store, &meta, emit)
    }
}

} // verus!
