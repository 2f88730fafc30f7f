//! Bounded candidate streaming with captured chain tails and one owner-page cache.
//! This conservative reader never follows document payloads.
//! The host uses MVCC and rechecks every root emitted by this reader.

use crate::callbacks::{RootItem, Sink};
use crate::candidate::CandidatePlan;
use crate::codec::records::Publication;
use crate::error::{Error, Result};
use crate::identity::RootTid;
use crate::mutable::page::model::Image;
use crate::mutable::page::{
    Owner, OwnerModel, OwnerRef, Page, PageKind, Postings, Term, TermRef, NO_BLOCK,
};
use crate::mutable::store::{
    answers, find_term, following, following_of, load, load_posting, posting_next, posting_next_of,
    PageStore, StoreModel,
};
use crate::mutable::walk::{
    delivered, handed, reached, reached_next, reached_part, reached_partly, refused_partly, send,
    Walk,
};
use crate::text::text_bytes;
use vstd::prelude::*;

verus! {

broadcast use reached_partly;

/// Whether an owner can be seen by searches.
pub open spec fn searchable(owner: OwnerModel) -> bool {
    owner.live && owner.publication == Publication::Published
}

/// What is picked of the searchable owners of a page, from a slot on.
pub open spec fn slots_walk<T>(
    image: Image,
    slot: int,
    layout: crate::identity::HeapLayout,
    pick: spec_fn(OwnerModel) -> T,
) -> Walk<T>
    decreases 65536 - slot,
{
    match image.owner_count() {
        Err(error) => Walk::failed(error),
        Ok(count) => if slot >= count {
            Walk::nothing()
        } else {
            match image.owner(slot as u16, layout) {
                Err(error) => Walk::failed(error),
                Ok(owner) => if searchable(owner) {
                    Walk::one(pick(owner)).and(slots_walk(image, slot + 1, layout, pick))
                } else {
                    slots_walk(image, slot + 1, layout, pick)
                },
            }
        },
    }
}

impl StoreModel {
    /// What is picked of the searchable owners on the chain from `block` to `tail`.
    pub open spec fn owners_walk<T>(
        self,
        block: u32,
        tail: u32,
        pick: spec_fn(OwnerModel) -> T,
    ) -> Walk<T>
        decreases tail - block,
    {
        match self.load(block, PageKind::Owners) {
            Err(error) => Walk::failed(error),
            Ok(image) => slots_walk(image, 0, self.layout, pick).and(
                match following_of(image, tail) {
                    Err(error) => Walk::failed(error),
                    Ok(None) => Walk::nothing(),
                    Ok(Some(next)) => if block < next <= tail {
                        self.owners_walk(next, tail, pick)
                    } else {
                        Walk::nothing()
                    },
                },
            ),
        }
    }

    /// What is picked of all searchable owners.
    pub open spec fn universe_walk<T>(self, meta: Image, pick: spec_fn(OwnerModel) -> T) -> Walk<T> {
        match meta.owner_chain() {
            Err(error) => Walk::failed(error),
            Ok((head, tail)) => if head == NO_BLOCK {
                Walk::nothing()
            } else {
                self.owners_walk(head, tail, pick)
            },
        }
    }

    /// The owner that a reference leads to.
    pub open spec fn owner_of(self, reference: OwnerRef) -> Result<OwnerModel> {
        match self.load(reference.page, PageKind::Owners) {
            Err(error) => Err(error),
            Ok(image) => match image.owner(reference.slot, self.layout) {
                Err(error) => Err(error),
                Ok(owner) => if owner.reference != reference {
                    Err(Error::InvalidState)
                } else {
                    Ok(owner)
                },
            },
        }
    }

    /// The root of a searchable owner.
    pub open spec fn resolved(self, reference: OwnerRef) -> Result<Option<RootTid>> {
        match self.owner_of(reference) {
            Err(error) => Err(error),
            Ok(owner) => Ok(
                if searchable(owner) {
                    Some(owner.root)
                } else {
                    None
                },
            ),
        }
    }

    pub open spec fn resolved_walk<T: RootItem>(self, reference: OwnerRef) -> Walk<T> {
        match self.resolved(reference) {
            Err(error) => Walk::failed(error),
            Ok(None) => Walk::nothing(),
            Ok(Some(root)) => Walk::one(T::of(root, true)),
        }
    }

    /// The roots of the searchable owners among the outcomes of a posting page.
    pub open spec fn references_walk<T: RootItem>(self, outcomes: Seq<Result<OwnerRef>>) -> Walk<T>
        decreases outcomes.len(),
    {
        if outcomes.len() == 0 {
            Walk::nothing()
        } else {
            match outcomes[0] {
                Err(error) => Walk::failed(error),
                Ok(owner) => self.resolved_walk::<T>(owner).and(
                    self.references_walk::<T>(outcomes.drop_first()),
                ),
            }
        }
    }

    /// The roots on a posting chain of at most `remaining` pages.
    pub open spec fn chain_walk<T: RootItem>(
        self,
        term: TermRef,
        block: u32,
        tail: u32,
        remaining: u32,
    ) -> Walk<T>
        decreases remaining,
    {
        match self.load_posting(block, term) {
            Err(error) => Walk::failed(error),
            Ok(image) => match image.posting_stream() {
                Err(error) => Walk::failed(error),
                Ok(stream) => self.references_walk::<T>(stream.outcomes()).and(
                    match posting_next_of(image, tail, remaining) {
                        Err(error) => Walk::failed(error),
                        Ok(None) => Walk::nothing(),
                        Ok(Some(next)) => if remaining > 0 {
                            self.chain_walk::<T>(term, next, tail, (remaining - 1) as u32)
                        } else {
                            Walk::nothing()
                        },
                    },
                ),
            },
        }
    }

    /// The roots of the searchable owners of a term.
    pub open spec fn term_walk<T: RootItem>(self, meta: Image, term: Seq<u8>) -> Walk<T> {
        match self.find_term(meta, term) {
            Err(error) => Walk::failed(error),
            Ok(None) => Walk::nothing(),
            Ok(Some((image, reference))) => match image.term(reference) {
                Err(error) => Walk::failed(error),
                Ok(entry) => self.resolved_walk::<T>(entry.first).and(
                    if entry.head == NO_BLOCK {
                        Walk::nothing()
                    } else {
                        self.chain_walk::<T>(
                            reference,
                            entry.head,
                            entry.tail,
                            self.pages.len() as u32,
                        )
                    },
                ),
            },
        }
    }

    pub open spec fn terms_walk<T: RootItem>(self, meta: Image, terms: Seq<&str>) -> Walk<T>
        decreases terms.len(),
    {
        if terms.len() == 0 {
            Walk::nothing()
        } else {
            self.term_walk::<T>(meta, text_bytes(terms[0])).and(
                self.terms_walk::<T>(meta, terms.drop_first()),
            )
        }
    }

    /// The roots that a plan leads to.
    pub open spec fn plan_walk<T: RootItem>(self, plan: CandidatePlan<'_>) -> Walk<T> {
        match self.load(0, PageKind::Meta) {
            Err(error) => Walk::failed(error),
            Ok(meta) => match plan {
                CandidatePlan::Empty => Walk::nothing(),
                CandidatePlan::Universe => self.universe_walk(meta, |owner: OwnerModel| T::of(owner.root, true)),
                CandidatePlan::Terms(terms) => self.terms_walk::<T>(meta, terms@),
            },
        }
    }
}

/// Whether a cached owner page is the checked image of its block.
pub open spec fn cached(cache: Option<Page>, model: StoreModel) -> bool {
    match cache {
        Some(page) => model.load(page@.block, PageKind::Owners) == Ok::<Image, Error>(page@),
        None => true,
    }
}

/// Finds the root behind a reference; `None` for an owner that is not searchable.
pub(crate) fn resolve<S: PageStore>(
    store: &mut S,
    cache: &mut Option<Page>,
    reference: OwnerRef,
) -> (result: Result<Option<RootTid>>)
    requires
        cached(*old(cache), old(store).host().model),
    ensures
        cached(*final(cache), old(store).host().model),
        answers(
            old(store).host(),
            final(store).host(),
            result,
            old(store).host().model.resolved(reference),
        ),
{
    // a concurrent append may outgrow a private owner-page copy.
    let reload: bool = match cache {
        Some(page) => if page.block() == reference.page {
            reference.slot >= page.owner_count()?
        } else {
            true
        },
        None => true,
    };
    if reload {
        *cache = Some(load(store, reference.page, PageKind::Owners)?);
    }
    match cache {
        Some(page) => {
            let owner: Owner<'_> = page.owner(reference.slot, store.layout())?;
            assert(owner@ == page@.owner(reference.slot, old(store).host().model.layout)->Ok_0);
            if owner.reference != reference {
                return Err(Error::InvalidState);
            }
            Ok(
                if owner.live && owner.publication == Publication::Published {
                    Some(owner.root)
                } else {
                    None
                },
            )
        },
        None => Err(Error::InvalidState),
    }
}

/// Hands over the roots of all searchable owners.
#[verifier::loop_isolation(false)]
fn scan_universe<S: PageStore, T: RootItem, E: Sink<T>>(store: &mut S, meta: &Page, emit: &mut E) -> (result:
    Result<u64>)
    ensures
        final(store).host() == old(store).host(),
        delivered(
            old(store).host().model.universe_walk(meta@, |owner: OwnerModel| T::of(owner.root, true)),
            old(emit).received(),
            final(emit).received(),
            result,
            old(store).host().reliable && old(emit).accepting(),
            Error::Limit("candidate count"),
        ),
{
    let ghost pick = |owner: OwnerModel| T::of(owner.root, true);
    let ghost model = store.host().model;
    let ghost total = model.universe_walk(meta@, pick);
    let ghost before = emit.received();
    let ghost mut met: Seq<T> = Seq::empty();
    assert(total =~= total.after(met));
    assert(before =~= before + met);
    let mut count: u64 = 0;
    assert(reached(total, before, emit.received(), count as int, met, total));
    let (head, tail): (u32, u32) = meta.owner_chain()?;
    if head == NO_BLOCK {
        return Ok(0);
    }
    let mut block: u32 = head;
    loop
        invariant
            store.host() == old(store).host(),
            emit.accepting() == old(emit).accepting(),
            reached(
                total,
                before,
                emit.received(),
                count as int,
                met,
                model.owners_walk(block, tail, pick),
            ),
        decreases tail - block,
    {
        let page: Page = load(store, block, PageKind::Owners)?;
        let ghost rest = match following_of(page@, tail) {
            Err(error) => Walk::failed(error),
            Ok(None) => Walk::nothing(),
            Ok(Some(next)) => if block < next <= tail {
                model.owners_walk(next, tail, pick)
            } else {
                Walk::nothing()
            },
        };
        let slots: u16 = page.owner_count()?;
        let mut slot: u16 = 0;
        while slot < slots
            invariant
                slot <= slots,
                store.host() == old(store).host(),
                emit.accepting() == old(emit).accepting(),
                reached(
                    total,
                    before,
                    emit.received(),
                    count as int,
                    met,
                    slots_walk(page@, slot as int, model.layout, pick).and(rest),
                ),
            decreases slots - slot,
        {
            let owner: Owner<'_> = page.owner(slot, store.layout())?;
            let ghost more = slots_walk(page@, slot + 1, model.layout, pick).and(rest);
            if owner.publication == Publication::Published && owner.live {
                proof {
                    assert(slots_walk(page@, slot as int, model.layout, pick).and(rest)
                        =~= Walk::one(T::of(owner.root, true)).and(more));
                    refused_partly(
                        total,
                        before,
                        emit.received(),
                        count as int,
                        met,
                        T::of(owner.root, true),
                        more,
                    );
                }
                let ghost now = emit.received();
                let ghost counted = count as int;
                send(emit, T::new(owner.root, true), &mut count, "candidate count")?;
                proof {
                    reached_next(total, before, now, counted, met, T::of(owner.root, true), more);
                    met = met.push(T::of(owner.root, true));
                }
            }
            slot += 1;
        }
        assert(slots_walk(page@, slot as int, model.layout, pick).and(rest) =~= rest);
        match following(&page, tail)? {
            Some(next) => {
                block = next;
            },
            None => {
                return Ok(count);
            },
        }
    }
}

/// Hands over the root behind a reference, if its owner is searchable.
fn scan_reference<S: PageStore, T: RootItem, E: Sink<T>>(
    store: &mut S,
    cache: &mut Option<Page>,
    reference: OwnerRef,
    emit: &mut E,
    count: &mut u64,
) -> (result: Result<()>)
    requires
        cached(*old(cache), old(store).host().model),
    ensures
        final(store).host() == old(store).host(),
        cached(*final(cache), old(store).host().model),
        final(emit).accepting() == old(emit).accepting(),
        handed(
            old(store).host().model.resolved_walk::<T>(reference),
            old(emit).received(),
            final(emit).received(),
            (*old(count) as int, *final(count) as int),
            result,
            old(store).host().reliable && old(emit).accepting(),
            Error::Limit("candidate count"),
        ),
{
    let ghost before = emit.received();
    let ghost walk = store.host().model.resolved_walk::<T>(reference);
    assert(before =~= before + walk.items.take(0));
    assert(before =~= before + Seq::<T>::empty());
    let found: Option<RootTid> = resolve(store, cache, reference)?;
    if let Some(root) = found {
        let ghost item = T::of(root, true);
        assert(before.push(item) =~= before + seq![item]);
        assert(walk.items.take(1) =~= walk.items);
        send(emit, T::new(root, true), count, "candidate count")?;
    }
    Ok(())
}

/// Hands over the roots behind the references of a posting page.
#[verifier::loop_isolation(false)]
fn scan_page<S: PageStore, T: RootItem, E: Sink<T>>(
    store: &mut S,
    cache: &mut Option<Page>,
    page: &Page,
    emit: &mut E,
    count: &mut u64,
) -> (result: Result<()>)
    requires
        cached(*old(cache), old(store).host().model),
    ensures
        final(store).host() == old(store).host(),
        cached(*final(cache), old(store).host().model),
        final(emit).accepting() == old(emit).accepting(),
        handed(
            match page@.posting_stream() {
                Err(error) => Walk::failed(error),
                Ok(stream) => old(store).host().model.references_walk::<T>(stream.outcomes()),
            },
            old(emit).received(),
            final(emit).received(),
            (*old(count) as int, *final(count) as int),
            result,
            old(store).host().reliable && old(emit).accepting(),
            Error::Limit("candidate count"),
        ),
{
    let ghost model = store.host().model;
    let ghost before = emit.received();
    let ghost base = *count as int;
    let ghost total = match page@.posting_stream() {
        Err(error) => Walk::failed(error),
        Ok(stream) => model.references_walk::<T>(stream.outcomes()),
    };
    let ghost mut met: Seq<T> = Seq::empty();
    assert(total =~= total.after(met));
    assert(before =~= before + met);
    assert(reached(total, before, emit.received(), *count - base, met, total));
    let mut references: Postings<'_> = page.posting_refs()?;
    loop
        invariant
            store.host() == old(store).host(),
            cached(*cache, model),
            emit.accepting() == old(emit).accepting(),
            reached(
                total,
                before,
                emit.received(),
                *count - base,
                met,
                model.references_walk::<T>(references@),
            ),
        decreases references@.len(),
    {
        let owner: OwnerRef = match references.next() {
            None => {
                return Ok(());
            },
            Some(owner) => owner?,
        };
        let ghost now = emit.received();
        let ghost counted = *count - base;
        let ghost part = model.resolved_walk::<T>(owner);
        let ghost rest = model.references_walk::<T>(references@);
        let outcome: Result<()> = scan_reference(store, cache, owner, emit, count);
        proof {
            assert(part.items.take(part.items.len() as int) =~= part.items);
            reached_part(total, before, now, counted, met, part, rest, emit.received());
            met = met + part.items;
        }
        outcome?;
    }
}

/// Hands over the roots of a term.
#[verifier::loop_isolation(false)]
fn scan_term<S: PageStore, T: RootItem, E: Sink<T>>(
    store: &mut S,
    cache: &mut Option<Page>,
    meta: &Page,
    term: &str,
    emit: &mut E,
    count: &mut u64,
) -> (result: Result<()>)
    requires
        cached(*old(cache), old(store).host().model),
    ensures
        final(store).host() == old(store).host(),
        cached(*final(cache), old(store).host().model),
        final(emit).accepting() == old(emit).accepting(),
        handed(
            old(store).host().model.term_walk::<T>(meta@, text_bytes(term)),
            old(emit).received(),
            final(emit).received(),
            (*old(count) as int, *final(count) as int),
            result,
            old(store).host().reliable && old(emit).accepting(),
            Error::Limit("candidate count"),
        ),
{
    let ghost model = store.host().model;
    let ghost before = emit.received();
    let ghost base = *count as int;
    let ghost total = model.term_walk::<T>(meta@, text_bytes(term));
    let ghost mut met: Seq<T> = Seq::empty();
    assert(total =~= total.after(met));
    assert(before =~= before + met);
    assert(reached(total, before, emit.received(), *count - base, met, total));
    let (dictionary, reference): (Page, TermRef) = match find_term(store, meta, term)? {
        Some(found) => found,
        None => {
            return Ok(());
        },
    };
    let entry: Term<'_> = dictionary.term(reference)?;
    let (first, head, tail): (OwnerRef, u32, u32) = (entry.first, entry.head, entry.tail);
    assert(entry@ == dictionary@.term(reference)->Ok_0);
    let ghost rest = if head == NO_BLOCK {
        Walk::nothing()
    } else {
        model.chain_walk::<T>(reference, head, tail, model.pages.len() as u32)
    };
    let ghost part = model.resolved_walk::<T>(first);
    let outcome: Result<()> = scan_reference(store, cache, first, emit, count);
    proof {
        assert(part.items.take(part.items.len() as int) =~= part.items);
        reached_part(total, before, before, 0, met, part, rest, emit.received());
        met = met + part.items;
    }
    outcome?;
    if head == NO_BLOCK {
        return Ok(());
    }
    let mut block: u32 = head;
    let mut remaining: u32 = store.blocks()?;
    loop
        invariant
            store.host() == old(store).host(),
            cached(*cache, model),
            emit.accepting() == old(emit).accepting(),
            reached(
                total,
                before,
                emit.received(),
                *count - base,
                met,
                model.chain_walk::<T>(reference, block, tail, remaining),
            ),
        decreases remaining,
    {
        let page: Page = load_posting(store, block, reference)?;
        let ghost rest = match posting_next_of(page@, tail, remaining) {
            Err(error) => Walk::failed(error),
            Ok(None) => Walk::nothing(),
            Ok(Some(next)) => if remaining > 0 {
                model.chain_walk::<T>(reference, next, tail, (remaining - 1) as u32)
            } else {
                Walk::nothing()
            },
        };
        let ghost part = match page@.posting_stream() {
            Err(error) => Walk::failed(error),
            Ok(stream) => model.references_walk::<T>(stream.outcomes()),
        };
        let ghost now = emit.received();
        let ghost counted = *count - base;
        let outcome: Result<()> = scan_page(store, cache, &page, emit, count);
        proof {
            assert(part.items.take(part.items.len() as int) =~= part.items);
            reached_part(total, before, now, counted, met, part, rest, emit.received());
            met = met + part.items;
        }
        outcome?;
        match posting_next(&page, tail, &mut remaining)? {
            Some(next) => {
                block = next;
            },
            None => {
                return Ok(());
            },
        }
    }
}

/// Streams a conservative cover; returned accounting is not a visible SQL count.
/// The host retains the shared structural barrier for this entire call.
///
/// # Errors
/// Rejects corruption, missing owners, incarnation mismatches and host failures.
/// The caller owns duplicate elimination, bitmap lossification and heap rechecks.
#[verifier::loop_isolation(false)]
pub fn scan<S: PageStore, T: RootItem, E: Sink<T>>(
    store: &mut S,
    plan: &CandidatePlan<'_>,
    emit: &mut E,
) -> (result: Result<u64>)
    ensures
        final(store).host() == old(store).host(),
        delivered(
            old(store).host().model.plan_walk::<T>(*plan),
            old(emit).received(),
            final(emit).received(),
            result,
            old(store).host().reliable && old(emit).accepting(),
            Error::Limit("candidate count"),
        ),
{
    let ghost model = store.host().model;
    let ghost before = emit.received();
    let ghost total = model.plan_walk::<T>(*plan);
    let ghost mut met: Seq<T> = Seq::empty();
    assert(total =~= total.after(met));
    assert(before =~= before + met);
    assert(reached(total, before, emit.received(), 0, met, total));
    let meta: Page = load(store, 0, PageKind::Meta)?;
    match plan {
        CandidatePlan::Empty => Ok(0),
        CandidatePlan::Universe => scan_universe(store, &meta, emit),
        CandidatePlan::Terms(terms) => {
            let mut cache: Option<Page> = None;
            let mut count: u64 = 0;
            let mut index: usize = 0;
            assert(terms@.skip(0) =~= terms@);
            while index < terms.len()
                invariant
                    index <= terms@.len(),
                    store.host() == old(store).host(),
                    cached(cache, model),
                    emit.accepting() == old(emit).accepting(),
                    reached(
                        total,
                        before,
                        emit.received(),
                        count as int,
                        met,
                        model.terms_walk::<T>(meta@, terms@.skip(index as int)),
                    ),
                decreases terms@.len() - index,
            {
                let ghost now = emit.received();
                let ghost counted = count as int;
                let ghost part = model.term_walk::<T>(meta@, text_bytes(terms@[index as int]));
                let ghost rest = model.terms_walk::<T>(meta@, terms@.skip(index + 1));
                assert(terms@.skip(index as int).drop_first() =~= terms@.skip(index + 1));
                let outcome: Result<()> = scan_term(
                    store,
                    &mut cache,
                    &meta,
                    terms[index],
                    emit,
                    &mut count,
                );
                proof {
                    assert(part.items.take(part.items.len() as int) =~= part.items);
                    reached_part(total, before, now, counted, met, part, rest, emit.received());
                    met = met + part.items;
                }
                outcome?;
                index += 1;
            }
            assert(terms@.skip(index as int).len() == 0);
            Ok(count)
        },
    }
}

} // verus!
