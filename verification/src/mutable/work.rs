//! Pointer-free, page-sized work for serial and parallel readers.
//! The host snapshots the words under its lock, prepares outside that lock, and
//! publishes the successor with compare-and-replace before consuming the batch.
//! A failed participant aborts the query; claimed batches must not be retried.

use crate::callbacks::Sink;
use crate::candidate::CandidatePlan;
use crate::codec::records::Publication;
use crate::error::{Error, Result};
use crate::identity::{group_identity, HeapLayout, Incarnation};
use crate::memory::out_of_memory;
use crate::mutable::count::{last_owner, ordered_walk, plain_candidate, CountCandidate};
use crate::mutable::page::model::Image;
use crate::mutable::page::{
    Owner, OwnerRef, Page, PageKind, Postings, Term, TermRef, NO_BLOCK,
};
use crate::mutable::reader::slots_walk;
use crate::mutable::store::{
    answers, find_term, following, following_of, load, load_posting, posting_next, posting_next_of,
    Host, PageStore, StoreModel,
};
use crate::mutable::walk::{partly, reached, reached_next, reached_partly, Walk};
use crate::query::Query;
use crate::text::text_bytes;
use vstd::prelude::*;

verus! {

broadcast use {group_identity, reached_partly};

/// Number of scalar words in the transient host coordination protocol.
pub const WORK_WORDS: usize = 11;

/// A captured chain position, not a persistent format or a visibility proof.
/// Words contain only checked integers; synchronization belongs to the host.
#[derive(Clone, Copy, Debug, Eq, PartialEq)]
pub struct WorkState {
    words: [u64; WORK_WORDS],
}

impl View for WorkState {
    type V = Seq<u64>;

    closed spec fn view(&self) -> Seq<u64> {
        self.words@
    }
}

/// One privately copied page or inline reference, consumed only by its claimant.
pub struct WorkBatch {
    page: Option<Page>,
    inline: Option<OwnerRef>,
    sealed_term: bool,
}

/// What a batch holds.
#[verifier::ext_equal]
pub struct BatchModel {
    pub page: Option<Image>,
    pub inline: Option<OwnerRef>,
    pub sealed_term: bool,
}

impl View for WorkBatch {
    type V = BatchModel;

    closed spec fn view(&self) -> BatchModel {
        BatchModel {
            page: match self.page {
                Some(page) => Some(page@),
                None => None,
            },
            inline: self.inline,
            sealed_term: self.sealed_term,
        }
    }
}

/// The words of finished work.
pub open spec fn no_work() -> Seq<u64> {
    Seq::new(11, |i: int| 0u64)
}

/// Whether a word is a block below the captured limit.
pub open spec fn word_block(words: Seq<u64>, word: u64) -> bool {
    0 < word < words[9]
}

/// Whether words are those of finished work or of a position on a chain: an
/// inline reference, a posting page or an owner page.
pub open spec fn is_work(words: Seq<u64>) -> bool {
    if words[0] == 0 {
        words == no_work()
    } else {
        &&& words[0] <= 3
        &&& 0 < words[9] < NO_BLOCK
        &&& 0 < words[3] <= words[9]
        &&& words[10] <= 1
        &&& (word_block(words, words[1]) && word_block(words, words[2])) || (words[0] == 1
            && words[1] == NO_BLOCK && words[2] == NO_BLOCK)
        &&& if words[0] == 3 {
            &&& words[1] <= words[2]
            &&& words[4] == 0 && words[5] == 0 && words[6] == 0 && words[7] == 0 && words[8] == 0
            &&& words[10] == 0
        } else {
            &&& word_block(words, words[4])
            &&& word_block(words, words[6])
            &&& words[5] <= u16::MAX
            &&& words[7] <= u16::MAX
            &&& words[8] != 0
        }
    }
}

/// The owner that the position stands behind.
pub open spec fn work_previous(words: Seq<u64>) -> OwnerRef {
    OwnerRef {
        page: words[6] as u32,
        slot: words[7] as u16,
        incarnation: Incarnation::of(words[8]),
    }
}

/// The words of the postings of one term.
pub open spec fn term_work(
    limit: u32,
    reference: TermRef,
    head: u32,
    tail: u32,
    first: OwnerRef,
    single: bool,
) -> Seq<u64> {
    seq![
        1u64,
        head as u64,
        tail as u64,
        limit as u64,
        reference.page as u64,
        reference.offset as u64,
        first.page as u64,
        first.slot as u64,
        first.incarnation.get(),
        limit as u64,
        if single {
            1u64
        } else {
            0u64
        },
    ]
}

/// The words of the owner chain.
pub open spec fn owner_work(limit: u32, head: u32, tail: u32) -> Seq<u64> {
    seq![
        3u64,
        head as u64,
        tail as u64,
        limit as u64,
        0u64,
        0u64,
        0u64,
        0u64,
        0u64,
        limit as u64,
        0u64,
    ]
}

/// Words that must be valid work.
#[verifier::opaque]
pub open spec fn checked_work(words: Seq<u64>) -> Result<Seq<u64>> {
    if is_work(words) {
        Ok(words)
    } else {
        Err(Error::InvalidState)
    }
}

impl StoreModel {
    /// The work of a cover: the postings of its one term, or all owners.
    pub open spec fn cover_work(self, cover: CandidatePlan<'_>, single: bool) -> Result<Seq<u64>> {
        if cover is Empty {
            Ok(no_work())
        } else {
            match self.load(0, PageKind::Meta) {
                Err(error) => Err(error),
                Ok(meta) => {
                    let limit = self.pages.len() as u32;
                    if cover matches CandidatePlan::Terms(terms) && terms@.len() == 1 {
                        match self.find_term(meta, text_bytes(cover->Terms_0@[0])) {
                            Err(error) => Err(error),
                            Ok(None) => Ok(no_work()),
                            Ok(Some((dictionary, reference))) => match dictionary.term(reference) {
                                Err(error) => Err(error),
                                Ok(entry) => checked_work(
                                    term_work(
                                        limit,
                                        reference,
                                        entry.head,
                                        entry.tail,
                                        entry.first,
                                        single,
                                    ),
                                ),
                            },
                        }
                    } else {
                        match meta.owner_chain() {
                            Err(error) => Err(error),
                            Ok((head, tail)) => if head == NO_BLOCK {
                                Ok(no_work())
                            } else {
                                checked_work(owner_work(limit, head, tail))
                            },
                        }
                    }
                },
            }
        }
    }
}

/// The view of a state, or the failure.
pub open spec fn words_of(result: Result<WorkState>) -> Result<Seq<u64>> {
    match result {
        Ok(state) => Ok(state@),
        Err(error) => Err(error),
    }
}

impl StoreModel {
    /// The batch at a position of the owner chain, and the position behind it.
    pub open spec fn owner_batch(self, words: Seq<u64>) -> Result<(Seq<u64>, BatchModel)> {
        match self.load(words[1] as u32, PageKind::Owners) {
            Err(error) => Err(error),
            Ok(page) => match following_of(page, words[2] as u32) {
                Err(error) => Err(error),
                Ok(next) => {
                    let batch = BatchModel { page: Some(page), inline: None, sealed_term: false };
                    match next {
                        None => Ok((no_work(), batch)),
                        Some(block) => match checked_work(
                            words.update(1, block as u64).update(3, (words[3] - 1) as u64),
                        ) {
                            Err(error) => Err(error),
                            Ok(words) => Ok((words, batch)),
                        },
                    }
                },
            },
        }
    }

    /// The batch at a position of a posting chain, and the position behind it.
    /// The owners of the page ascend from the one that the position stands behind.
    pub open spec fn posting_batch(self, words: Seq<u64>) -> Result<(Seq<u64>, BatchModel)> {
        let term = TermRef { page: words[4] as u32, offset: words[5] as u16 };
        match self.load_posting(words[1] as u32, term) {
            Err(error) => Err(error),
            Ok(page) => match page.posting_stream() {
                Err(error) => Err(error),
                Ok(stream) => {
                    let owners = ordered_walk(stream.outcomes(), work_previous(words), false);
                    match owners.end {
                        Err(error) => Err(error),
                        Ok(_) => {
                            let last = last_owner(owners.items, work_previous(words));
                            let batch = BatchModel {
                                page: Some(page),
                                inline: None,
                                sealed_term: words[10] == 1 && page.kind
                                    == PageKind::SealedPostings,
                            };
                            match posting_next_of(page, words[2] as u32, words[3] as u32) {
                                Err(error) => Err(error),
                                Ok(None) => Ok((no_work(), batch)),
                                Ok(Some(block)) => match checked_work(
                                    words.update(6, last.page as u64).update(
                                        7,
                                        last.slot as u64,
                                    ).update(8, last.incarnation.get()).update(
                                        1,
                                        block as u64,
                                    ).update(3, (words[3] - 1) as u64),
                                ) {
                                    Err(error) => Err(error),
                                    Ok(words) => Ok((words, batch)),
                                },
                            }
                        },
                    }
                },
            },
        }
    }

    /// The next batch of a position, and the position behind it.
    pub open spec fn next_batch(self, words: Seq<u64>) -> Result<Option<(Seq<u64>, BatchModel)>> {
        if words[0] == 0 {
            Ok(None)
        } else if words[0] == 1 {
            Ok(
                Some(
                    (
                        if words[1] == NO_BLOCK {
                            no_work()
                        } else {
                            words.update(0, 2)
                        },
                        BatchModel {
                            page: None,
                            inline: Some(work_previous(words)),
                            sealed_term: false,
                        },
                    ),
                ),
            )
        } else {
            match if words[0] == 3 {
                self.owner_batch(words)
            } else {
                self.posting_batch(words)
            } {
                Err(error) => Err(error),
                Ok(batch) => Ok(Some(batch)),
            }
        }
    }
}

/// A prepared batch with its position, as values.
pub open spec fn batch_of(result: Result<(WorkState, WorkBatch)>) -> Result<(Seq<u64>, BatchModel)> {
    match result {
        Ok((state, batch)) => Ok((state@, batch@)),
        Err(error) => Err(error),
    }
}

/// A prepared batch, if any, with its position, as values.
pub open spec fn prepared_of(result: Result<Option<(WorkState, WorkBatch)>>) -> Result<
    Option<(Seq<u64>, BatchModel)>,
> {
    match result {
        Ok(Some((state, batch))) => Ok(Some((state@, batch@))),
        Ok(None) => Ok(None),
        Err(error) => Err(error),
    }
}

/// The last owner of a posting page whose owners ascend from the previous one.
#[verifier::loop_isolation(false)]
fn last_of_page(page: &Page, begun: OwnerRef) -> (result: Result<OwnerRef>)
    ensures
        result == match page@.posting_stream() {
            Err(error) => Err(error),
            Ok(stream) => match ordered_walk(stream.outcomes(), begun, false).end {
                Err(error) => Err(error),
                Ok(_) => Ok(
                    last_owner(ordered_walk(stream.outcomes(), begun, false).items, begun),
                ),
            },
        },
{
    let mut previous: OwnerRef = begun;
    let mut references: Postings<'_> = page.posting_refs()?;
    let ghost total = ordered_walk(references@, begun, false);
    loop
        invariant
            total.end == ordered_walk(references@, previous, false).end,
            total.end is Ok ==> last_owner(total.items, begun) == last_owner(
                ordered_walk(references@, previous, false).items,
                previous,
            ),
        decreases references@.len(),
    {
        let ghost before = references@;
        let owner: OwnerRef = match references.next() {
            None => {
                return Ok(previous);
            },
            Some(owner) => owner?,
        };
        if owner.page < previous.page || (owner.page == previous.page && owner.slot
            <= previous.slot) || owner.incarnation.get() <= previous.incarnation.get() {
            return Err(Error::InvalidState);
        }
        proof {
            let rest = ordered_walk(references@, owner, false);
            let whole = ordered_walk(before, previous, false);
            assert(whole == Walk::one(CountCandidate { owner, sealed_term: false }).and(rest));
            if rest.items.len() > 0 {
                assert(whole.items.last() == rest.items.last());
            } else {
                assert(whole.items.last() == whole.items[0]);
            }
        }
        previous = owner;
    }
}

impl WorkState {
    #[verifier::type_invariant]
    closed spec fn inv(self) -> bool {
        is_work(self.words@)
    }

    /// Prepares one batch without mutating shared state or allocating a result set.
    /// The host must atomically replace `self` with the returned successor before
    /// emitting that batch. On a lost race, discard it and take a fresh snapshot.
    /// No buffer read, decoder, callback or error handler may run under that lock.
    ///
    /// # Errors
    /// Rejects invalid or cyclic chains, duplicate owners, incarnation regression,
    /// changed term identity and host failures. Errors invalidate the whole scan.
    pub fn prepare<S: PageStore>(self, store: &mut S) -> (result: Result<Option<(Self, WorkBatch)>>)
        ensures
            answers(
                old(store).host(),
                final(store).host(),
                prepared_of(result),
                old(store).host().model.next_batch(self@),
            ),
    {
        proof {
            use_type_invariant(&self);
        }
        if self.words[0] == 0 {
            return Ok(None);
        }
        if self.words[0] == 1 {
            let batch: WorkBatch = WorkBatch {
                page: None,
                inline: Some(self.previous()?),
                sealed_term: false,
            };
            let next: WorkState = if self.words[1] == NO_BLOCK as u64 {
                WorkState::done()
            } else {
                let mut words: [u64; 11] = self.words;
                words[0] = 2;
                WorkState { words }
            };
            return Ok(Some((next, batch)));
        }
        let prepared: (WorkState, WorkBatch) = if self.words[0] == 3 {
            self.prepare_owners(store)?
        } else {
            self.prepare_postings(store)?
        };
        Ok(Some(prepared))
    }

    fn previous(self) -> (result: Result<OwnerRef>)
        ensures
            self@[0] == 1 || self@[0] == 2 ==> result == Ok::<OwnerRef, Error>(
                work_previous(self@),
            ),
    {
        proof {
            use_type_invariant(&self);
        }
        if self.words[6] > u32::MAX as u64 || self.words[7] > 0xFFFF {
            return Err(Error::InvalidState);
        }
        match Incarnation::new(self.words[8]) {
            Ok(incarnation) => Ok(
                OwnerRef {
                    page: self.words[6] as u32,
                    slot: self.words[7] as u16,
                    incarnation,
                },
            ),
            Err(_) => Err(Error::InvalidState),
        }
    }

    fn prepare_owners<S: PageStore>(self, store: &mut S) -> (result: Result<(Self, WorkBatch)>)
        requires
            self@[0] == 3,
        ensures
            answers(
                old(store).host(),
                final(store).host(),
                batch_of(result),
                old(store).host().model.owner_batch(self@),
            ),
    {
        proof {
            use_type_invariant(&self);
        }
        let page: Page = load(store, self.words[1] as u32, PageKind::Owners)?;
        let next: WorkState = match following(&page, self.words[2] as u32)? {
            None => WorkState::done(),
            Some(block) => {
                let mut words: [u64; 11] = self.words;
                words[1] = block as u64;
                words[3] = self.words[3] - 1;
                assert(words@ =~= self@.update(1, block as u64).update(
                    3,
                    (self@[3] - 1) as u64,
                ));
                WorkState::from_words(words)?
            },
        };
        Ok((next, WorkBatch { page: Some(page), inline: None, sealed_term: false }))
    }

    fn prepare_postings<S: PageStore>(self, store: &mut S) -> (result: Result<(Self, WorkBatch)>)
        requires
            self@[0] == 2,
        ensures
            answers(
                old(store).host(),
                final(store).host(),
                batch_of(result),
                old(store).host().model.posting_batch(self@),
            ),
    {
        proof {
            use_type_invariant(&self);
        }
        let term: TermRef = TermRef {
            page: self.words[4] as u32,
            offset: self.words[5] as u16,
        };
        let page: Page = load_posting(store, self.words[1] as u32, term)?;
        let previous: OwnerRef = self.previous()?;
        let last: OwnerRef = last_of_page(&page, previous)?;
        let mut remaining: u32 = self.words[3] as u32;
        let next: WorkState = match posting_next(&page, self.words[2] as u32, &mut remaining)? {
            None => WorkState::done(),
            Some(block) => {
                let mut words: [u64; 11] = self.words;
                words[6] = last.page as u64;
                words[7] = last.slot as u64;
                words[8] = last.incarnation.get();
                words[1] = block as u64;
                words[3] = remaining as u64;
                assert(words@ =~= self@.update(6, last.page as u64).update(
                    7,
                    last.slot as u64,
                ).update(8, last.incarnation.get()).update(1, block as u64).update(
                    3,
                    (self@[3] - 1) as u64,
                ));
                WorkState::from_words(words)?
            },
        };
        let sealed_term: bool = self.words[10] == 1 && page.kind() == PageKind::SealedPostings;
        Ok((next, WorkBatch { page: Some(page), inline: None, sealed_term }))
    }

    /// Finished work.
    pub fn done() -> (state: Self)
        ensures
            state@ == no_work(),
    {
        let words: [u64; 11] = [0u64; 11];
        assert(words@ =~= no_work());
        WorkState { words }
    }

    fn all_zero(words: &[u64; WORK_WORDS]) -> (done: bool)
        ensures
            done == (words@ == no_work()),
    {
        let mut index: usize = 0;
        while index < 11
            invariant
                index <= 11,
                forall|i: int| 0 <= i < index ==> (#[trigger] words@[i]) == 0,
            decreases 11 - index,
        {
            if words[index] != 0 {
                assert(no_work()[index as int] == 0);
                return false;
            }
            index += 1;
        }
        assert(words@ =~= no_work());
        true
    }

    /// Captures a duplicate-free cover while the host holds its reader barrier.
    /// A one-term necessary condition uses postings. Wider unions use canonical
    /// owners, avoiding a shared result set and cross-worker duplicate removal.
    /// Every emitted root still requires the host's visibility and SQL checks.
    ///
    /// # Errors
    /// Rejects corrupt metadata, failed I/O, and a cover exceeding `memory_bytes`.
    /// No page borrow or query reference survives this call.
    pub fn capture<S: PageStore>(store: &mut S, query: &Query, memory_bytes: usize) -> (result:
        Result<Self>)
        ensures
            final(store).host() == old(store).host(),
            captures(old(store).host(), query@, result),
    {
        let cover: CandidatePlan<'_> = CandidatePlan::build(query, memory_bytes)?;
        let single: bool = query.is_single_term();
        let result: Result<WorkState> = WorkState::capture_cover(store, &cover, single);
        assert(answers(
            old(store).host(),
            store.host(),
            words_of(result),
            old(store).host().model.cover_work(cover, single),
        ));
        result
    }

    /// Captures the work of a cover.
    pub fn capture_cover<S: PageStore>(store: &mut S, cover: &CandidatePlan<'_>, single: bool) -> (result:
        Result<Self>)
        ensures
            answers(
                old(store).host(),
                final(store).host(),
                words_of(result),
                old(store).host().model.cover_work(*cover, single),
            ),
    {
        if let CandidatePlan::Empty = cover {
            return Ok(WorkState::done());
        }
        let meta: Page = load(store, 0, PageKind::Meta)?;
        let limit: u32 = store.blocks()?;
        if let CandidatePlan::Terms(terms) = cover {
            if terms.len() == 1 {
                let (dictionary, reference): (Page, TermRef) = match find_term(
                    store,
                    &meta,
                    terms[0],
                )? {
                    Some(found) => found,
                    None => {
                        return Ok(WorkState::done());
                    },
                };
                let entry: Term<'_> = dictionary.term(reference)?;
                assert(entry@ == dictionary@.term(reference)->Ok_0);
                return WorkState::of_term(
                    limit,
                    reference,
                    entry.head,
                    entry.tail,
                    entry.first,
                    single,
                );
            }
        }
        let (head, tail): (u32, u32) = meta.owner_chain()?;
        if head == NO_BLOCK {
            return Ok(WorkState::done());
        }
        WorkState::of_owners(limit, head, tail)
    }

    fn of_term(
        limit: u32,
        reference: TermRef,
        head: u32,
        tail: u32,
        first: OwnerRef,
        single: bool,
    ) -> (result: Result<Self>)
        ensures
            words_of(result) == checked_work(
                term_work(limit, reference, head, tail, first, single),
            ),
    {
        let words: [u64; 11] = [
            1,
            head as u64,
            tail as u64,
            limit as u64,
            reference.page as u64,
            reference.offset as u64,
            first.page as u64,
            first.slot as u64,
            first.incarnation.get(),
            limit as u64,
            if single {
                1
            } else {
                0
            },
        ];
        assert(words@ =~= term_work(limit, reference, head, tail, first, single));
        WorkState::from_words(words)
    }

    fn of_owners(limit: u32, head: u32, tail: u32) -> (result: Result<Self>)
        ensures
            words_of(result) == checked_work(owner_work(limit, head, tail)),
    {
        let words: [u64; 11] = [
            3,
            head as u64,
            tail as u64,
            limit as u64,
            0,
            0,
            0,
            0,
            0,
            limit as u64,
            0,
        ];
        assert(words@ =~= owner_work(limit, head, tail));
        WorkState::from_words(words)
    }

    pub fn words(self) -> (words: [u64; WORK_WORDS])
        ensures
            words@ == self@,
    {
        self.words
    }

    /// Validates a private copy of host coordination words without allocation.
    ///
    /// # Errors
    /// Rejects unknown kinds, truncation, invalid identities and chain bounds.
    /// The host must separately guarantee atomic snapshots and a live barrier.
    pub fn from_words(words: [u64; WORK_WORDS]) -> (result: Result<Self>)
        ensures
            words_of(result) == checked_work(words@),
    {
        reveal(checked_work);
        let limit: u64 = words[9];
        if words[0] == 0 {
            return if WorkState::all_zero(&words) {
                Ok(WorkState { words })
            } else {
                Err(Error::InvalidState)
            };
        }
        if words[0] > 3 || limit == 0 || limit >= NO_BLOCK as u64 || words[3] == 0 || words[3]
            > limit || words[10] > 1 {
            return Err(Error::InvalidState);
        }
        let chain: bool = words[1] > 0 && words[1] < limit && words[2] > 0 && words[2] < limit;
        let empty: bool = words[1] == NO_BLOCK as u64 && words[2] == NO_BLOCK as u64;
        if !chain && !(words[0] == 1 && empty) {
            return Err(Error::InvalidState);
        }
        if words[0] == 3 {
            if words[1] > words[2] || words[4] != 0 || words[5] != 0 || words[6] != 0 || words[7]
                != 0 || words[8] != 0 || words[10] != 0 {
                return Err(Error::InvalidState);
            }
        } else if words[4] == 0 || words[4] >= limit || words[6] == 0 || words[6] >= limit
            || words[5] > 0xFFFF || words[7] > 0xFFFF || words[8] == 0 {
            return Err(Error::InvalidState);
        }
        Ok(WorkState { words })
    }
}

/// What capturing tells: the work of the query's cover, or why there is none.
pub open spec fn captures(
    host: Host,
    query: crate::query::QueryModel,
    result: Result<WorkState>,
) -> bool {
    (result matches Err(error) && (out_of_memory(error) || (!query.countable() && error
        == Error::Limit("candidate covers")))) || exists|cover: CandidatePlan<'_>|
        cover.is_cover(query) && #[trigger] answers(
            host,
            host,
            words_of(result),
            host.model.cover_work(cover, query.nodes[query.root] is Term),
        )
}

/// The owners of a posting page, without an order.
pub open spec fn unordered_walk(outcomes: Seq<Result<OwnerRef>>, sealed_term: bool) -> Walk<
    CountCandidate,
>
    decreases outcomes.len(),
{
    if outcomes.len() == 0 {
        Walk::nothing()
    } else {
        match outcomes[0] {
            Err(error) => Walk::failed(error),
            Ok(owner) => Walk::one(CountCandidate { owner, sealed_term }).and(
                unordered_walk(outcomes.drop_first(), sealed_term),
            ),
        }
    }
}

impl BatchModel {
    /// The candidates of a batch.
    pub open spec fn candidates(self, layout: HeapLayout) -> Walk<CountCandidate> {
        match self.inline {
            Some(owner) => Walk::one(CountCandidate { owner, sealed_term: false }),
            None => match self.page {
                None => Walk::failed(Error::InvalidState),
                Some(page) => if page.kind == PageKind::Owners {
                    slots_walk(page, 0, layout, plain_candidate())
                } else {
                    match page.posting_stream() {
                        Err(error) => Walk::failed(error),
                        Ok(stream) => unordered_walk(stream.outcomes(), self.sealed_term),
                    }
                },
            },
        }
    }
}

/// What handing over a stream without counting it reports.
pub open spec fn passed_on<T>(
    walk: Walk<T>,
    before: Seq<T>,
    now: Seq<T>,
    result: Result<()>,
    certain: bool,
) -> bool {
    match result {
        Ok(_) => walk.end is Ok && now == before + walk.items,
        Err(error) => {
            &&& partly(walk, before, now)
            &&& certain ==> walk.end == Err::<(), Error>(error) && now == before + walk.items
        },
    }
}

impl WorkBatch {
    /// Emits only this claimed batch; candidates are not visibility-certified.
    ///
    /// # Errors
    /// Propagates corruption or callback failure without a partial-result promise.
    /// The host aborts the operation rather than returning a partial SQL result.
    pub fn for_each<E: Sink<CountCandidate>>(&self, layout: HeapLayout, emit: &mut E) -> (result:
        Result<()>)
        ensures
            passed_on(
                self@.candidates(layout),
                old(emit).received(),
                final(emit).received(),
                result,
                old(emit).accepting(),
            ),
    {
        let ghost before = emit.received();
        let ghost walk = self@.candidates(layout);
        assert(before =~= before + walk.items.take(0));
        if let Some(owner) = self.inline {
            let candidate: CountCandidate = CountCandidate { owner, sealed_term: false };
            assert(before.push(candidate) =~= before + seq![candidate]);
            emit.emit(candidate)?;
            return Ok(());
        }
        match &self.page {
            None => {
                assert(before =~= before + Seq::<CountCandidate>::empty());
                Err(Error::InvalidState)
            },
            Some(page) => if page.kind() == PageKind::Owners {
                emit_owners(page, layout, emit)
            } else {
                emit_postings(page, self.sealed_term, emit)
            },
        }
    }
}

/// Hands over the searchable owners of a page.
#[verifier::loop_isolation(false)]
fn emit_owners<E: Sink<CountCandidate>>(page: &Page, layout: HeapLayout, emit: &mut E) -> (result:
    Result<()>)
    ensures
        passed_on(
            slots_walk(page@, 0, layout, plain_candidate()),
            old(emit).received(),
            final(emit).received(),
            result,
            old(emit).accepting(),
        ),
{
    let ghost pick = plain_candidate();
    let ghost total = slots_walk(page@, 0, layout, pick);
    let ghost before = emit.received();
    let ghost mut met: Seq<CountCandidate> = Seq::empty();
    assert(total =~= total.after(met));
    assert(before =~= before + met);
    assert(reached(total, before, emit.received(), met.len() as int, met, total));
    let count: u16 = page.owner_count()?;
    let mut slot: u16 = 0;
    while slot < count
        invariant
            slot <= count,
            emit.accepting() == old(emit).accepting(),
            reached(
                total,
                before,
                emit.received(),
                met.len() as int,
                met,
                slots_walk(page@, slot as int, layout, pick),
            ),
        decreases count - slot,
    {
        let owner: Owner<'_> = page.owner(slot, layout)?;
        let ghost rest = slots_walk(page@, slot + 1, layout, pick);
        if owner.live && owner.publication == Publication::Published {
            let candidate: CountCandidate = CountCandidate {
                owner: owner.reference,
                sealed_term: false,
            };
            let ghost now = emit.received();
            assert(pick(owner@) == candidate);
            emit.emit(candidate)?;
            proof {
                reached_next(total, before, now, met.len() as int, met, candidate, rest);
                met = met.push(candidate);
            }
        }
        slot += 1;
    }
    Ok(())
}

/// Hands over the owners of a posting page.
#[verifier::loop_isolation(false)]
fn emit_postings<E: Sink<CountCandidate>>(page: &Page, sealed_term: bool, emit: &mut E) -> (result:
    Result<()>)
    ensures
        passed_on(
            match page@.posting_stream() {
                Err(error) => Walk::failed(error),
                Ok(stream) => unordered_walk(stream.outcomes(), sealed_term),
            },
            old(emit).received(),
            final(emit).received(),
            result,
            old(emit).accepting(),
        ),
{
    let ghost total = match page@.posting_stream() {
        Err(error) => Walk::failed(error),
        Ok(stream) => unordered_walk(stream.outcomes(), sealed_term),
    };
    let ghost before = emit.received();
    let ghost mut met: Seq<CountCandidate> = Seq::empty();
    assert(total =~= total.after(met));
    assert(before =~= before + met);
    assert(reached(total, before, emit.received(), met.len() as int, met, total));
    let mut references: Postings<'_> = page.posting_refs()?;
    loop
        invariant
            emit.accepting() == old(emit).accepting(),
            reached(
                total,
                before,
                emit.received(),
                met.len() as int,
                met,
                unordered_walk(references@, sealed_term),
            ),
        decreases references@.len(),
    {
        let owner: OwnerRef = match references.next() {
            None => {
                return Ok(());
            },
            Some(owner) => owner?,
        };
        let candidate: CountCandidate = CountCandidate { owner, sealed_term };
        let ghost now = emit.received();
        let ghost rest = unordered_walk(references@, sealed_term);
        emit.emit(candidate)?;
        proof {
            reached_next(total, before, now, met.len() as int, met, candidate, rest);
            met = met.push(candidate);
        }
    }
}

} // verus!
