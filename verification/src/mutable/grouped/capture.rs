//! Complete-owner capture into a host sort of fixed-width records.

use crate::codec::records::Publication;
use crate::error::{Error, Result};
use crate::identity::{group_identity, RootTid};
use crate::mutable::count::behind;
use crate::mutable::grouped::anchors::{record_code, term_key, term_number, Anchor, SortRecord};
use crate::mutable::page::model::{term_bucket, Image, TermModel};
use crate::mutable::page::{
    bucket_for, Owner, OwnerModel, OwnerRef, Page, PageKind, Postings, Term, Terms, BUCKETS,
    NO_BLOCK,
};
use crate::mutable::reader::{cached, resolve, searchable};
use crate::mutable::store::{
    following, following_of, load, load_posting, posting_next, posting_next_of, PageStore,
    StoreModel,
};
use vstd::prelude::*;

verus! {

broadcast use group_identity;

/// How many records are handed to the sort at once.
pub const SORT_BATCH: usize = 256;

/// The bytes of records.
pub open spec fn record_bytes(records: Seq<SortRecord>) -> Seq<Seq<u8>> {
    Seq::new(records.len(), |i: int| records[i].0@)
}

/// Whether records stand in ascending order of their bytes.
pub open spec fn records_ascend(records: Seq<Seq<u8>>) -> bool {
    forall|i: int, j: int|
        0 <= i < j < records.len() ==> !crate::text::precedes(
            #[trigger] records[j],
            #[trigger] records[i],
        )
}

/// A fresh host-owned sort; it returns every submitted record unchanged, once,
/// in order. `finish` turns from insertion to reading. Errors abort the host
/// operation. The host bounds resident memory, owns spill files and cleans up on
/// every exit.
pub trait GroupSort {
    /// The records submitted so far.
    spec fn held(&self) -> Seq<Seq<u8>>;

    /// The records still to be read.
    spec fn pending(&self) -> Seq<Seq<u8>>;

    /// Whether no call fails.
    spec fn reliable(&self) -> bool;

    fn put(&mut self, records: &[SortRecord]) -> (result: Result<()>)
        ensures
            final(self).reliable() == old(self).reliable(),
            result is Ok ==> final(self).held() == old(self).held() + record_bytes(records@),
            old(self).reliable() ==> result is Ok,
    ;

    fn finish(&mut self) -> (result: Result<()>)
        ensures
            final(self).reliable() == old(self).reliable(),
            result is Ok ==> final(self).held() == old(self).held() && records_ascend(
                final(self).pending(),
            ) && final(self).pending().to_multiset() == old(self).held().to_multiset(),
            old(self).reliable() ==> result is Ok,
    ;

    /// Fills the front of the output; nothing at the end.
    fn read(&mut self, output: &mut [SortRecord]) -> (result: Result<usize>)
        requires
            old(output)@.len() > 0,
        ensures
            final(self).reliable() == old(self).reliable(),
            final(output)@.len() == old(output)@.len(),
            result matches Ok(count) ==> {
                &&& count == 0 ==> old(self).pending().len() == 0 && final(self).pending() == old(self).pending()
                &&& count <= old(output)@.len() ==> count <= old(self).pending().len()
                    && record_bytes(final(output)@.take(count as int)) == old(self).pending().take(
                    count as int,
                ) && final(self).pending() == old(self).pending().skip(count as int)
            },
            old(self).reliable() ==> (result matches Ok(count) && count <= old(output)@.len()),
    ;
}

#[derive(Clone, Copy, Debug, Eq, PartialEq, Structural)]
pub struct BuildStats {
    pub documents: u64,
    pub postings: u64,
    pub frontier_terms: u64,
    pub groups: u32,
    pub term_groups: u64,
    pub reclaimed_pages: u32,
    pub written_pages: u32,
    pub reused_pages: u32,
}

pub open spec fn no_build() -> BuildStats {
    BuildStats {
        documents: 0,
        postings: 0,
        frontier_terms: 0,
        groups: 0,
        term_groups: 0,
        reclaimed_pages: 0,
        written_pages: 0,
        reused_pages: 0,
    }
}

impl Default for BuildStats {
    fn default() -> (stats: Self)
        ensures
            stats == no_build(),
    {
        BuildStats {
            documents: 0,
            postings: 0,
            frontier_terms: 0,
            groups: 0,
            term_groups: 0,
            reclaimed_pages: 0,
            written_pages: 0,
            reused_pages: 0,
        }
    }
}

/// The words of a posting: term, root, incarnation, canonical owner slot.
pub open spec fn posting_words(term: u64, root: RootTid, owner: OwnerRef) -> Seq<u64> {
    seq![
        term,
        root.spec_key(),
        owner.incarnation.get(),
        (owner.page * 0x1_0000 + owner.slot) as u64,
    ]
}

/// The record of a posting.
pub open spec fn posting_record(term: u64, root: RootTid, owner: OwnerRef) -> Seq<u8> {
    record_code(posting_words(term, root, owner))
}

impl SortRecord {
    pub fn new(term: u64, root: RootTid, owner: OwnerRef) -> (record: Self)
        ensures
            record.0@ == posting_record(term, root, owner),
    {
        let slot: u64 = owner.page as u64 * 0x1_0000 + owner.slot as u64;
        let words: [u64; 4] = [term, root.key(), owner.incarnation.get(), slot];
        assert(words@ =~= posting_words(term, root, owner));
        SortRecord::of_words(words)
    }
}

/// What was captured so far.
#[verifier::ext_equal]
pub struct CaptureModel {
    pub records: Seq<Seq<u8>>,
    pub documents: u64,
    pub postings: u64,
    pub frontier: u64,
    pub expected: u64,
    pub after: Option<OwnerRef>,
}

/// A sum that can be counted.
pub open spec fn counted(count: u64, more: int, limit: Error) -> Result<u64> {
    if count + more > u64::MAX {
        Err(limit)
    } else {
        Ok((count + more) as u64)
    }
}

impl CaptureModel {
    /// Capturing an owner: incarnations ascend, and a searchable owner is a
    /// document with the postings of its terms.
    pub open spec fn with_owner(self, owner: OwnerModel) -> Result<CaptureModel> {
        if self.after matches Some(previous) && previous.incarnation.get()
            >= owner.reference.incarnation.get() {
            Err(Error::InvalidState)
        } else if !searchable(owner) {
            Ok(CaptureModel { after: Some(owner.reference), ..self })
        } else {
            match counted(self.documents, 1, Error::Limit("group postings")) {
                Err(error) => Err(error),
                Ok(documents) => match counted(
                    self.expected,
                    owner.terms as int,
                    Error::Limit("group postings"),
                ) {
                    Err(error) => Err(error),
                    Ok(expected) => Ok(
                        CaptureModel {
                            records: self.records.push(
                                posting_record(0, owner.root, owner.reference),
                            ),
                            documents,
                            expected,
                            after: Some(owner.reference),
                            ..self
                        },
                    ),
                },
            }
        }
    }

    /// Capturing the owners of a page from `slot` on.
    pub open spec fn with_slots(
        self,
        image: Image,
        slot: int,
        count: int,
        layout: crate::identity::HeapLayout,
    ) -> Result<CaptureModel>
        decreases count - slot,
    {
        if slot >= count {
            Ok(self)
        } else {
            match image.owner(slot as u16, layout) {
                Err(error) => Err(error),
                Ok(owner) => match self.with_owner(owner) {
                    Err(error) => Err(error),
                    Ok(next) => next.with_slots(image, slot + 1, count, layout),
                },
            }
        }
    }

    /// Capturing the owners on the chain from `block` to `tail`.
    pub open spec fn with_owners(self, model: StoreModel, block: u32, tail: u32) -> Result<
        CaptureModel,
    >
        decreases tail - block,
    {
        match model.load(block, PageKind::Owners) {
            Err(error) => Err(error),
            Ok(image) => match image.owner_count() {
                Err(error) => Err(error),
                Ok(count) => match self.with_slots(image, 0, count as int, model.layout) {
                    Err(error) => Err(error),
                    Ok(next) => match following_of(image, tail) {
                        Err(error) => Err(error),
                        Ok(None) => Ok(next),
                        Ok(Some(block_after)) => if block < block_after <= tail {
                            next.with_owners(model, block_after, tail)
                        } else {
                            Ok(next)
                        },
                    },
                },
            },
        }
    }

    /// Capturing a reference of a term, if its owner is searchable.
    pub open spec fn with_reference(self, model: StoreModel, term: u64, owner: OwnerRef) -> Result<
        CaptureModel,
    > {
        match model.resolved(owner) {
            Err(error) => Err(error),
            Ok(None) => Ok(self),
            Ok(Some(root)) => match counted(self.postings, 1, Error::Limit("group postings")) {
                Err(error) => Err(error),
                Ok(postings) => Ok(
                    CaptureModel {
                        records: self.records.push(posting_record(term, root, owner)),
                        postings,
                        ..self
                    },
                ),
            },
        }
    }

    /// Capturing the references of a page, which ascend from the previous one:
    /// the last one, too.
    pub open spec fn with_page(
        self,
        model: StoreModel,
        term: u64,
        outcomes: Seq<Result<OwnerRef>>,
        previous: OwnerRef,
    ) -> Result<(CaptureModel, OwnerRef)>
        decreases outcomes.len(),
    {
        if outcomes.len() == 0 {
            Ok((self, previous))
        } else {
            match outcomes[0] {
                Err(error) => Err(error),
                Ok(owner) => if !behind(owner, previous) {
                    Err(Error::InvalidState)
                } else {
                    match self.with_reference(model, term, owner) {
                        Err(error) => Err(error),
                        Ok(next) => next.with_page(model, term, outcomes.drop_first(), owner),
                    }
                },
            }
        }
    }

    /// Capturing a posting chain: the last reference, too. With anchors the
    /// tail page must hold references.
    pub open spec fn with_chain(
        self,
        model: StoreModel,
        anchored: bool,
        entry: TermModel,
        block: u32,
        remaining: u32,
        previous: OwnerRef,
    ) -> Result<(CaptureModel, OwnerRef)>
        decreases remaining,
    {
        match model.load_posting(block, entry.reference) {
            Err(error) => Err(error),
            Ok(image) => match image.posting_stream() {
                Err(error) => Err(error),
                Ok(stream) => match self.with_page(
                    model,
                    term_number(entry.reference),
                    stream.outcomes(),
                    previous,
                ) {
                    Err(error) => Err(error),
                    Ok((next, last)) => if anchored && block == entry.tail && last == previous {
                        Err(Error::InvalidState)
                    } else {
                        match posting_next_of(image, entry.tail, remaining) {
                            Err(error) => Err(error),
                            Ok(None) => Ok((next, last)),
                            Ok(Some(after)) => if remaining > 0 {
                                next.with_chain(
                                    model,
                                    anchored,
                                    entry,
                                    after,
                                    (remaining - 1) as u32,
                                    last,
                                )
                            } else {
                                Ok((next, last))
                            },
                        }
                    },
                },
            },
        }
    }

    /// Capturing the anchor of a term.
    pub open spec fn with_anchor(self, anchored: bool, entry: TermModel, last: OwnerRef) -> Result<
        CaptureModel,
    > {
        let anchor = Anchor { head: entry.head, tail: entry.tail, last: last.incarnation.get() };
        if !anchored {
            Ok(self)
        } else if !anchor.valid() {
            Err(Error::InvalidState)
        } else {
            match counted(self.frontier, 1, Error::Limit("frontier terms")) {
                Err(error) => Err(error),
                Ok(frontier) => Ok(
                    CaptureModel {
                        records: self.records.push(
                            record_code(anchor.words(term_number(entry.reference))),
                        ),
                        frontier,
                        ..self
                    },
                ),
            }
        }
    }

    /// Capturing a term.
    pub open spec fn with_term(self, model: StoreModel, anchored: bool, bucket: int, entry: TermModel) -> Result<
        CaptureModel,
    > {
        if term_bucket(entry.term) != bucket {
            Err(Error::InvalidState)
        } else {
            match self.with_reference(model, term_number(entry.reference), entry.first) {
                Err(error) => Err(error),
                Ok(next) => if entry.head == NO_BLOCK {
                    next.with_anchor(anchored, entry, entry.first)
                } else {
                    match next.with_chain(
                        model,
                        anchored,
                        entry,
                        entry.head,
                        model.pages.len() as u32,
                        entry.first,
                    ) {
                        Err(error) => Err(error),
                        Ok((next, last)) => next.with_anchor(anchored, entry, last),
                    }
                },
            }
        }
    }

    /// Capturing the terms among outcomes of a dictionary page.
    pub open spec fn with_terms(
        self,
        model: StoreModel,
        anchored: bool,
        bucket: int,
        outcomes: Seq<Result<TermModel>>,
    ) -> Result<CaptureModel>
        decreases outcomes.len(),
    {
        if outcomes.len() == 0 {
            Ok(self)
        } else {
            match outcomes[0] {
                Err(error) => Err(error),
                Ok(entry) => match self.with_term(model, anchored, bucket, entry) {
                    Err(error) => Err(error),
                    Ok(next) => next.with_terms(model, anchored, bucket, outcomes.drop_first()),
                },
            }
        }
    }

    /// Capturing the dictionary pages from `block` to `tail`.
    pub open spec fn with_dictionary(
        self,
        model: StoreModel,
        anchored: bool,
        bucket: int,
        block: u32,
        tail: u32,
    ) -> Result<CaptureModel>
        decreases tail - block,
    {
        match model.load(block, PageKind::Dictionary) {
            Err(error) => Err(error),
            Ok(image) => match image.terms() {
                Err(error) => Err(error),
                Ok(outcomes) => match self.with_terms(model, anchored, bucket, outcomes) {
                    Err(error) => Err(error),
                    Ok(next) => match following_of(image, tail) {
                        Err(error) => Err(error),
                        Ok(None) => Ok(next),
                        Ok(Some(block_after)) => if block < block_after <= tail {
                            next.with_dictionary(model, anchored, bucket, block_after, tail)
                        } else {
                            Ok(next)
                        },
                    },
                },
            },
        }
    }

    /// Capturing the buckets from `bucket` on.
    pub open spec fn with_buckets(self, model: StoreModel, meta: Image, anchored: bool, bucket: int) -> Result<
        CaptureModel,
    >
        decreases 512 - bucket,
    {
        if bucket >= 512 {
            Ok(self)
        } else {
            match meta.bucket(bucket) {
                Err(error) => Err(error),
                Ok((head, tail)) => if head == NO_BLOCK {
                    self.with_buckets(model, meta, anchored, bucket + 1)
                } else {
                    match self.with_dictionary(model, anchored, bucket, head, tail) {
                        Err(error) => Err(error),
                        Ok(next) => next.with_buckets(model, meta, anchored, bucket + 1),
                    }
                },
            }
        }
    }
}

pub open spec fn nothing_captured() -> CaptureModel {
    CaptureModel {
        records: Seq::empty(),
        documents: 0,
        postings: 0,
        frontier: 0,
        expected: 0,
        after: None,
    }
}

/// All that a relation holds in searchable owners and their postings. Each
/// owner must be reachable from all of its terms.
pub open spec fn captured(model: StoreModel, anchored: bool) -> Result<CaptureModel> {
    match model.load(0, PageKind::Meta) {
        Err(error) => Err(error),
        Ok(meta) => match meta.owner_chain() {
            Err(error) => Err(error),
            Ok((head, tail)) => match (if head == NO_BLOCK {
                Ok(nothing_captured())
            } else {
                nothing_captured().with_owners(model, head, tail)
            }) {
                Err(error) => Err(error),
                Ok(owners) => match owners.with_buckets(model, meta, anchored, 0) {
                    Err(error) => Err(error),
                    Ok(all) => if all.postings != all.expected {
                        Err(Error::InvalidState)
                    } else {
                        Ok(all)
                    },
                },
            },
        },
    }
}

/// A capture in progress: counts, and the records that the sort does not have yet.
struct Capture {
    rows: Vec<SortRecord>,
    documents: u64,
    postings: u64,
    frontier: u64,
    expected: u64,
    after: Option<OwnerRef>,
    /// All records so far.
    records: Ghost<Seq<Seq<u8>>>,
}

impl Capture {
    spec fn model(self) -> CaptureModel {
        CaptureModel {
            records: self.records@,
            documents: self.documents,
            postings: self.postings,
            frontier: self.frontier,
            expected: self.expected,
            after: self.after,
        }
    }

    /// What the sort holds and what it is still to get are all records.
    spec fn wf(self, begun: Seq<Seq<u8>>, held: Seq<Seq<u8>>) -> bool {
        &&& held + record_bytes(self.rows@) == begun + self.records@
        &&& self.rows@.len() < 256
    }

    /// Notes a record; a full batch goes to the sort.
    fn note<T: GroupSort>(&mut self, sort: &mut T, record: SortRecord, begun: Ghost<Seq<Seq<u8>>>) -> (result:
        Result<()>)
        requires
            old(self).wf(begun@, old(sort).held()),
        ensures
            final(sort).reliable() == old(sort).reliable(),
            match result {
                Ok(_) => final(self).wf(begun@, final(sort).held()) && final(self).model() == (
                CaptureModel {
                    records: old(self).records@.push(record.0@),
                    ..old(self).model()
                }),
                Err(_) => !old(sort).reliable(),
            },
    {
        let ghost before = self.rows@;
        let ghost held = sort.held();
        let ghost records = self.records@;
        self.rows.push(record);
        self.records = Ghost(records.push(record.0@));
        proof {
            assert(record_bytes(self.rows@) =~= record_bytes(before).push(record.0@));
            assert(held + record_bytes(self.rows@) =~= (held + record_bytes(before)).push(
                record.0@,
            ));
            assert(begun@ + records.push(record.0@) =~= (begun@ + records).push(record.0@));
        }
        if self.rows.len() == SORT_BATCH {
            self.flush(sort)?;
        }
        Ok(())
    }

    /// Hands the batch to the sort.
    fn flush<T: GroupSort>(&mut self, sort: &mut T) -> (result: Result<()>)
        ensures
            final(sort).reliable() == old(sort).reliable(),
            match result {
                Ok(_) => final(sort).held() == old(sort).held() + record_bytes(old(self).rows@)
                    && final(self).rows@.len() == 0 && final(self).model() == old(self).model()
                    && record_bytes(final(self).rows@) == Seq::<Seq<u8>>::empty()
                    && final(sort).held() + record_bytes(final(self).rows@) == final(sort).held(),
                Err(_) => !old(sort).reliable(),
            },
    {
        let ghost held = sort.held();
        if self.rows.len() != 0 {
            sort.put(self.rows.as_slice())?;
        } else {
            assert(record_bytes(self.rows@) =~= Seq::<Seq<u8>>::empty());
            assert(held + record_bytes(self.rows@) =~= held);
        }
        self.rows.clear();
        assert(record_bytes(self.rows@) =~= Seq::<Seq<u8>>::empty());
        assert(sort.held() + record_bytes(self.rows@) =~= sort.held());
        Ok(())
    }
}

fn count_more(count: u64, more: u64, limit: &'static str) -> (result: Result<u64>)
    ensures
        result == counted(count, more as int, Error::Limit(limit)),
{
    match count.checked_add(more) {
        Some(sum) => Ok(sum),
        None => Err(Error::Limit(limit)),
    }
}

/// What capturing reports: the capture expected, or a failure of the host or of
/// the sort.
spec fn captures(
    capture: Capture,
    begun: Seq<Seq<u8>>,
    held: Seq<Seq<u8>>,
    result: Result<()>,
    expected: Result<CaptureModel>,
    reliable: bool,
) -> bool {
    match result {
        Ok(_) => expected == Ok::<CaptureModel, Error>(capture.model()) && capture.wf(begun, held),
        Err(error) => !reliable || expected == Err::<CaptureModel, Error>(error),
    }
}

/// Captures an owner.
fn capture_owner<T: GroupSort>(
    capture: &mut Capture,
    sort: &mut T,
    owner: &Owner<'_>,
    begun: Ghost<Seq<Seq<u8>>>,
) -> (result: Result<()>)
    requires
        old(capture).wf(begun@, old(sort).held()),
    ensures
        final(sort).reliable() == old(sort).reliable(),
        captures(
            *final(capture),
            begun@,
            final(sort).held(),
            result,
            old(capture).model().with_owner(owner@),
            old(sort).reliable(),
        ),
{
    if let Some(previous) = capture.after {
        if previous.incarnation.get() >= owner.reference.incarnation.get() {
            return Err(Error::InvalidState);
        }
    }
    if owner.publication == Publication::Published && owner.live {
        let documents: u64 = count_more(capture.documents, 1, "group postings")?;
        let expected: u64 = count_more(capture.expected, owner.terms as u64, "group postings")?;
        let record: SortRecord = SortRecord::new(0, owner.root, owner.reference);
        capture.note(sort, record, begun)?;
        capture.documents = documents;
        capture.expected = expected;
    }
    capture.after = Some(owner.reference);
    Ok(())
}

/// Captures the owners of the chain.
#[verifier::loop_isolation(false)]
fn capture_owners<S: PageStore, T: GroupSort>(
    store: &mut S,
    sort: &mut T,
    capture: &mut Capture,
    head: u32,
    tail: u32,
    begun: Ghost<Seq<Seq<u8>>>,
) -> (result: Result<()>)
    requires
        old(capture).wf(begun@, old(sort).held()),
    ensures
        final(store).host() == old(store).host(),
        final(sort).reliable() == old(sort).reliable(),
        captures(
            *final(capture),
            begun@,
            final(sort).held(),
            result,
            old(capture).model().with_owners(old(store).host().model, head, tail),
            old(sort).reliable() && old(store).host().reliable,
        ),
{
    let ghost model = store.host().model;
    let ghost total = capture.model().with_owners(model, head, tail);
    let mut block: u32 = head;
    loop
        invariant
            store.host() == old(store).host(),
            sort.reliable() == old(sort).reliable(),
            capture.wf(begun@, sort.held()),
            total == capture.model().with_owners(model, block, tail),
        decreases tail - block,
    {
        let page: Page = load(store, block, PageKind::Owners)?;
        let count: u16 = page.owner_count()?;
        let ghost on_page = capture.model().with_slots(page@, 0, count as int, model.layout);
        let mut slot: u16 = 0;
        while slot < count
            invariant
                slot <= count,
                store.host() == old(store).host(),
                sort.reliable() == old(sort).reliable(),
                capture.wf(begun@, sort.held()),
                on_page == capture.model().with_slots(
                    page@,
                    slot as int,
                    count as int,
                    model.layout,
                ),
            decreases count - slot,
        {
            let owner: Owner<'_> = page.owner(slot, store.layout())?;
            capture_owner(capture, sort, &owner, begun)?;
            slot += 1;
        }
        match following(&page, tail)? {
            Some(next) => {
                block = next;
            },
            None => {
                return Ok(());
            },
        }
    }
}

/// Captures a reference of a term.
fn capture_reference<S: PageStore, T: GroupSort>(
    store: &mut S,
    sort: &mut T,
    capture: &mut Capture,
    cache: &mut Option<Page>,
    term: u64,
    owner: OwnerRef,
    begun: Ghost<Seq<Seq<u8>>>,
) -> (result: Result<()>)
    requires
        old(capture).wf(begun@, old(sort).held()),
        cached(*old(cache), old(store).host().model),
    ensures
        final(store).host() == old(store).host(),
        final(sort).reliable() == old(sort).reliable(),
        cached(*final(cache), old(store).host().model),
        captures(
            *final(capture),
            begun@,
            final(sort).held(),
            result,
            old(capture).model().with_reference(old(store).host().model, term, owner),
            old(sort).reliable() && old(store).host().reliable,
        ),
{
    if let Some(root) = resolve(store, cache, owner)? {
        let postings: u64 = count_more(capture.postings, 1, "group postings")?;
        let record: SortRecord = SortRecord::new(term, root, owner);
        capture.note(sort, record, begun)?;
        capture.postings = postings;
    }
    Ok(())
}

/// Captures the references of a posting page; leaves the last one behind.
#[verifier::loop_isolation(false)]
fn capture_page<S: PageStore, T: GroupSort>(
    store: &mut S,
    sort: &mut T,
    capture: &mut Capture,
    cache: &mut Option<Page>,
    term: u64,
    page: &Page,
    previous: &mut OwnerRef,
    begun: Ghost<Seq<Seq<u8>>>,
) -> (result: Result<()>)
    requires
        old(capture).wf(begun@, old(sort).held()),
        cached(*old(cache), old(store).host().model),
    ensures
        final(store).host() == old(store).host(),
        final(sort).reliable() == old(sort).reliable(),
        cached(*final(cache), old(store).host().model),
        ({
            let expected = match page@.posting_stream() {
                Err(error) => Err(error),
                Ok(stream) => old(capture).model().with_page(
                    old(store).host().model,
                    term,
                    stream.outcomes(),
                    *old(previous),
                ),
            };
            match result {
                Ok(_) => expected == Ok::<(CaptureModel, OwnerRef), Error>(
                    (final(capture).model(), *final(previous)),
                ) && final(capture).wf(begun@, final(sort).held()),
                Err(error) => !(old(sort).reliable() && old(store).host().reliable) || expected
                    == Err::<(CaptureModel, OwnerRef), Error>(error),
            }
        }),
{
    let ghost model = store.host().model;
    let mut references: Postings<'_> = page.posting_refs()?;
    let ghost total = capture.model().with_page(model, term, references@, *previous);
    loop
        invariant
            store.host() == old(store).host(),
            sort.reliable() == old(sort).reliable(),
            cached(*cache, model),
            capture.wf(begun@, sort.held()),
            total == capture.model().with_page(model, term, references@, *previous),
        decreases references@.len(),
    {
        let owner: OwnerRef = match references.next() {
            None => {
                return Ok(());
            },
            Some(owner) => owner?,
        };
        if owner.page < previous.page || (owner.page == previous.page && owner.slot
            <= previous.slot) || owner.incarnation.get() <= previous.incarnation.get() {
            return Err(Error::InvalidState);
        }
        capture_reference(store, sort, capture, cache, term, owner, begun)?;
        *previous = owner;
    }
}

/// Captures a posting chain: the last reference.
#[verifier::loop_isolation(false)]
fn capture_chain<S: PageStore, T: GroupSort>(
    store: &mut S,
    sort: &mut T,
    capture: &mut Capture,
    cache: &mut Option<Page>,
    entry: &Term<'_>,
    begun: Ghost<Seq<Seq<u8>>>,
) -> (result: Result<OwnerRef>)
    requires
        old(capture).wf(begun@, old(sort).held()),
        cached(*old(cache), old(store).host().model),
    ensures
        final(store).host() == old(store).host(),
        final(sort).reliable() == old(sort).reliable(),
        cached(*final(cache), old(store).host().model),
        ({
            let expected = old(capture).model().with_chain(
                old(store).host().model,
                old(store).host().anchored,
                entry@,
                entry.head,
                old(store).host().model.pages.len() as u32,
                entry.first,
            );
            match result {
                Ok(last) => expected == Ok::<(CaptureModel, OwnerRef), Error>(
                    (final(capture).model(), last),
                ) && final(capture).wf(begun@, final(sort).held()),
                Err(error) => !(old(sort).reliable() && old(store).host().reliable) || expected
                    == Err::<(CaptureModel, OwnerRef), Error>(error),
            }
        }),
{
    let ghost model = store.host().model;
    let anchored: bool = store.frontier_anchors();
    let key: u64 = term_key(entry.reference);
    let mut previous: OwnerRef = entry.first;
    let mut block: u32 = entry.head;
    let mut remaining: u32 = store.blocks()?;
    let ghost total = capture.model().with_chain(
        model,
        anchored,
        entry@,
        block,
        remaining,
        previous,
    );
    loop
        invariant
            store.host() == old(store).host(),
            sort.reliable() == old(sort).reliable(),
            cached(*cache, model),
            capture.wf(begun@, sort.held()),
            total == capture.model().with_chain(
                model,
                anchored,
                entry@,
                block,
                remaining,
                previous,
            ),
        decreases remaining,
    {
        let page: Page = load_posting(store, block, entry.reference)?;
        let before: OwnerRef = previous;
        capture_page(store, sort, capture, cache, key, &page, &mut previous, begun)?;
        if anchored && block == entry.tail && previous == before {
            return Err(Error::InvalidState);
        }
        match posting_next(&page, entry.tail, &mut remaining)? {
            Some(next) => {
                block = next;
            },
            None => {
                return Ok(previous);
            },
        }
    }
}

/// Captures the anchor of a term.
fn capture_anchor<T: GroupSort>(
    sort: &mut T,
    capture: &mut Capture,
    anchored: bool,
    entry: &Term<'_>,
    last: OwnerRef,
    begun: Ghost<Seq<Seq<u8>>>,
) -> (result: Result<()>)
    requires
        old(capture).wf(begun@, old(sort).held()),
    ensures
        final(sort).reliable() == old(sort).reliable(),
        captures(
            *final(capture),
            begun@,
            final(sort).held(),
            result,
            old(capture).model().with_anchor(anchored, entry@, last),
            old(sort).reliable(),
        ),
{
    if anchored {
        let anchor: Anchor = Anchor::new(entry.head, entry.tail, last.incarnation.get())?;
        let frontier: u64 = count_more(capture.frontier, 1, "frontier terms")?;
        let record: SortRecord = anchor.sort_record(term_key(entry.reference));
        capture.note(sort, record, begun)?;
        capture.frontier = frontier;
    }
    Ok(())
}

/// Captures a term.
fn capture_term<S: PageStore, T: GroupSort>(
    store: &mut S,
    sort: &mut T,
    capture: &mut Capture,
    cache: &mut Option<Page>,
    bucket: usize,
    entry: &Term<'_>,
    begun: Ghost<Seq<Seq<u8>>>,
) -> (result: Result<()>)
    requires
        old(capture).wf(begun@, old(sort).held()),
        cached(*old(cache), old(store).host().model),
    ensures
        final(store).host() == old(store).host(),
        final(sort).reliable() == old(sort).reliable(),
        cached(*final(cache), old(store).host().model),
        captures(
            *final(capture),
            begun@,
            final(sort).held(),
            result,
            old(capture).model().with_term(
                old(store).host().model,
                old(store).host().anchored,
                bucket as int,
                entry@,
            ),
            old(sort).reliable() && old(store).host().reliable,
        ),
{
    if bucket_for(entry.term) != bucket {
        return Err(Error::InvalidState);
    }
    let anchored: bool = store.frontier_anchors();
    let key: u64 = term_key(entry.reference);
    capture_reference(store, sort, capture, cache, key, entry.first, begun)?;
    let last: OwnerRef = if entry.head == NO_BLOCK {
        entry.first
    } else {
        capture_chain(store, sort, capture, cache, entry, begun)?
    };
    capture_anchor(sort, capture, anchored, entry, last, begun)
}

/// Captures the terms of a dictionary page.
#[verifier::loop_isolation(false)]
fn capture_terms<S: PageStore, T: GroupSort>(
    store: &mut S,
    sort: &mut T,
    capture: &mut Capture,
    cache: &mut Option<Page>,
    bucket: usize,
    dictionary: &Page,
    begun: Ghost<Seq<Seq<u8>>>,
) -> (result: Result<()>)
    requires
        old(capture).wf(begun@, old(sort).held()),
        cached(*old(cache), old(store).host().model),
    ensures
        final(store).host() == old(store).host(),
        final(sort).reliable() == old(sort).reliable(),
        cached(*final(cache), old(store).host().model),
        captures(
            *final(capture),
            begun@,
            final(sort).held(),
            result,
            match dictionary@.terms() {
                Err(error) => Err(error),
                Ok(outcomes) => old(capture).model().with_terms(
                    old(store).host().model,
                    old(store).host().anchored,
                    bucket as int,
                    outcomes,
                ),
            },
            old(sort).reliable() && old(store).host().reliable,
        ),
{
    let ghost model = store.host().model;
    let ghost anchored = store.host().anchored;
    let mut entries: Terms<'_> = dictionary.terms()?;
    let ghost total = capture.model().with_terms(model, anchored, bucket as int, entries@);
    loop
        invariant
            store.host() == old(store).host(),
            sort.reliable() == old(sort).reliable(),
            cached(*cache, model),
            capture.wf(begun@, sort.held()),
            total == capture.model().with_terms(model, anchored, bucket as int, entries@),
        decreases entries@.len(),
    {
        let entry: Term<'_> = match entries.next() {
            None => {
                return Ok(());
            },
            Some(entry) => entry?,
        };
        capture_term(store, sort, capture, cache, bucket, &entry, begun)?;
    }
}

/// Captures the dictionary pages of a bucket.
#[verifier::loop_isolation(false)]
fn capture_bucket<S: PageStore, T: GroupSort>(
    store: &mut S,
    sort: &mut T,
    capture: &mut Capture,
    cache: &mut Option<Page>,
    bucket: usize,
    head: u32,
    tail: u32,
    begun: Ghost<Seq<Seq<u8>>>,
) -> (result: Result<()>)
    requires
        old(capture).wf(begun@, old(sort).held()),
        cached(*old(cache), old(store).host().model),
    ensures
        final(store).host() == old(store).host(),
        final(sort).reliable() == old(sort).reliable(),
        cached(*final(cache), old(store).host().model),
        captures(
            *final(capture),
            begun@,
            final(sort).held(),
            result,
            old(capture).model().with_dictionary(
                old(store).host().model,
                old(store).host().anchored,
                bucket as int,
                head,
                tail,
            ),
            old(sort).reliable() && old(store).host().reliable,
        ),
{
    let ghost model = store.host().model;
    let ghost anchored = store.host().anchored;
    let ghost total = capture.model().with_dictionary(
        model,
        anchored,
        bucket as int,
        head,
        tail,
    );
    let mut block: u32 = head;
    loop
        invariant
            store.host() == old(store).host(),
            sort.reliable() == old(sort).reliable(),
            cached(*cache, model),
            capture.wf(begun@, sort.held()),
            total == capture.model().with_dictionary(
                model,
                anchored,
                bucket as int,
                block,
                tail,
            ),
        decreases tail - block,
    {
        let dictionary: Page = load(store, block, PageKind::Dictionary)?;
        capture_terms(store, sort, capture, cache, bucket, &dictionary, begun)?;
        match following(&dictionary, tail)? {
            Some(next) => {
                block = next;
            },
            None => {
                return Ok(());
            },
        }
    }
}

/// The statistics of a capture.
pub open spec fn capture_stats(capture: CaptureModel) -> BuildStats {
    BuildStats {
        documents: capture.documents,
        postings: capture.postings,
        frontier_terms: capture.frontier,
        ..no_build()
    }
}

/// Hands all searchable owners and their postings to the sort: the statistics
/// and the last owner.
///
/// # Errors
/// Rejects incomplete coverage, corruption, and host or sort failures.
#[verifier::loop_isolation(false)]
pub(crate) fn capture<S: PageStore, T: GroupSort>(store: &mut S, sort: &mut T) -> (result: Result<
    (BuildStats, Option<OwnerRef>),
>)
    ensures
        final(store).host() == old(store).host(),
        final(sort).reliable() == old(sort).reliable(),
        ({
            let expected = captured(old(store).host().model, old(store).host().anchored);
            match result {
                Ok((stats, after)) => expected matches Ok(all) && stats == capture_stats(all)
                    && after == all.after && final(sort).held() == old(sort).held() + all.records,
                Err(error) => !(old(sort).reliable() && old(store).host().reliable) || expected
                    == Err::<CaptureModel, Error>(error),
            }
        }),
{
    let ghost model = store.host().model;
    let ghost anchored = store.host().anchored;
    let ghost begun = sort.held();
    let meta: Page = load(store, 0, PageKind::Meta)?;
    let mut capture: Capture = Capture {
        rows: Vec::new(),
        documents: 0,
        postings: 0,
        frontier: 0,
        expected: 0,
        after: None,
        records: Ghost(Seq::empty()),
    };
    assert(begun + record_bytes(capture.rows@) =~= begun + capture.records@);
    let (head, tail): (u32, u32) = meta.owner_chain()?;
    if head != NO_BLOCK {
        capture_owners(store, sort, &mut capture, head, tail, Ghost(begun))?;
    }
    let ghost total = capture.model().with_buckets(model, meta@, anchored, 0);
    let mut cache: Option<Page> = None;
    let mut bucket: usize = 0;
    while bucket < BUCKETS
        invariant
            bucket <= BUCKETS,
            store.host() == old(store).host(),
            sort.reliable() == old(sort).reliable(),
            cached(cache, model),
            capture.wf(begun, sort.held()),
            total == capture.model().with_buckets(model, meta@, anchored, bucket as int),
        decreases BUCKETS - bucket,
    {
        let (head, tail): (u32, u32) = meta.bucket(bucket)?;
        if head != NO_BLOCK {
            capture_bucket(
                store,
                sort,
                &mut capture,
                &mut cache,
                bucket,
                head,
                tail,
                Ghost(begun),
            )?;
        }
        bucket += 1;
    }
    if capture.postings != capture.expected {
        return Err(Error::InvalidState);
    }
    capture.flush(sort)?;
    let stats: BuildStats = BuildStats {
        documents: capture.documents,
        postings: capture.postings,
        frontier_terms: capture.frontier,
        ..BuildStats::default()
    };
    Ok((stats, capture.after))
}

} // verus!
