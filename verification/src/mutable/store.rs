//! The host's pages as a verified interface, and the checked loads built on it.

use crate::error::{Error, Result};
use crate::identity::{group_identity, HeapLayout};
use crate::mutable::page::model::{term_bucket, Image, TermModel};
use crate::mutable::page::{bucket_for, Page, PageKind, Term, TermRef, Terms, MAX_WAL_PAGES, NO_BLOCK};
use crate::text::{same_bytes, text_bytes};
use vstd::prelude::*;

verus! {

broadcast use group_identity;

/// Storage and reader-barrier boundaries, reported to the host.
#[derive(Clone, Copy, Debug, Eq, PartialEq, Structural)]
pub enum Stage {
    Allocation,
    OwnerReserved,
    FragmentStored,
    PayloadReady,
    TermLinked,
    Published,
    OwnerRemoved,
    PageReclaimed,
    SegmentStored,
    ReplacementPublished,
    SegmentReclaimed,
    ReaderPinned,
    GroupScan,
    GroupSortReady,
    GroupReserved,
    GroupStored,
    GroupPublished,
    GroupRetired,
    GroupReclaimed,
    FrontierSeek,
    FrontierInvalidated,
    OwnerFrontierScan,
}

/// What a relation holds: its heap layout and the image of each block.
#[verifier::ext_equal]
pub struct StoreModel {
    pub layout: HeapLayout,
    pub pages: Seq<Image>,
}

/// A freshly reserved block: all zero.
pub open spec fn zero_image(block: u32) -> Image {
    Image { block, kind: PageKind::Zero, initialize: false, bytes: Seq::empty() }
}

/// A page image as the host keeps it.
pub open spec fn stored(image: Image) -> Image {
    Image { initialize: false, ..image }
}

impl StoreModel {
    pub open spec fn has(self, block: u32) -> bool {
        block < self.pages.len()
    }

    /// The relation after a page image replaced its block.
    pub open spec fn put(self, image: Image) -> StoreModel {
        StoreModel { pages: self.pages.update(image.block as int, stored(image)), ..self }
    }

    /// The relation after one more block was reserved.
    pub open spec fn extended(self) -> StoreModel {
        StoreModel { pages: self.pages.push(zero_image(self.pages.len() as u32)), ..self }
    }

    /// The checked image of a block.
    pub open spec fn load_any(self, block: u32) -> Result<Image> {
        if !self.has(block) || self.pages[block as int].block != block {
            Err(Error::InvalidState)
        } else {
            match self.pages[block as int].check(self.layout) {
                Ok(_) => Ok(self.pages[block as int]),
                Err(error) => Err(error),
            }
        }
    }

    /// The checked image of a block of the given kind.
    pub open spec fn load(self, block: u32, kind: PageKind) -> Result<Image> {
        match self.load_any(block) {
            Err(error) => Err(error),
            Ok(image) => if image.kind != kind {
                Err(Error::InvalidState)
            } else {
                Ok(image)
            },
        }
    }

    /// The checked image of a posting page of a term.
    pub open spec fn load_posting(self, block: u32, term: TermRef) -> Result<Image> {
        match self.load_any(block) {
            Err(error) => Err(error),
            Ok(image) => match image.posting_term() {
                Err(error) => Err(error),
                Ok(other) => if other != term {
                    Err(Error::InvalidState)
                } else {
                    Ok(image)
                },
            },
        }
    }

    /// The dictionary entry of a term on the chain from `block` to `tail`, where
    /// `found` was met on an earlier page.
    pub open spec fn find_from(
        self,
        text: Seq<u8>,
        block: u32,
        tail: u32,
        found: Option<(Image, TermRef)>,
    ) -> Result<Option<(Image, TermRef)>>
        decreases tail - block,
    {
        match self.load(block, PageKind::Dictionary) {
            Err(error) => Err(error),
            Ok(image) => match image.terms() {
                Err(error) => Err(error),
                Ok(outcomes) => match entry_named(outcomes, text, found is Some) {
                    Err(error) => Err(error),
                    Ok(reference) => match following_of(image, tail) {
                        Err(error) => Err(error),
                        Ok(next) => {
                            let found = match reference {
                                Some(reference) => Some((image, reference)),
                                None => found,
                            };
                            match next {
                                None => Ok(found),
                                Some(next) => if block < next <= tail {
                                    self.find_from(text, next, tail, found)
                                } else {
                                    Ok(found)
                                },
                            }
                        },
                    },
                },
            },
        }
    }

    /// The dictionary page and entry of a term.
    pub open spec fn find_term(self, meta: Image, text: Seq<u8>) -> Result<
        Option<(Image, TermRef)>,
    > {
        match meta.bucket(term_bucket(text)) {
            Err(error) => Err(error),
            Ok((head, tail)) => if head == NO_BLOCK {
                Ok(None)
            } else {
                self.find_from(text, head, tail, None)
            },
        }
    }
}

/// The block that follows a page on an ascending chain that ends at `tail`.
pub open spec fn following_of(image: Image, tail: u32) -> Result<Option<u32>> {
    if image.block == tail {
        Ok(None)
    } else {
        match image.next() {
            Err(error) => Err(error),
            Ok(next) => if next == NO_BLOCK || next > tail || next <= image.block {
                Err(Error::InvalidState)
            } else {
                Ok(Some(next))
            },
        }
    }
}

/// The block that follows a page on a posting chain that ends at `tail`, where
/// the page is one of at most `remaining`.
pub open spec fn posting_next_of(image: Image, tail: u32, remaining: u32) -> Result<Option<u32>> {
    if remaining == 0 {
        Err(Error::InvalidState)
    } else if image.block == tail {
        Ok(None)
    } else {
        match image.next() {
            Err(error) => Err(error),
            Ok(next) => if next == NO_BLOCK || remaining == 1 {
                Err(Error::InvalidState)
            } else {
                Ok(Some(next))
            },
        }
    }
}

/// The one entry that names a term among the outcomes of a page. Every entry
/// belongs to the term's bucket; a second entry of the term is damage.
pub open spec fn entry_named(
    outcomes: Seq<Result<TermModel>>,
    text: Seq<u8>,
    met: bool,
) -> Result<Option<TermRef>>
    decreases outcomes.len(),
{
    if outcomes.len() == 0 {
        Ok(None)
    } else {
        match outcomes[0] {
            Err(error) => Err(error),
            Ok(entry) => if term_bucket(entry.term) != term_bucket(text) {
                Err(Error::InvalidState)
            } else if entry.term == text {
                if met {
                    Err(Error::InvalidState)
                } else {
                    match entry_named(outcomes.drop_first(), text, true) {
                        Err(error) => Err(error),
                        Ok(_) => Ok(Some(entry.reference)),
                    }
                }
            } else {
                entry_named(outcomes.drop_first(), text, met)
            },
        }
    }
}

/// Host I/O contract; implementations do not retain page borrows.
///
/// The model is the relation as this handle sees it. Writers, vacuum and
/// recovery inspection hold one host writer interlock across the complete
/// operation; readers hold a shared structural barrier from before their first
/// page read through their last candidate. `commit` atomically persists at most
/// `MAX_WAL_PAGES` distinct page images before returning. `extend` reserves a
/// never-used block; a crash may leave that block all zero. Errors abort the
/// whole host operation.
pub trait PageStore {
    spec fn host(&self) -> Host;

    fn layout(&self) -> (layout: HeapLayout)
        ensures
            layout == self.host().model.layout,
    ;

    fn frontier_anchors(&self) -> (enabled: bool)
        ensures
            enabled == self.host().anchored,
    ;

    fn owner_frontier(&self) -> (enabled: bool)
        ensures
            enabled == self.host().owner_ordered,
    ;

    fn blocks(&mut self) -> (result: Result<u32>)
        ensures
            final(self).host() == old(self).host(),
            result matches Ok(count) ==> count == old(self).host().model.pages.len(),
            old(self).host().reliable ==> result is Ok,
    ;

    fn read(&mut self, block: u32) -> (result: Result<Page>)
        ensures
            final(self).host() == old(self).host(),
            result matches Ok(page) ==> old(self).host().model.has(block) && page@ == old(self).host().model.pages[block as int],
            old(self).host().reliable && old(self).host().model.has(block) ==> result is Ok,
    ;

    /// A reliable host refuses to grow past the last usable block.
    fn extend(&mut self) -> (result: Result<u32>)
        ensures
            same_host(old(self).host(), final(self).host()),
            match result {
                Ok(block) => old(self).host().model.pages.len() < NO_BLOCK && final(self).host().model == old(self).host().model.extended() && block == old(self).host().model.pages.len(),
                Err(_) => final(self).host().model == old(self).host().model || final(self).host().model == old(self).host().model.extended(),
            },
            old(self).host().reliable ==> if old(self).host().model.pages.len() < NO_BLOCK {
                result is Ok
            } else {
                result == Err::<u32, Error>(Error::InvalidState) && final(self).host().model == old(self).host().model
            },
    ;

    fn commit(&mut self, pages: &[&Page]) -> (result: Result<()>)
        requires
            pages@.len() <= MAX_WAL_PAGES,
            forall|i: int|
                #![trigger pages@[i]]
                0 <= i < pages@.len() ==> old(self).host().model.has(pages@[i]@.block),
            forall|i: int, j: int|
                #![trigger pages@[i], pages@[j]]
                0 <= i < j < pages@.len() ==> pages@[i]@.block != pages@[j]@.block,
        ensures
            same_host(old(self).host(), final(self).host()),
            match result {
                Ok(_) => final(self).host().model == committed(old(self).host().model, pages@),
                Err(_) => final(self).host().model == old(self).host().model || final(self).host().model == committed(old(self).host().model, pages@),
            },
            old(self).host().reliable ==> result is Ok,
    ;

    fn interrupt(&mut self) -> (result: Result<()>)
        ensures
            final(self).host() == old(self).host(),
            old(self).host().reliable ==> result is Ok,
    ;

    fn event(&mut self, stage: Stage) -> (result: Result<()>)
        ensures
            final(self).host() == old(self).host(),
            old(self).host().reliable ==> result is Ok,
    ;
}

/// The relation after the pages replaced their blocks, the first one first.
pub open spec fn committed(model: StoreModel, pages: Seq<&Page>) -> StoreModel
    decreases pages.len(),
{
    if pages.len() == 0 {
        model
    } else {
        committed(model, pages.drop_last()).put(pages.last()@)
    }
}

/// What a host handle stands for.
#[verifier::ext_equal]
pub struct Host {
    /// The relation as the handle sees it.
    pub model: StoreModel,
    /// Whether no host call fails.
    pub reliable: bool,
    /// Whether frontier anchors are kept.
    pub anchored: bool,
    /// Whether owner frontiers are scanned.
    pub owner_ordered: bool,
}

/// The same host with the same abilities, whatever became of its pages.
pub open spec fn same_host(before: Host, after: Host) -> bool {
    after == (Host { model: StoreModel { pages: after.model.pages, ..before.model }, ..before })
}

/// Reading answers as expected, or the host failed; nothing changed.
pub open spec fn answers<T>(before: Host, after: Host, result: Result<T>, expected: Result<T>) -> bool {
    &&& after == before
    &&& result == expected || (!before.reliable && result is Err)
}

/// A change of the relation: the outcome and the relation it leaves.
#[verifier::ext_equal]
pub struct Change<T> {
    pub model: StoreModel,
    pub value: Result<T>,
}

/// Writing did what the change says, or the host failed.
pub open spec fn performs<T>(before: Host, after: Host, result: Result<T>, change: Change<T>) -> bool {
    &&& same_host(before, after)
    &&& (result == change.value && after.model == change.model) || (!before.reliable && result is Err)
}

/// Writing did what the change says, or the host or a callback failed.
pub open spec fn performs_with<T>(
    before: Host,
    after: Host,
    result: Result<T>,
    change: Change<T>,
    certain: bool,
) -> bool {
    &&& same_host(before, after)
    &&& (result == change.value && after.model == change.model) || (!(before.reliable && certain)
        && result is Err)
}

/// The image of a page read, or the failure.
pub open spec fn image_of(result: Result<Page>) -> Result<Image> {
    match result {
        Ok(page) => Ok(page@),
        Err(error) => Err(error),
    }
}

pub(crate) fn load_any<S: PageStore>(store: &mut S, block: u32) -> (result: Result<Page>)
    ensures
        answers(old(store).host(), final(store).host(), image_of(result), old(store).host().model.load_any(block)),
{
    store.interrupt()?;
    let count: u32 = store.blocks()?;
    if block >= count {
        return Err(Error::InvalidState);
    }
    let page: Page = store.read(block)?;
    if page.block() != block {
        return Err(Error::InvalidState);
    }
    page.validate(store.layout())?;
    Ok(page)
}

pub(crate) fn load<S: PageStore>(store: &mut S, block: u32, kind: PageKind) -> (result: Result<
    Page,
>)
    ensures
        answers(old(store).host(), final(store).host(), image_of(result), old(store).host().model.load(block, kind)),
{
    let page: Page = load_any(store, block)?;
    if page.kind() != kind {
        return Err(Error::InvalidState);
    }
    Ok(page)
}

pub(crate) fn load_posting<S: PageStore>(store: &mut S, block: u32, term: TermRef) -> (result:
    Result<Page>)
    ensures
        answers(
            old(store).host(),
            final(store).host(),
            image_of(result),
            old(store).host().model.load_posting(block, term),
        ),
{
    let page: Page = load_any(store, block)?;
    if page.posting_term()? != term {
        return Err(Error::InvalidState);
    }
    Ok(page)
}

/// Reserving a block: the next one, while blocks can still be numbered.
pub open spec fn allocated(model: StoreModel) -> Change<u32> {
    if model.pages.len() < NO_BLOCK {
        Change { model: model.extended(), value: Ok(model.pages.len() as u32) }
    } else {
        Change { model, value: Err(Error::InvalidState) }
    }
}

pub(crate) fn allocate<S: PageStore>(store: &mut S) -> (result: Result<u32>)
    ensures
        performs(old(store).host(), final(store).host(), result, allocated(old(store).host().model)),
        final(store).host().model == old(store).host().model || final(store).host().model == old(store).host().model.extended(),
{
    store.interrupt()?;
    let expected: u32 = store.blocks()?;
    let block: u32 = store.extend()?;
    if block != expected || block == NO_BLOCK {
        return Err(Error::InvalidState);
    }
    store.event(Stage::Allocation)?;
    Ok(block)
}

pub(crate) fn following(page: &Page, tail: u32) -> (result: Result<Option<u32>>)
    ensures
        result == following_of(page@, tail),
{
    if page.block() == tail {
        return Ok(None);
    }
    let next: u32 = page.next()?;
    if next == NO_BLOCK || next > tail || next <= page.block() {
        return Err(Error::InvalidState);
    }
    Ok(Some(next))
}

/// Posting blocks can be recycled; a captured relation size bounds every traversal.
pub(crate) fn posting_next(page: &Page, tail: u32, remaining: &mut u32) -> (result: Result<
    Option<u32>,
>)
    ensures
        result == posting_next_of(page@, tail, *old(remaining)),
        *old(remaining) > 0 ==> *final(remaining) == *old(remaining) - 1,
        result is Ok ==> *old(remaining) > 0,
        result matches Ok(Some(_)) ==> *final(remaining) > 0,
{
    if *remaining == 0 {
        return Err(Error::InvalidState);
    }
    *remaining = *remaining - 1;
    if page.block() == tail {
        return Ok(None);
    }
    let next: u32 = page.next()?;
    if next == NO_BLOCK || *remaining == 0 {
        return Err(Error::InvalidState);
    }
    Ok(Some(next))
}

/// A reference found on a dictionary page, with the page's image.
pub open spec fn found_image(found: Option<(Page, TermRef)>) -> Option<(Image, TermRef)> {
    match found {
        Some((page, reference)) => Some((page@, reference)),
        None => None,
    }
}

/// The outcome of a dictionary search over images.
pub open spec fn found_of(result: Result<Option<(Page, TermRef)>>) -> Result<
    Option<(Image, TermRef)>,
> {
    match result {
        Ok(found) => Ok(found_image(found)),
        Err(error) => Err(error),
    }
}

/// Looks for a term among the entries of a dictionary page.
#[verifier::loop_isolation(false)]
fn find_entry(page: &Page, text: &str, met: bool) -> (result: Result<Option<TermRef>>)
    ensures
        result == match page@.terms() {
            Err(error) => Err(error),
            Ok(outcomes) => entry_named(outcomes, text_bytes(text), met),
        },
{
    let bucket: usize = bucket_for(text);
    let mut entries: Terms<'_> = page.terms()?;
    let ghost outcomes = entries@;
    let mut reference: Option<TermRef> = None;
    let bytes: &[u8] = text.as_bytes();
    loop
        invariant
            match entry_named(entries@, text_bytes(text), met || reference is Some) {
                Err(error) => entry_named(outcomes, text_bytes(text), met) == Err::<
                    Option<TermRef>,
                    Error,
                >(error),
                Ok(rest) => entry_named(outcomes, text_bytes(text), met) == (match reference {
                    Some(value) => Ok(Some(value)),
                    None => Ok::<Option<TermRef>, Error>(rest),
                }),
            },
        decreases entries@.len(),
    {
        let entry: Term<'_> = match entries.next() {
            None => {
                return Ok(reference);
            },
            Some(entry) => entry?,
        };
        if bucket_for(entry.term) != bucket {
            return Err(Error::InvalidState);
        }
        if same_bytes(entry.term.as_bytes(), bytes) {
            if reference.is_some() || met {
                return Err(Error::InvalidState);
            }
            reference = Some(entry.reference);
        }
    }
}

/// Scans a captured dictionary chain; hashes route but never establish equality.
#[verifier::loop_isolation(false)]
pub(crate) fn find_term<S: PageStore>(store: &mut S, meta: &Page, text: &str) -> (result: Result<
    Option<(Page, TermRef)>,
>)
    ensures
        answers(
            old(store).host(),
            final(store).host(),
            found_of(result),
            old(store).host().model.find_term(meta@, text_bytes(text)),
        ),
{
    let bucket: usize = bucket_for(text);
    let (head, tail): (u32, u32) = meta.bucket(bucket)?;
    if head == NO_BLOCK {
        return Ok(None);
    }
    let mut block: u32 = head;
    let mut found: Option<(Page, TermRef)> = None;
    let ghost model = store.host().model;
    let ghost total = model.find_term(meta@, text_bytes(text));
    loop
        invariant
            store.host() == old(store).host(),
            total == model.find_from(text_bytes(text), block, tail, found_image(found)),
        decreases tail - block,
    {
        let page: Page = load(store, block, PageKind::Dictionary)?;
        let reference: Option<TermRef> = find_entry(&page, text, found.is_some())?;
        let next: Option<u32> = following(&page, tail)?;
        if let Some(reference) = reference {
            found = Some((page, reference));
        }
        match next {
            Some(next) => {
                block = next;
            },
            None => {
                return Ok(found);
            },
        }
    }
}

pub(crate) fn commit_one<S: PageStore>(store: &mut S, page: &Page) -> (result: Result<()>)
    requires
        old(store).host().model.has(page@.block),
    ensures
        performs(
            old(store).host(),
            final(store).host(),
            result,
            Change { model: old(store).host().model.put(page@), value: Ok(()) },
        ),
        final(store).host().model == old(store).host().model || final(store).host().model == old(store).host().model.put(page@),
{
    let pages: [&Page; 1] = [page];
    proof {
        reveal_with_fuel(committed, 3);
        assert(pages@.drop_last() =~= Seq::<&Page>::empty());
    }
    store.commit(&pages)?;
    Ok(())
}

pub(crate) fn commit_two<S: PageStore>(store: &mut S, first: &Page, second: &Page) -> (result:
    Result<()>)
    requires
        old(store).host().model.has(first@.block),
        old(store).host().model.has(second@.block),
        first@.block != second@.block,
    ensures
        performs(
            old(store).host(),
            final(store).host(),
            result,
            Change { model: old(store).host().model.put(first@).put(second@), value: Ok(()) },
        ),
        final(store).host().model == old(store).host().model || final(store).host().model == old(store).host().model.put(first@).put(second@),
{
    let pages: [&Page; 2] = [first, second];
    proof {
        reveal_with_fuel(committed, 4);
        assert(pages@.drop_last() =~= seq![first]);
        assert(pages@.drop_last().drop_last() =~= Seq::<&Page>::empty());
    }
    store.commit(&pages)?;
    Ok(())
}

pub(crate) fn commit_three<S: PageStore>(
    store: &mut S,
    first: &Page,
    second: &Page,
    third: &Page,
) -> (result: Result<()>)
    requires
        old(store).host().model.has(first@.block),
        old(store).host().model.has(second@.block),
        old(store).host().model.has(third@.block),
        first@.block != second@.block,
        first@.block != third@.block,
        second@.block != third@.block,
    ensures
        performs(
            old(store).host(),
            final(store).host(),
            result,
            Change {
                model: old(store).host().model.put(first@).put(second@).put(third@),
                value: Ok(()),
            },
        ),
        final(store).host().model == old(store).host().model || final(store).host().model == old(store).host().model.put(first@).put(second@).put(third@),
{
    let pages: [&Page; 3] = [first, second, third];
    proof {
        reveal_with_fuel(committed, 5);
        assert(pages@.drop_last() =~= seq![first, second]);
        assert(pages@.drop_last().drop_last() =~= seq![first]);
        assert(pages@.drop_last().drop_last().drop_last() =~= Seq::<&Page>::empty());
    }
    store.commit(&pages)?;
    Ok(())
}

} // verus!
