//! Streaming replacement of posting chains under a host reader/writer barrier.
//! Dictionary and boundary swaps publish output; journal pages are never
//! searchable. Canonical owners retain all liveness and incarnation authority.

use crate::error::{Error, Result};
use crate::identity::{group_identity, RootTid};
use crate::mutable::count::behind;
use crate::mutable::grouped::anchors::{frontier_withdrawn, invalidate};
use crate::mutable::page::model::{
    free_image, posting_outcomes, postings_image, term_bucket, Image, TermModel,
};
use crate::mutable::page::postings::SealedModel;
use crate::mutable::page::{
    bucket_for, OwnerRef, Page, PageKind, Postings, RewriteJournal, RewritePhase, SealedBuilder,
    Term, TermRef, Terms, BUCKETS, NO_BLOCK,
};
use crate::mutable::reader::{cached, resolve};
use crate::mutable::steps::block_taken;
use crate::mutable::store::{
    answers, commit_three, commit_two, following, following_of, load, load_any, load_posting,
    performs, posting_next, posting_next_of, same_host, Change, PageStore, Stage, StoreModel,
};
use crate::mutable::writer::{has_meta, take_block};
use vstd::prelude::*;

verus! {

broadcast use group_identity;

/// Selects the reference rewrite or reader-quiescent sealed-prefix retention.
#[derive(Clone, Copy, Debug, Eq, PartialEq, Structural)]
pub enum CompactMode {
    Copy,
    RetainSealedPrefix,
    DirectTid,
}

impl Default for CompactMode {
    fn default() -> (mode: Self)
        ensures
            mode == CompactMode::Copy,
    {
        CompactMode::Copy
    }
}

#[derive(Clone, Copy, Debug, Eq, PartialEq, Structural)]
pub struct CompactStats {
    pub rewritten_terms: u64,
    pub removed_postings: u64,
    pub written_pages: u32,
    pub reused_pages: u32,
    pub reclaimed_pages: u32,
    /// Existing sealed pages kept reachable, not allocations from the free list.
    pub retained_pages: u32,
}

impl Default for CompactStats {
    fn default() -> (stats: Self)
        ensures
            stats == no_stats(),
    {
        CompactStats {
            rewritten_terms: 0,
            removed_postings: 0,
            written_pages: 0,
            reused_pages: 0,
            reclaimed_pages: 0,
            retained_pages: 0,
        }
    }
}

pub open spec fn no_stats() -> CompactStats {
    CompactStats {
        rewritten_terms: 0,
        removed_postings: 0,
        written_pages: 0,
        reused_pages: 0,
        reclaimed_pages: 0,
        retained_pages: 0,
    }
}

/// The live sealed pages in front of a chain that can stay.
#[derive(Clone, Copy, Debug, Eq, PartialEq, Structural)]
pub struct RetainedPrefix {
    pub boundary: u32,
    pub rewrite_head: u32,
    pub pages: u32,
}

/// What an inspection found on a chain, as far as it was followed.
#[derive(Clone, Copy, Debug, Eq, PartialEq, Structural)]
pub struct ChainStats {
    pub mutable_pages: u32,
    pub indirect_pages: u32,
    pub dead: u64,
    pub prefix: Option<RetainedPrefix>,
    /// Whether all pages so far are live and sealed.
    pub prefix_open: bool,
    pub prefix_tail: Option<u32>,
    pub prefix_pages: u32,
}

pub open spec fn no_chain(liveness: bool) -> ChainStats {
    ChainStats {
        mutable_pages: 0,
        indirect_pages: 0,
        dead: 0,
        prefix: None,
        prefix_open: liveness,
        prefix_tail: None,
        prefix_pages: 0,
    }
}

impl ChainStats {
    /// The findings after a page with `dead` references of owners that are gone.
    pub open spec fn with_page(self, block: u32, kind: PageKind, dead: int) -> ChainStats {
        let counted = ChainStats {
            mutable_pages: (self.mutable_pages + if kind == PageKind::Postings {
                1int
            } else {
                0int
            }) as u32,
            indirect_pages: (self.indirect_pages + if kind != PageKind::DirectPostings {
                1int
            } else {
                0int
            }) as u32,
            dead: (self.dead + dead) as u64,
            ..self
        };
        if self.prefix_open && kind == PageKind::SealedPostings && dead == 0 {
            ChainStats {
                prefix: match self.prefix_tail {
                    Some(boundary) => Some(
                        RetainedPrefix { boundary, rewrite_head: block, pages: self.prefix_pages },
                    ),
                    None => None,
                },
                prefix_tail: Some(block),
                prefix_pages: (self.prefix_pages + 1) as u32,
                ..counted
            }
        } else {
            ChainStats { prefix_open: false, ..counted }
        }
    }
}

/// The last reference of a page and how many of its references lead to owners
/// that are gone; references ascend from the previous one.
pub open spec fn references_inspected(
    model: StoreModel,
    outcomes: Seq<Result<OwnerRef>>,
    previous: Option<OwnerRef>,
    liveness: bool,
) -> Result<(Option<OwnerRef>, int)>
    decreases outcomes.len(),
{
    if outcomes.len() == 0 {
        Ok((previous, 0))
    } else {
        match outcomes[0] {
            Err(error) => Err(error),
            Ok(owner) => if previous matches Some(previous) && !behind(owner, previous) {
                Err(Error::InvalidState)
            } else {
                let gone = if liveness {
                    match model.resolved(owner) {
                        Err(error) => Err(error),
                        Ok(Some(_)) => Ok(0int),
                        Ok(None) => Ok(1int),
                    }
                } else {
                    Ok(0int)
                };
                match gone {
                    Err(error) => Err(error),
                    Ok(gone) => match references_inspected(
                        model,
                        outcomes.drop_first(),
                        Some(owner),
                        liveness,
                    ) {
                        Err(error) => Err(error),
                        Ok((last, dead)) => Ok((last, gone + dead)),
                    },
                }
            },
        }
    }
}

/// What an inspection finds on the chain from `block` to its terminal `tail`.
pub open spec fn chain_inspected(
    model: StoreModel,
    term: TermRef,
    block: u32,
    tail: u32,
    remaining: u32,
    previous: Option<OwnerRef>,
    liveness: bool,
    stats: ChainStats,
) -> Result<ChainStats>
    decreases remaining,
{
    match model.load_posting(block, term) {
        Err(error) => Err(error),
        Ok(image) => match image.posting_stream() {
            Err(error) => Err(error),
            Ok(stream) => match references_inspected(
                model,
                stream.outcomes(),
                previous,
                liveness,
            ) {
                Err(error) => Err(error),
                Ok((last, dead)) => {
                    let stats = stats.with_page(block, image.kind, dead);
                    match posting_next_of(image, tail, remaining) {
                        Err(error) => Err(error),
                        Ok(None) => match image.next() {
                            Err(error) => Err(error),
                            Ok(next) => if next != NO_BLOCK {
                                Err(Error::InvalidState)
                            } else {
                                Ok(stats)
                            },
                        },
                        Ok(Some(next)) => if remaining > 0 {
                            chain_inspected(
                                model,
                                term,
                                next,
                                tail,
                                (remaining - 1) as u32,
                                last,
                                liveness,
                                stats,
                            )
                        } else {
                            Ok(stats)
                        },
                    }
                },
            },
        },
    }
}

/// What an inspection finds on a chain, which must end at its tail.
pub open spec fn inspected(
    model: StoreModel,
    term: TermRef,
    head: u32,
    tail: u32,
    previous: Option<OwnerRef>,
    liveness: bool,
) -> Result<ChainStats> {
    if head == NO_BLOCK {
        if tail != NO_BLOCK {
            Err(Error::InvalidState)
        } else {
            Ok(no_chain(liveness))
        }
    } else {
        chain_inspected(
            model,
            term,
            head,
            tail,
            model.pages.len() as u32,
            previous,
            liveness,
            no_chain(liveness),
        )
    }
}

/// A stream of references has at most one outcome more than it announces.
pub proof fn outcomes_bounded(
    bytes: Seq<u8>,
    at: int,
    compressed: bool,
    remaining: nat,
    previous: Option<OwnerRef>,
)
    ensures
        posting_outcomes(bytes, at, compressed, remaining, previous).len() <= remaining + 1,
    decreases remaining,
{
    if remaining > 0 {
        if let Ok((owner, len)) = crate::mutable::page::model::posting_step(
            bytes,
            at,
            compressed,
            previous,
        ) {
            outcomes_bounded(bytes, at + len, compressed, (remaining - 1) as nat, Some(owner));
        }
    }
}

/// Inspects the references of a posting page; counts those of owners that are
/// gone and leaves the last one behind.
#[verifier::loop_isolation(false)]
fn inspect_page<S: PageStore>(
    store: &mut S,
    cache: &mut Option<Page>,
    page: &Page,
    previous: &mut Option<OwnerRef>,
    liveness: bool,
) -> (result: Result<u64>)
    requires
        cached(*old(cache), old(store).host().model),
    ensures
        cached(*final(cache), old(store).host().model),
        answers(
            old(store).host(),
            final(store).host(),
            match result {
                Ok(dead) => Ok((*final(previous), dead as int)),
                Err(error) => Err(error),
            },
            match page@.posting_stream() {
                Err(error) => Err(error),
                Ok(stream) => references_inspected(
                    old(store).host().model,
                    stream.outcomes(),
                    *old(previous),
                    liveness,
                ),
            },
        ),
        result matches Ok(dead) ==> dead <= 0x1_0000,
{
    let ghost model = store.host().model;
    let mut references: Postings<'_> = page.posting_refs()?;
    let ghost outcomes = references@;
    let ghost total = references_inspected(model, outcomes, *previous, liveness);
    proof {
        let stream = page@.posting_stream()->Ok_0;
        outcomes_bounded(stream.bytes, 0, stream.compressed, stream.count as nat, None);
    }
    let mut dead: u64 = 0;
    loop
        invariant
            store.host() == old(store).host(),
            cached(*cache, model),
            dead + references@.len() <= 0x1_0000,
            match references_inspected(model, references@, *previous, liveness) {
                Err(error) => total == Err::<(Option<OwnerRef>, int), Error>(error),
                Ok((last, more)) => total == Ok::<(Option<OwnerRef>, int), Error>(
                    (last, dead + more),
                ),
            },
        decreases references@.len(),
    {
        let owner: OwnerRef = match references.next() {
            None => {
                return Ok(dead);
            },
            Some(owner) => owner?,
        };
        if let Some(last) = *previous {
            if owner.page < last.page || (owner.page == last.page && owner.slot <= last.slot)
                || owner.incarnation.get() <= last.incarnation.get() {
                return Err(Error::InvalidState);
            }
        }
        *previous = Some(owner);
        if liveness {
            if resolve(store, cache, owner)?.is_none() {
                dead += 1;
            }
        }
    }
}

/// Validates complete, terminal chains before publishing or reclaiming any page.
#[verifier::loop_isolation(false)]
fn inspect<S: PageStore>(
    store: &mut S,
    term: TermRef,
    head: u32,
    tail: u32,
    first: Option<OwnerRef>,
    liveness: bool,
) -> (result: Result<ChainStats>)
    ensures
        answers(
            old(store).host(),
            final(store).host(),
            result,
            inspected(old(store).host().model, term, head, tail, first, liveness),
        ),
{
    let ghost model = store.host().model;
    let ghost total = inspected(model, term, head, tail, first, liveness);
    let mut stats: ChainStats = ChainStats {
        mutable_pages: 0,
        indirect_pages: 0,
        dead: 0,
        prefix: None,
        prefix_open: liveness,
        prefix_tail: None,
        prefix_pages: 0,
    };
    if head == NO_BLOCK {
        if tail != NO_BLOCK {
            return Err(Error::InvalidState);
        }
        return Ok(stats);
    }
    let blocks: u32 = store.blocks()?;
    let mut remaining: u32 = blocks;
    let mut block: u32 = head;
    let mut previous: Option<OwnerRef> = first;
    let mut cache: Option<Page> = None;
    loop
        invariant
            store.host() == old(store).host(),
            cached(cache, model),
            remaining <= blocks,
            stats.mutable_pages <= blocks - remaining,
            stats.indirect_pages <= blocks - remaining,
            stats.prefix_pages <= blocks - remaining,
            stats.dead <= (blocks - remaining) * 0x1_0000,
            total == chain_inspected(
                model,
                term,
                block,
                tail,
                remaining,
                previous,
                liveness,
                stats,
            ),
        decreases remaining,
    {
        let page: Page = load_posting(store, block, term)?;
        let ghost before = stats;
        let ghost start = previous;
        let kind: PageKind = page.kind();
        let dead: u64 = inspect_page(store, &mut cache, &page, &mut previous, liveness)?;
        if remaining == 0 {
            return Err(Error::InvalidState);
        }
        if kind == PageKind::Postings {
            stats.mutable_pages += 1;
        }
        if kind != PageKind::DirectPostings {
            stats.indirect_pages += 1;
        }
        stats.dead += dead;
        if stats.prefix_open && kind == PageKind::SealedPostings && dead == 0 {
            // leave the last live sealed page in the suffix to coalesce its tail.
            stats.prefix = match stats.prefix_tail {
                Some(boundary) => Some(
                    RetainedPrefix { boundary, rewrite_head: block, pages: stats.prefix_pages },
                ),
                None => None,
            };
            stats.prefix_tail = Some(block);
            stats.prefix_pages += 1;
        } else {
            stats.prefix_open = false;
        }
        assert(stats == before.with_page(block, kind, dead as int));
        match posting_next(&page, tail, &mut remaining)? {
            Some(next) => {
                block = next;
            },
            None => {
                if page.next()? != NO_BLOCK {
                    return Err(Error::InvalidState);
                }
                return Ok(stats);
            },
        }
    }
}

/// The output page under construction, or none before the first live reference.
pub struct Output {
    pub builder: Option<SealedModel>,
    pub written: u32,
    pub reused: u32,
}

/// A sealed page without references.
pub open spec fn empty_sealed(block: u32, term: TermRef, direct: bool) -> Result<SealedModel> {
    if direct {
        match postings_image(block, term, PageKind::DirectPostings) {
            Err(error) => Err(error),
            Ok(image) => Ok(
                SealedModel {
                    image: Image { bytes: image.bytes + Seq::new(32, |i: int| 0u8), ..image },
                    previous: None,
                    count: 0,
                },
            ),
        }
    } else {
        match postings_image(block, term, PageKind::SealedPostings) {
            Err(error) => Err(error),
            Ok(image) => Ok(SealedModel { image, previous: None, count: 0 }),
        }
    }
}

/// The page under construction with one more reference; nothing when it is full.
pub open spec fn sealed_pushed(builder: SealedModel, owner: OwnerRef, root: RootTid, direct: bool) -> Result<
    Option<SealedModel>,
> {
    if direct {
        builder.pushed_direct(owner, root)
    } else {
        builder.pushed(owner)
    }
}

/// The finished page.
pub open spec fn sealed_finished(builder: SealedModel) -> Result<Image> {
    if builder.count == 0 {
        Err(Error::InvalidState)
    } else {
        Ok(builder.image)
    }
}

/// Appending a finished page to the journal: the metadata then.
pub open spec fn output_persisted(model: StoreModel, meta: Image, page: Image) -> Change<Image> {
    match meta.rewrite_journal() {
        Err(error) => Change::refused(model, error),
        Ok(None) => match meta.with_journal(
            Some(
                RewriteJournal {
                    head: page.block,
                    tail: page.block,
                    phase: RewritePhase::Building,
                },
            ),
        ) {
            Err(error) => Change::refused(model, error),
            Ok(meta) => Change::made(model.put(meta).put(page), meta),
        },
        Ok(Some(journal)) => if journal.phase != RewritePhase::Building {
            Change::refused(model, Error::InvalidState)
        } else {
            match page.posting_term() {
                Err(error) => Change::refused(model, error),
                Ok(term) => match model.load_posting(journal.tail, term) {
                    Err(error) => Change::refused(model, error),
                    Ok(last) => match last.next() {
                        Err(error) => Change::refused(model, error),
                        Ok(next) => if next != NO_BLOCK || (last.kind != PageKind::SealedPostings
                            && last.kind != PageKind::DirectPostings) {
                            Change::refused(model, Error::InvalidState)
                        } else {
                            match last.with_next(page.block) {
                                Err(error) => Change::refused(model, error),
                                Ok(last) => match meta.with_journal(
                                    Some(RewriteJournal { tail: page.block, ..journal }),
                                ) {
                                    Err(error) => Change::refused(model, error),
                                    Ok(meta) => Change::made(
                                        model.put(meta).put(last).put(page),
                                        meta,
                                    ),
                                },
                            }
                        },
                    },
                },
            }
        },
    }
}

/// Whether a block holds no posting page yet.
pub open spec fn unwritten(model: StoreModel, block: u32) -> bool {
    model.has(block) && (model.pages[block as int].kind == PageKind::Zero
        || model.pages[block as int].kind == PageKind::Free)
}

fn persist_output<S: PageStore>(store: &mut S, meta: &mut Page, page: Page) -> (result: Result<()>)
    requires
        has_meta(old(store).host().model, old(meta)@),
        unwritten(old(store).host().model, page@.block),
        page@.block != 0,
    ensures
        result is Ok ==> has_meta(final(store).host().model, final(meta)@),
        performs(
            old(store).host(),
            final(store).host(),
            match result {
                Ok(_) => Ok(final(meta)@),
                Err(error) => Err(error),
            },
            output_persisted(old(store).host().model, old(meta)@, page@),
        ),
{
    match meta.rewrite_journal()? {
        None => {
            meta.set_rewrite_journal(
                Some(
                    RewriteJournal {
                        head: page.block(),
                        tail: page.block(),
                        phase: RewritePhase::Building,
                    },
                ),
            )?;
            commit_two(store, meta, &page)?;
        },
        Some(journal) => {
            if journal.phase != RewritePhase::Building {
                return Err(Error::InvalidState);
            }
            let term: TermRef = page.posting_term()?;
            let mut previous: Page = load_posting(store, journal.tail, term)?;
            if previous.next()? != NO_BLOCK || (previous.kind() != PageKind::SealedPostings
                && previous.kind() != PageKind::DirectPostings) {
                return Err(Error::InvalidState);
            }
            previous.set_next(page.block())?;
            meta.set_rewrite_journal(Some(RewriteJournal { tail: page.block(), ..journal }))?;
            commit_three(store, meta, &previous, &page)?;
        },
    }
    store.event(Stage::SegmentStored)?;
    Ok(())
}

/// Writing a live reference: the output and the metadata then.
pub open spec fn reference_written(
    model: StoreModel,
    meta: Image,
    term: TermRef,
    output: Output,
    owner: OwnerRef,
    root: RootTid,
    direct: bool,
) -> Change<(Output, Image)> {
    match output.builder {
        None => output_started(model, meta, term, output, owner, root, direct),
        Some(builder) => match sealed_pushed(builder, owner, root, direct) {
            Err(error) => Change::refused(model, error),
            Ok(Some(builder)) => Change::made(
                model,
                (Output { builder: Some(builder), ..output }, meta),
            ),
            Ok(None) => match sealed_finished(builder) {
                Err(error) => Change::refused(model, error),
                Ok(page) => {
                    let stored = output_persisted(model, meta, page);
                    match stored.value {
                        Err(error) => Change::refused(stored.model, error),
                        Ok(meta) => if output.written == u32::MAX {
                            Change::refused(stored.model, Error::Limit("compaction pages"))
                        } else {
                            output_started(
                                stored.model,
                                meta,
                                term,
                                Output {
                                    builder: None,
                                    written: (output.written + 1) as u32,
                                    ..output
                                },
                                owner,
                                root,
                                direct,
                            )
                        },
                    }
                },
            },
        },
    }
}

/// Starting an output page with a reference.
pub open spec fn output_started(
    model: StoreModel,
    meta: Image,
    term: TermRef,
    output: Output,
    owner: OwnerRef,
    root: RootTid,
    direct: bool,
) -> Change<(Output, Image)> {
    match meta.free_head() {
        Err(error) => Change::refused(model, error),
        Ok(free) => {
            let reused = free != NO_BLOCK;
            if reused && output.reused == u32::MAX {
                Change::refused(model, Error::Limit("compaction pages"))
            } else {
                let taken = block_taken(model, meta);
                match taken.value {
                    Err(error) => Change::refused(taken.model, error),
                    Ok((block, meta)) => match empty_sealed(block, term, direct) {
                        Err(error) => Change::refused(taken.model, error),
                        Ok(builder) => match sealed_pushed(builder, owner, root, direct) {
                            Err(error) => Change::refused(taken.model, error),
                            Ok(None) => Change::refused(taken.model, Error::InvalidState),
                            Ok(Some(builder)) => Change::made(
                                taken.model,
                                (
                                    Output {
                                        builder: Some(builder),
                                        written: output.written,
                                        reused: if reused {
                                            (output.reused + 1) as u32
                                        } else {
                                            output.reused
                                        },
                                    },
                                    meta,
                                ),
                            ),
                        },
                    },
                }
            }
        },
    }
}

/// The output of a rewrite as it is built.
struct Build {
    builder: Option<SealedBuilder>,
    written: u32,
    reused: u32,
}

impl Build {
    spec fn model(self) -> Output {
        Output {
            builder: match self.builder {
                Some(builder) => Some(builder@),
                None => None,
            },
            written: self.written,
            reused: self.reused,
        }
    }

    spec fn wf(self, model: StoreModel) -> bool {
        self.builder matches Some(builder) ==> builder.wf() && builder@.image.block != 0
            && unwritten(model, builder@.image.block)
    }
}

fn push_reference(builder: &mut SealedBuilder, owner: OwnerRef, root: RootTid, direct: bool) -> (result:
    Result<bool>)
    requires
        old(builder).wf(),
    ensures
        final(builder).wf(),
        final(builder)@.image.block == old(builder)@.image.block,
        match sealed_pushed(old(builder)@, owner, root, direct) {
            Ok(Some(model)) => result == Ok::<bool, Error>(true) && final(builder)@ == model,
            Ok(None) => result == Ok::<bool, Error>(false) && final(builder)@ == old(builder)@,
            Err(error) => result == Err::<bool, Error>(error) && final(builder)@ == old(builder)@,
        },
{
    if direct {
        builder.push_direct(owner, root)
    } else {
        builder.push(owner)
    }
}

/// Starts an output page with a reference.
fn start_output<S: PageStore>(
    store: &mut S,
    meta: &mut Page,
    term: TermRef,
    output: &mut Build,
    owner: OwnerRef,
    root: RootTid,
    direct: bool,
) -> (result: Result<()>)
    requires
        has_meta(old(store).host().model, old(meta)@),
        old(output).builder is None,
    ensures
        result is Ok ==> has_meta(final(store).host().model, final(meta)@) && final(output).wf(
            final(store).host().model,
        ),
        performs(
            old(store).host(),
            final(store).host(),
            match result {
                Ok(_) => Ok((final(output).model(), final(meta)@)),
                Err(error) => Err(error),
            },
            output_started(
                old(store).host().model,
                old(meta)@,
                term,
                old(output).model(),
                owner,
                root,
                direct,
            ),
        ),
{
    if meta.free_head()? != NO_BLOCK {
        match output.reused.checked_add(1) {
            Some(reused) => {
                output.reused = reused;
            },
            None => {
                return Err(Error::Limit("compaction pages"));
            },
        }
    }
    let block: u32 = take_block(store, meta)?;
    let mut builder: SealedBuilder = if direct {
        SealedBuilder::new_direct(block, term)?
    } else {
        SealedBuilder::new(block, term)?
    };
    if !push_reference(&mut builder, owner, root, direct)? {
        return Err(Error::InvalidState);
    }
    output.builder = Some(builder);
    Ok(())
}

/// Writes a live reference.
fn write_reference<S: PageStore>(
    store: &mut S,
    meta: &mut Page,
    term: TermRef,
    output: &mut Build,
    owner: OwnerRef,
    root: RootTid,
    direct: bool,
) -> (result: Result<()>)
    requires
        has_meta(old(store).host().model, old(meta)@),
        old(output).wf(old(store).host().model),
    ensures
        result is Ok ==> has_meta(final(store).host().model, final(meta)@) && final(output).wf(
            final(store).host().model,
        ),
        performs(
            old(store).host(),
            final(store).host(),
            match result {
                Ok(_) => Ok((final(output).model(), final(meta)@)),
                Err(error) => Err(error),
            },
            reference_written(
                old(store).host().model,
                old(meta)@,
                term,
                old(output).model(),
                owner,
                root,
                direct,
            ),
        ),
{
    match output.builder.take() {
        None => {},
        Some(mut builder) => {
            if push_reference(&mut builder, owner, root, direct)? {
                output.builder = Some(builder);
                return Ok(());
            }
            let full: Page = builder.finish()?;
            persist_output(store, meta, full)?;
            match output.written.checked_add(1) {
                Some(written) => {
                    output.written = written;
                },
                None => {
                    return Err(Error::Limit("compaction pages"));
                },
            }
        },
    }
    start_output(store, meta, term, output, owner, root, direct)
}

/// Writing the live references among outcomes of a page.
pub open spec fn references_written(
    model: StoreModel,
    meta: Image,
    term: TermRef,
    output: Output,
    outcomes: Seq<Result<OwnerRef>>,
    direct: bool,
) -> Change<(Output, Image)>
    decreases outcomes.len(),
{
    if outcomes.len() == 0 {
        Change::made(model, (output, meta))
    } else {
        match outcomes[0] {
            Err(error) => Change::refused(model, error),
            Ok(owner) => match model.resolved(owner) {
                Err(error) => Change::refused(model, error),
                Ok(None) => references_written(
                    model,
                    meta,
                    term,
                    output,
                    outcomes.drop_first(),
                    direct,
                ),
                Ok(Some(root)) => {
                    let step = reference_written(model, meta, term, output, owner, root, direct);
                    match step.value {
                        Err(error) => step,
                        Ok((output, meta)) => references_written(
                            step.model,
                            meta,
                            term,
                            output,
                            outcomes.drop_first(),
                            direct,
                        ),
                    }
                },
            },
        }
    }
}

/// Writing the live references of the chain from `block` to `tail`.
pub open spec fn chain_written(
    model: StoreModel,
    meta: Image,
    term: TermRef,
    output: Output,
    block: u32,
    tail: u32,
    remaining: u32,
    direct: bool,
) -> Change<(Output, Image)>
    decreases remaining,
{
    match model.load_posting(block, term) {
        Err(error) => Change::refused(model, error),
        Ok(image) => match image.posting_stream() {
            Err(error) => Change::refused(model, error),
            Ok(stream) => {
                let step = references_written(
                    model,
                    meta,
                    term,
                    output,
                    stream.outcomes(),
                    direct,
                );
                match step.value {
                    Err(error) => step,
                    Ok((output, meta)) => match posting_next_of(image, tail, remaining) {
                        Err(error) => Change::refused(step.model, error),
                        Ok(None) => Change::made(step.model, (output, meta)),
                        Ok(Some(next)) => if remaining > 0 {
                            chain_written(
                                step.model,
                                meta,
                                term,
                                output,
                                next,
                                tail,
                                (remaining - 1) as u32,
                                direct,
                            )
                        } else {
                            Change::made(step.model, (output, meta))
                        },
                    },
                }
            },
        },
    }
}

/// Finishing the output: its counts and the metadata then.
pub open spec fn output_finished(model: StoreModel, meta: Image, output: Output) -> Change<
    (u32, u32, Image),
> {
    match output.builder {
        None => Change::made(model, (output.written, output.reused, meta)),
        Some(builder) => match sealed_finished(builder) {
            Err(error) => Change::refused(model, error),
            Ok(page) => {
                let stored = output_persisted(model, meta, page);
                match stored.value {
                    Err(error) => Change::refused(stored.model, error),
                    Ok(meta) => if output.written == u32::MAX {
                        Change::refused(stored.model, Error::Limit("compaction pages"))
                    } else {
                        Change::made(
                            stored.model,
                            ((output.written + 1) as u32, output.reused, meta),
                        )
                    },
                }
            },
        },
    }
}

/// Replacing a chain, or its rest behind a retained prefix, by the journal's
/// output, which hands the replaced pages to the journal: the metadata then.
pub open spec fn replacement_published(
    model: StoreModel,
    meta: Image,
    term: TermRef,
    head: u32,
    tail: u32,
    prefix: Option<RetainedPrefix>,
) -> Change<Image> {
    let rewrite_head = match prefix {
        Some(prefix) => prefix.rewrite_head,
        None => head,
    };
    match meta.rewrite_journal() {
        Err(error) => Change::refused(model, error),
        Ok(replacement) => match model.load(term.page, PageKind::Dictionary) {
            Err(error) => Change::refused(model, error),
            Ok(dictionary) => match dictionary.term(term) {
                Err(error) => Change::refused(model, error),
                Ok(current) => if current.head != head || current.tail != tail || (
                replacement matches Some(journal) && journal.phase != RewritePhase::Building) {
                    Change::refused(model, Error::InvalidState)
                } else {
                    let (new_head, new_tail) = match replacement {
                        Some(journal) => (journal.head, journal.tail),
                        None => (NO_BLOCK, NO_BLOCK),
                    };
                    match meta.with_journal(
                        Some(
                            RewriteJournal {
                                head: rewrite_head,
                                tail,
                                phase: RewritePhase::Retiring,
                            },
                        ),
                    ) {
                        Err(error) => Change::refused(model, error),
                        Ok(meta) => match prefix {
                            None => match dictionary.with_posting_chain(term, new_head, new_tail) {
                                Err(error) => Change::refused(model, error),
                                Ok(dictionary) => Change::made(
                                    model.put(meta).put(dictionary),
                                    meta,
                                ),
                            },
                            Some(prefix) => boundary_moved(
                                model,
                                meta,
                                dictionary,
                                term,
                                head,
                                new_head,
                                new_tail,
                                prefix,
                            ),
                        },
                    }
                },
            },
        },
    }
}

/// Linking the output behind a retained prefix: the metadata then.
pub open spec fn boundary_moved(
    model: StoreModel,
    meta: Image,
    dictionary: Image,
    term: TermRef,
    head: u32,
    new_head: u32,
    new_tail: u32,
    prefix: RetainedPrefix,
) -> Change<Image> {
    match model.load_posting(prefix.boundary, term) {
        Err(error) => Change::refused(model, error),
        Ok(boundary) => match boundary.next() {
            Err(error) => Change::refused(model, error),
            Ok(next) => if boundary.kind != PageKind::SealedPostings || next
                != prefix.rewrite_head {
                Change::refused(model, Error::InvalidState)
            } else {
                match boundary.with_next(new_head) {
                    Err(error) => Change::refused(model, error),
                    Ok(boundary) => match dictionary.with_posting_chain(
                        term,
                        head,
                        if new_tail == NO_BLOCK {
                            prefix.boundary
                        } else {
                            new_tail
                        },
                    ) {
                        Err(error) => Change::refused(model, error),
                        Ok(dictionary) => Change::made(
                            model.put(meta).put(dictionary).put(boundary),
                            meta,
                        ),
                    },
                }
            },
        },
    }
}

/// Rewriting a chain: how many pages were written and reused, and the metadata then.
pub open spec fn rewritten(
    model: StoreModel,
    meta: Image,
    term: TermRef,
    head: u32,
    tail: u32,
    prefix: Option<RetainedPrefix>,
    direct: bool,
) -> Change<(u32, u32, Image)> {
    match meta.rewrite_journal() {
        Err(error) => Change::refused(model, error),
        Ok(Some(_)) => Change::refused(model, Error::InvalidState),
        Ok(None) => {
            let built = chain_written(
                model,
                meta,
                term,
                Output { builder: None, written: 0, reused: 0 },
                match prefix {
                    Some(prefix) => prefix.rewrite_head,
                    None => head,
                },
                tail,
                model.pages.len() as u32,
                direct,
            );
            match built.value {
                Err(error) => Change::refused(built.model, error),
                Ok((output, meta)) => {
                    let finished = output_finished(built.model, meta, output);
                    match finished.value {
                        Err(error) => Change::refused(finished.model, error),
                        Ok((written, reused, meta)) => {
                            let published = replacement_published(
                                finished.model,
                                meta,
                                term,
                                head,
                                tail,
                                prefix,
                            );
                            match published.value {
                                Err(error) => Change::refused(published.model, error),
                                Ok(meta) => Change::made(published.model, (written, reused, meta)),
                            }
                        },
                    }
                },
            }
        },
    }
}

/// Whether every owner page is as it was.
pub open spec fn owners_kept(before: StoreModel, after: StoreModel) -> bool {
    &&& after.layout == before.layout
    &&& after.pages.len() >= before.pages.len()
    &&& forall|i: int|
        0 <= i < before.pages.len() && before.pages[i].kind == PageKind::Owners
            ==> #[trigger] after.pages[i] == before.pages[i]
}

/// Appending output to the journal leaves owner pages alone.
proof fn persisting_keeps_owners(model: StoreModel, meta: Image, page: Image)
    requires
        has_meta(model, meta),
        model.pages[0].kind == PageKind::Meta,
        unwritten(model, page.block),
    ensures
        owners_kept(model, output_persisted(model, meta, page).model),
        output_persisted(model, meta, page).value matches Ok(after) ==> output_persisted(
            model,
            meta,
            page,
        ).model.pages[0].kind == meta.kind || page.block == 0,
{
}

/// Writing references leaves owner pages alone.
proof fn writing_keeps_owners(
    model: StoreModel,
    meta: Image,
    term: TermRef,
    output: Output,
    owner: OwnerRef,
    root: RootTid,
    direct: bool,
)
    requires
        has_meta(model, meta),
        meta.kind == PageKind::Meta,
        model.pages[0].kind == PageKind::Meta,
        output.builder matches Some(builder) ==> builder.image.block != 0 && unwritten(
            model,
            builder.image.block,
        ),
    ensures
        ({
            let step = reference_written(model, meta, term, output, owner, root, direct);
            &&& owners_kept(model, step.model)
            &&& step.value matches Ok((_, after)) ==> after.kind == PageKind::Meta && has_meta(
                step.model,
                after,
            ) && step.model.pages[0].kind == PageKind::Meta
        }),
{
    match output.builder {
        None => {},
        Some(builder) => {
            if let Ok(None) = sealed_pushed(builder, owner, root, direct) {
                if let Ok(page) = sealed_finished(builder) {
                    persisting_keeps_owners(model, meta, page);
                }
            }
        },
    }
}

/// A cached owner page stays the checked image of its block.
proof fn cache_kept(cache: Option<Page>, before: StoreModel, after: StoreModel)
    requires
        cached(cache, before),
        owners_kept(before, after),
    ensures
        cached(cache, after),
{
    if let Some(page) = cache {
        let block = page@.block as int;
        assert(after.pages[block] == before.pages[block]);
    }
}

/// Writes the live references of a posting page.
#[verifier::loop_isolation(false)]
fn write_page<S: PageStore>(
    store: &mut S,
    meta: &mut Page,
    term: TermRef,
    output: &mut Build,
    cache: &mut Option<Page>,
    page: &Page,
    direct: bool,
) -> (result: Result<()>)
    requires
        has_meta(old(store).host().model, old(meta)@),
        old(meta)@.kind == PageKind::Meta,
        old(store).host().model.pages[0].kind == PageKind::Meta,
        old(output).wf(old(store).host().model),
        cached(*old(cache), old(store).host().model),
    ensures
        result is Ok ==> {
            &&& has_meta(final(store).host().model, final(meta)@)
            &&& final(meta)@.kind == PageKind::Meta
            &&& final(store).host().model.pages[0].kind == PageKind::Meta
            &&& final(output).wf(final(store).host().model)
            &&& cached(*final(cache), final(store).host().model)
            &&& owners_kept(old(store).host().model, final(store).host().model)
        },
        performs(
            old(store).host(),
            final(store).host(),
            match result {
                Ok(_) => Ok((final(output).model(), final(meta)@)),
                Err(error) => Err(error),
            },
            match page@.posting_stream() {
                Err(error) => Change::refused(old(store).host().model, error),
                Ok(stream) => references_written(
                    old(store).host().model,
                    old(meta)@,
                    term,
                    old(output).model(),
                    stream.outcomes(),
                    direct,
                ),
            },
        ),
{
    let mut references: Postings<'_> = page.posting_refs()?;
    let ghost begun = store.host().model;
    let ghost total = references_written(
        store.host().model,
        meta@,
        term,
        output.model(),
        references@,
        direct,
    );
    loop
        invariant
            same_host(old(store).host(), store.host()),
            has_meta(store.host().model, meta@),
            meta@.kind == PageKind::Meta,
            store.host().model.pages[0].kind == PageKind::Meta,
            output.wf(store.host().model),
            cached(*cache, store.host().model),
            owners_kept(begun, store.host().model),
            total == references_written(
                store.host().model,
                meta@,
                term,
                output.model(),
                references@,
                direct,
            ),
        decreases references@.len(),
    {
        let owner: OwnerRef = match references.next() {
            None => {
                return Ok(());
            },
            Some(owner) => owner?,
        };
        if let Some(root) = resolve(store, cache, owner)? {
            let ghost before = store.host().model;
            proof {
                writing_keeps_owners(before, meta@, term, output.model(), owner, root, direct);
            }
            write_reference(store, meta, term, output, owner, root, direct)?;
            proof {
                cache_kept(*cache, before, store.host().model);
                owners_kept_joins(begun, before, store.host().model);
            }
        }
    }
}

/// Keeping owner pages twice is keeping them.
pub proof fn owners_kept_joins(first: StoreModel, second: StoreModel, third: StoreModel)
    requires
        owners_kept(first, second),
        owners_kept(second, third),
    ensures
        owners_kept(first, third),
{
    assert forall|i: int|
        0 <= i < first.pages.len() && first.pages[i].kind
            == PageKind::Owners implies #[trigger] third.pages[i] == first.pages[i] by {
        assert(second.pages[i] == first.pages[i]);
    }
}

/// Writes the live references of a chain.
#[verifier::loop_isolation(false)]
fn write_chain<S: PageStore>(
    store: &mut S,
    meta: &mut Page,
    term: TermRef,
    head: u32,
    tail: u32,
    direct: bool,
) -> (result: Result<Build>)
    requires
        has_meta(old(store).host().model, old(meta)@),
        old(meta)@.kind == PageKind::Meta,
        old(store).host().model.pages[0].kind == PageKind::Meta,
    ensures
        result matches Ok(output) ==> has_meta(final(store).host().model, final(meta)@)
            && output.wf(final(store).host().model),
        performs(
            old(store).host(),
            final(store).host(),
            match result {
                Ok(output) => Ok((output.model(), final(meta)@)),
                Err(error) => Err(error),
            },
            chain_written(
                old(store).host().model,
                old(meta)@,
                term,
                Output { builder: None, written: 0, reused: 0 },
                head,
                tail,
                old(store).host().model.pages.len() as u32,
                direct,
            ),
        ),
{
    let mut output: Build = Build { builder: None, written: 0, reused: 0 };
    let mut remaining: u32 = store.blocks()?;
    let mut block: u32 = head;
    let mut cache: Option<Page> = None;
    let ghost total = chain_written(
        store.host().model,
        meta@,
        term,
        output.model(),
        head,
        tail,
        remaining,
        direct,
    );
    loop
        invariant
            same_host(old(store).host(), store.host()),
            has_meta(store.host().model, meta@),
            meta@.kind == PageKind::Meta,
            store.host().model.pages[0].kind == PageKind::Meta,
            output.wf(store.host().model),
            cached(cache, store.host().model),
            total == chain_written(
                store.host().model,
                meta@,
                term,
                output.model(),
                block,
                tail,
                remaining,
                direct,
            ),
        decreases remaining,
    {
        let page: Page = load_posting(store, block, term)?;
        write_page(store, meta, term, &mut output, &mut cache, &page, direct)?;
        match posting_next(&page, tail, &mut remaining)? {
            Some(next) => {
                block = next;
            },
            None => {
                return Ok(output);
            },
        }
    }
}

/// Publishes the journal's output in place of a chain or of its rest.
fn publish_replacement<S: PageStore>(
    store: &mut S,
    meta: &mut Page,
    term: TermRef,
    head: u32,
    tail: u32,
    prefix: Option<RetainedPrefix>,
) -> (result: Result<()>)
    requires
        has_meta(old(store).host().model, old(meta)@),
    ensures
        performs(
            old(store).host(),
            final(store).host(),
            match result {
                Ok(_) => Ok(final(meta)@),
                Err(error) => Err(error),
            },
            replacement_published(old(store).host().model, old(meta)@, term, head, tail, prefix),
        ),
{
    let replacement: Option<RewriteJournal> = meta.rewrite_journal()?;
    let mut dictionary: Page = load(store, term.page, PageKind::Dictionary)?;
    let (current_head, current_tail): (u32, u32) = {
        let current: Term<'_> = dictionary.term(term)?;
        assert(current@ == dictionary@.term(term)->Ok_0);
        (current.head, current.tail)
    };
    if current_head != head || current_tail != tail {
        return Err(Error::InvalidState);
    }
    let (new_head, new_tail): (u32, u32) = match replacement {
        Some(journal) => {
            if journal.phase != RewritePhase::Building {
                return Err(Error::InvalidState);
            }
            (journal.head, journal.tail)
        },
        None => (NO_BLOCK, NO_BLOCK),
    };
    let rewrite_head: u32 = match prefix {
        Some(prefix) => prefix.rewrite_head,
        None => head,
    };
    meta.set_rewrite_journal(
        Some(RewriteJournal { head: rewrite_head, tail, phase: RewritePhase::Retiring }),
    )?;
    match prefix {
        Some(prefix) => {
            let mut boundary: Page = load_posting(store, prefix.boundary, term)?;
            let next: u32 = boundary.next()?;
            if boundary.kind() != PageKind::SealedPostings || next != rewrite_head {
                return Err(Error::InvalidState);
            }
            boundary.set_next(new_head)?;
            let last: u32 = if new_tail == NO_BLOCK {
                prefix.boundary
            } else {
                new_tail
            };
            dictionary.set_posting_chain(term, head, last)?;
            // the prefix stays owned; only its old suffix enters the retirement journal.
            commit_three(store, meta, &dictionary, &boundary)
        },
        None => {
            dictionary.set_posting_chain(term, new_head, new_tail)?;
            // one batch switches coverage and records the complete retired source.
            commit_two(store, meta, &dictionary)
        },
    }
}

/// Stores the last output page.
fn finish_output<S: PageStore>(store: &mut S, meta: &mut Page, output: Build) -> (result: Result<
    (u32, u32),
>)
    requires
        has_meta(old(store).host().model, old(meta)@),
        output.wf(old(store).host().model),
    ensures
        result is Ok ==> has_meta(final(store).host().model, final(meta)@),
        performs(
            old(store).host(),
            final(store).host(),
            match result {
                Ok((written, reused)) => Ok((written, reused, final(meta)@)),
                Err(error) => Err(error),
            },
            output_finished(old(store).host().model, old(meta)@, output.model()),
        ),
{
    let written: u32 = output.written;
    let reused: u32 = output.reused;
    match output.builder {
        None => Ok((written, reused)),
        Some(builder) => {
            let page: Page = builder.finish()?;
            persist_output(store, meta, page)?;
            match written.checked_add(1) {
                Some(more) => Ok((more, reused)),
                None => Err(Error::Limit("compaction pages")),
            }
        },
    }
}

fn rewrite<S: PageStore>(
    store: &mut S,
    meta: &mut Page,
    term: TermRef,
    head: u32,
    tail: u32,
    prefix: Option<RetainedPrefix>,
    direct: bool,
) -> (result: Result<(u32, u32)>)
    requires
        has_meta(old(store).host().model, old(meta)@),
        old(meta)@.kind == PageKind::Meta,
        old(store).host().model.pages[0].kind == PageKind::Meta,
    ensures
        performs(
            old(store).host(),
            final(store).host(),
            match result {
                Ok((written, reused)) => Ok((written, reused, final(meta)@)),
                Err(error) => Err(error),
            },
            rewritten(old(store).host().model, old(meta)@, term, head, tail, prefix, direct),
        ),
{
    if meta.rewrite_journal()?.is_some() {
        return Err(Error::InvalidState);
    }
    let rewrite_head: u32 = match prefix {
        Some(prefix) => prefix.rewrite_head,
        None => head,
    };
    let output: Build = write_chain(store, meta, term, rewrite_head, tail, direct)?;
    let (written, reused): (u32, u32) = finish_output(store, meta, output)?;
    publish_replacement(store, meta, term, head, tail, prefix)?;
    store.event(Stage::ReplacementPublished)?;
    Ok((written, reused))
}

/// Reclaiming the journal's pages from `block` on, two a batch: how many.
pub open spec fn pages_reclaimed(
    model: StoreModel,
    meta: Image,
    term: TermRef,
    journal: RewriteJournal,
    block: u32,
    remaining: u32,
    count: int,
) -> Change<u32>
    decreases remaining,
{
    match model.load_posting(block, term) {
        Err(error) => Change::refused(model, error),
        Ok(page) => match posting_next_of(page, journal.tail, remaining) {
            Err(error) => Change::refused(model, error),
            Ok(next) => match meta.free_head() {
                Err(error) => Change::refused(model, error),
                Ok(free_head) => match free_image(block, free_head) {
                    Err(error) => Change::refused(model, error),
                    Ok(free) => match next {
                        None => match meta.with_journal(None) {
                            Err(error) => Change::refused(model, error),
                            Ok(meta) => match meta.with_free_head(block) {
                                Err(error) => Change::refused(model, error),
                                Ok(meta) => Change::made(
                                    model.put(meta).put(free),
                                    (count + 1) as u32,
                                ),
                            },
                        },
                        Some(second) => if remaining > 0 {
                            second_reclaimed(
                                model,
                                meta,
                                term,
                                journal,
                                block,
                                free,
                                second,
                                (remaining - 1) as u32,
                                count,
                            )
                        } else {
                            Change::refused(model, Error::InvalidState)
                        },
                    },
                },
            },
        },
    }
}

/// Reclaiming two pages of the journal in one batch, then the rest.
pub open spec fn second_reclaimed(
    model: StoreModel,
    meta: Image,
    term: TermRef,
    journal: RewriteJournal,
    block: u32,
    free: Image,
    second: u32,
    remaining: u32,
    count: int,
) -> Change<u32>
    decreases remaining,
{
    match model.load_posting(second, term) {
        Err(error) => Change::refused(model, error),
        Ok(page) => match posting_next_of(page, journal.tail, remaining) {
            Err(error) => Change::refused(model, error),
            Ok(next) => match free_image(second, block) {
                Err(error) => Change::refused(model, error),
                Ok(second_free) => {
                    let left = match next {
                        Some(head) => Some(RewriteJournal { head, ..journal }),
                        None => None,
                    };
                    match meta.with_journal(left) {
                        Err(error) => Change::refused(model, error),
                        Ok(meta) => match meta.with_free_head(second) {
                            Err(error) => Change::refused(model, error),
                            Ok(meta) => {
                                let after = model.put(meta).put(free).put(second_free);
                                match next {
                                    None => Change::made(after, (count + 2) as u32),
                                    Some(next) => if remaining > 0 {
                                        pages_reclaimed(
                                            after,
                                            meta,
                                            term,
                                            journal,
                                            next,
                                            (remaining - 1) as u32,
                                            count + 2,
                                        )
                                    } else {
                                        Change::made(after, (count + 2) as u32)
                                    },
                                }
                            },
                        },
                    }
                },
            },
        },
    }
}

/// Reclaiming what the journal holds, if it does not overlap an active chain
/// and no frontier vouches for its source.
pub open spec fn recovered(model: StoreModel) -> Change<u32> {
    match model.load(0, PageKind::Meta) {
        Err(error) => Change::refused(model, error),
        Ok(meta) => match meta.rewrite_journal() {
            Err(error) => Change::refused(model, error),
            Ok(None) => Change::made(model, 0),
            Ok(Some(journal)) => match meta.grouped_state() {
                Err(error) => Change::refused(model, error),
                Ok(state) => if state.active matches Some(active) && active.frontier_valid {
                    Change::refused(model, Error::InvalidState)
                } else {
                    match journal_term(model, journal) {
                        Err(error) => Change::refused(model, error),
                        Ok(term) => pages_reclaimed(
                            model,
                            meta,
                            term,
                            journal,
                            journal.head,
                            model.pages.len() as u32,
                            0,
                        ),
                    }
                },
            },
        },
    }
}

/// The term whose pages the journal holds, once both chains of the term were
/// inspected. Two finite terminal chains intersect exactly when they share a tail.
pub open spec fn journal_term(model: StoreModel, journal: RewriteJournal) -> Result<TermRef> {
    match model.load_any(journal.head) {
        Err(error) => Err(error),
        Ok(first) => match first.posting_term() {
            Err(error) => Err(error),
            Ok(term) => match model.load(term.page, PageKind::Dictionary) {
                Err(error) => Err(error),
                Ok(dictionary) => match dictionary.term(term) {
                    Err(error) => Err(error),
                    Ok(active) => match inspected(
                        model,
                        term,
                        journal.head,
                        journal.tail,
                        None,
                        false,
                    ) {
                        Err(error) => Err(error),
                        Ok(_) => match inspected(
                            model,
                            term,
                            active.head,
                            active.tail,
                            Some(active.first),
                            false,
                        ) {
                            Err(error) => Err(error),
                            Ok(_) => if active.tail == journal.tail {
                                Err(Error::InvalidState)
                            } else {
                                Ok(term)
                            },
                        },
                    },
                },
            },
        },
    }
}

/// Finds the term of a journal and inspects both of its chains.
fn inspect_journal<S: PageStore>(store: &mut S, journal: RewriteJournal) -> (result: Result<TermRef>)
    ensures
        answers(
            old(store).host(),
            final(store).host(),
            result,
            journal_term(old(store).host().model, journal),
        ),
{
    let first: Page = load_any(store, journal.head)?;
    let term: TermRef = first.posting_term()?;
    let dictionary: Page = load(store, term.page, PageKind::Dictionary)?;
    let active: Term<'_> = dictionary.term(term)?;
    assert(active@ == dictionary@.term(term)->Ok_0);
    inspect(store, term, journal.head, journal.tail, None, false)?;
    inspect(store, term, active.head, active.tail, Some(active.first), false)?;
    // two finite terminal singly linked chains intersect iff they share a tail.
    if active.tail == journal.tail {
        return Err(Error::InvalidState);
    }
    Ok(term)
}

/// Reclaims the journal's pages, two a batch.
#[verifier::loop_isolation(false)]
fn reclaim_pages<S: PageStore>(
    store: &mut S,
    meta: &mut Page,
    term: TermRef,
    journal: RewriteJournal,
) -> (result: Result<u32>)
    requires
        has_meta(old(store).host().model, old(meta)@),
    ensures
        performs(
            old(store).host(),
            final(store).host(),
            result,
            pages_reclaimed(
                old(store).host().model,
                old(meta)@,
                term,
                journal,
                journal.head,
                old(store).host().model.pages.len() as u32,
                0,
            ),
        ),
{
    let blocks: u32 = store.blocks()?;
    let mut remaining: u32 = blocks;
    let mut reclaimed: u32 = 0;
    let mut block: u32 = journal.head;
    let ghost total = pages_reclaimed(
        store.host().model,
        meta@,
        term,
        journal,
        block,
        remaining,
        0,
    );
    loop
        invariant
            same_host(old(store).host(), store.host()),
            has_meta(store.host().model, meta@),
            reclaimed + remaining <= blocks,
            total == pages_reclaimed(
                store.host().model,
                meta@,
                term,
                journal,
                block,
                remaining,
                reclaimed as int,
            ),
        decreases remaining,
    {
        let page: Page = load_posting(store, block, term)?;
        let next: Option<u32> = posting_next(&page, journal.tail, &mut remaining)?;
        let free: Page = Page::free(block, meta.free_head()?)?;
        let second_block: u32 = match next {
            None => {
                meta.set_rewrite_journal(None)?;
                meta.set_free_head(block)?;
                commit_two(store, meta, &free)?;
                store.event(Stage::SegmentReclaimed)?;
                return Ok(reclaimed + 1);
            },
            Some(second_block) => second_block,
        };
        let second: Page = load_posting(store, second_block, term)?;
        let next: Option<u32> = posting_next(&second, journal.tail, &mut remaining)?;
        let second_free: Page = Page::free(second_block, block)?;
        let left: Option<RewriteJournal> = match next {
            Some(head) => Some(RewriteJournal { head, ..journal }),
            None => None,
        };
        meta.set_rewrite_journal(left)?;
        meta.set_free_head(second_block)?;
        // two retired pages plus the journal fit one atomic three-page batch.
        commit_three(store, meta, &free, &second_free)?;
        store.event(Stage::SegmentReclaimed)?;
        reclaimed = reclaimed + 2;
        match next {
            Some(next) => {
                block = next;
            },
            None => {
                return Ok(reclaimed);
            },
        }
    }
}

/// Reclaims journal-owned pages after an interrupted build or publication.
///
/// The host holds its writer interlock. A retiring journal can only be installed
/// after reader quiescence; later readers can capture only the replacement chain.
/// No reader barrier is needed for an unpublished output chain.
///
/// # Errors
/// Fails closed if the journal overlaps the active chain, has a nonterminal tail,
/// crosses term identities, contains a cycle, or any host operation fails.
pub fn recover<S: PageStore>(store: &mut S) -> (result: Result<u32>)
    ensures
        performs(
            old(store).host(),
            final(store).host(),
            result,
            recovered(old(store).host().model),
        ),
{
    let mut meta: Page = load(store, 0, PageKind::Meta)?;
    let journal: RewriteJournal = match meta.rewrite_journal()? {
        Some(journal) => journal,
        None => {
            return Ok(0);
        },
    };
    let state: crate::mutable::page::GroupState = meta.grouped_state()?;
    if let Some(active) = state.active {
        if active.frontier_valid {
            return Err(Error::InvalidState);
        }
    }
    let term: TermRef = inspect_journal(store, journal)?;
    reclaim_pages(store, &mut meta, term, journal)
}

/// A sum of pages that can be counted.
pub open spec fn pages_counted(pages: u32, more: int) -> Result<u32> {
    if pages + more > u32::MAX {
        Err(Error::Limit("compaction pages"))
    } else {
        Ok((pages + more) as u32)
    }
}

/// The statistics after a chain was rewritten.
pub open spec fn with_rewrite(
    stats: CompactStats,
    retained: u32,
    written: u32,
    reused: u32,
    dead: u64,
) -> Result<CompactStats> {
    if stats.retained_pages + retained > u32::MAX || stats.written_pages + written > u32::MAX
        || stats.reused_pages + reused > u32::MAX {
        Err(Error::Limit("compaction pages"))
    } else if stats.removed_postings + dead > u64::MAX || stats.rewritten_terms == u64::MAX {
        Err(Error::Limit("compaction postings"))
    } else {
        Ok(
            CompactStats {
                retained_pages: (stats.retained_pages + retained) as u32,
                written_pages: (stats.written_pages + written) as u32,
                reused_pages: (stats.reused_pages + reused) as u32,
                removed_postings: (stats.removed_postings + dead) as u64,
                rewritten_terms: (stats.rewritten_terms + 1) as u64,
                ..stats
            },
        )
    }
}

/// Whether a chain is worth a rewrite.
pub open spec fn needs_rewrite(found: ChainStats, mode: CompactMode) -> bool {
    found.mutable_pages != 0 || found.dead != 0 || (mode == CompactMode::DirectTid
        && found.indirect_pages != 0)
}

/// Rewriting the chain of a term and reclaiming what it replaced: the
/// statistics and the metadata then.
pub open spec fn term_rewritten(
    model: StoreModel,
    meta: Image,
    mode: CompactMode,
    entry: TermModel,
    found: ChainStats,
    stats: CompactStats,
) -> Change<(CompactStats, Image)> {
    let prefix = if mode == CompactMode::RetainSealedPrefix {
        found.prefix
    } else {
        None
    };
    let withdrawn = frontier_withdrawn(model, meta);
    match withdrawn.value {
        Err(error) => Change::refused(withdrawn.model, error),
        Ok(meta) => {
            let replaced = rewritten(
                withdrawn.model,
                meta,
                entry.reference,
                entry.head,
                entry.tail,
                prefix,
                mode == CompactMode::DirectTid,
            );
            match replaced.value {
                Err(error) => Change::refused(replaced.model, error),
                Ok((written, reused, _)) => match with_rewrite(
                    stats,
                    match prefix {
                        Some(prefix) => prefix.pages,
                        None => 0,
                    },
                    written,
                    reused,
                    found.dead,
                ) {
                    Err(error) => Change::refused(replaced.model, error),
                    Ok(stats) => replaced_reclaimed(replaced.model, stats),
                },
            }
        },
    }
}

/// Reclaiming replaced pages and reading the metadata again.
pub open spec fn replaced_reclaimed(model: StoreModel, stats: CompactStats) -> Change<
    (CompactStats, Image),
> {
    let reclaimed = recovered(model);
    match reclaimed.value {
        Err(error) => Change::refused(reclaimed.model, error),
        Ok(count) => match pages_counted(stats.reclaimed_pages, count as int) {
            Err(error) => Change::refused(reclaimed.model, error),
            Ok(reclaimed_pages) => match reclaimed.model.load(0, PageKind::Meta) {
                Err(error) => Change::refused(reclaimed.model, error),
                Ok(meta) => Change::made(
                    reclaimed.model,
                    (CompactStats { reclaimed_pages, ..stats }, meta),
                ),
            },
        },
    }
}

/// Compacting a term: its chain is inspected and rewritten where that is worth it.
pub open spec fn term_compacted(
    model: StoreModel,
    meta: Image,
    mode: CompactMode,
    bucket: int,
    entry: TermModel,
    stats: CompactStats,
) -> Change<(CompactStats, Image)> {
    if term_bucket(entry.term) != bucket {
        Change::refused(model, Error::InvalidState)
    } else if entry.head == NO_BLOCK {
        Change::made(model, (stats, meta))
    } else {
        match inspected(model, entry.reference, entry.head, entry.tail, Some(entry.first), true) {
            Err(error) => Change::refused(model, error),
            Ok(found) => if !needs_rewrite(found, mode) {
                Change::made(model, (stats, meta))
            } else {
                term_rewritten(model, meta, mode, entry, found, stats)
            },
        }
    }
}

/// Compacting the terms among the outcomes of a dictionary page.
pub open spec fn terms_compacted(
    model: StoreModel,
    meta: Image,
    mode: CompactMode,
    bucket: int,
    outcomes: Seq<Result<TermModel>>,
    stats: CompactStats,
) -> Change<(CompactStats, Image)>
    decreases outcomes.len(),
{
    if outcomes.len() == 0 {
        Change::made(model, (stats, meta))
    } else {
        match outcomes[0] {
            Err(error) => Change::refused(model, error),
            Ok(entry) => {
                let step = term_compacted(model, meta, mode, bucket, entry, stats);
                match step.value {
                    Err(error) => step,
                    Ok((stats, meta)) => terms_compacted(
                        step.model,
                        meta,
                        mode,
                        bucket,
                        outcomes.drop_first(),
                        stats,
                    ),
                }
            },
        }
    }
}

/// Compacting the dictionary pages of a bucket from `block` to `tail`.
pub open spec fn bucket_compacted(
    model: StoreModel,
    meta: Image,
    mode: CompactMode,
    bucket: int,
    block: u32,
    tail: u32,
    stats: CompactStats,
) -> Change<(CompactStats, Image)>
    decreases tail - block,
{
    match model.load(block, PageKind::Dictionary) {
        Err(error) => Change::refused(model, error),
        Ok(dictionary) => match dictionary.terms() {
            Err(error) => Change::refused(model, error),
            Ok(outcomes) => {
                let step = terms_compacted(model, meta, mode, bucket, outcomes, stats);
                match step.value {
                    Err(error) => step,
                    Ok((stats, meta)) => match following_of(dictionary, tail) {
                        Err(error) => Change::refused(step.model, error),
                        Ok(None) => step,
                        Ok(Some(next)) => if block < next <= tail {
                            bucket_compacted(step.model, meta, mode, bucket, next, tail, stats)
                        } else {
                            step
                        },
                    },
                }
            },
        },
    }
}

/// Compacting the buckets from `bucket` on.
pub open spec fn buckets_compacted(
    model: StoreModel,
    meta: Image,
    mode: CompactMode,
    bucket: int,
    stats: CompactStats,
) -> Change<CompactStats>
    decreases 512 - bucket,
{
    if bucket >= 512 {
        Change::made(model, stats)
    } else {
        match meta.bucket(bucket) {
            Err(error) => Change::refused(model, error),
            Ok((head, tail)) => if head == NO_BLOCK {
                buckets_compacted(model, meta, mode, bucket + 1, stats)
            } else {
                let step = bucket_compacted(model, meta, mode, bucket, head, tail, stats);
                match step.value {
                    Err(error) => Change::refused(step.model, error),
                    Ok((stats, meta)) => buckets_compacted(
                        step.model,
                        meta,
                        mode,
                        bucket + 1,
                        stats,
                    ),
                }
            },
        }
    }
}

/// Compacting the whole relation, after what an interrupted run left behind.
pub open spec fn compacted(model: StoreModel, mode: CompactMode) -> Change<CompactStats> {
    let reclaimed = recovered(model);
    match reclaimed.value {
        Err(error) => Change::refused(reclaimed.model, error),
        Ok(reclaimed_pages) => match reclaimed.model.load(0, PageKind::Meta) {
            Err(error) => Change::refused(reclaimed.model, error),
            Ok(meta) => buckets_compacted(
                reclaimed.model,
                meta,
                mode,
                0,
                CompactStats { reclaimed_pages, ..no_stats() },
            ),
        },
    }
}

/// Whether a metadata image is that of the relation.
pub open spec fn current_meta(model: StoreModel, meta: Image) -> bool {
    &&& has_meta(model, meta)
    &&& meta.kind == PageKind::Meta
    &&& model.pages[0].kind == PageKind::Meta
}

fn count_pages(pages: u32, more: u32) -> (result: Result<u32>)
    ensures
        result == pages_counted(pages, more as int),
{
    match pages.checked_add(more) {
        Some(pages) => Ok(pages),
        None => Err(Error::Limit("compaction pages")),
    }
}

fn count_rewrite(stats: CompactStats, retained: u32, written: u32, reused: u32, dead: u64) -> (result:
    Result<CompactStats>)
    ensures
        result == with_rewrite(stats, retained, written, reused, dead),
{
    let retained_pages: u32 = count_pages(stats.retained_pages, retained)?;
    let written_pages: u32 = count_pages(stats.written_pages, written)?;
    let reused_pages: u32 = count_pages(stats.reused_pages, reused)?;
    if dead > u64::MAX - stats.removed_postings || stats.rewritten_terms == u64::MAX {
        return Err(Error::Limit("compaction postings"));
    }
    Ok(
        CompactStats {
            retained_pages,
            written_pages,
            reused_pages,
            removed_postings: stats.removed_postings + dead,
            rewritten_terms: stats.rewritten_terms + 1,
            ..stats
        },
    )
}

/// Rewrites the chain of a term and reclaims what it replaced.
fn rewrite_term<S: PageStore>(
    store: &mut S,
    meta: &mut Page,
    mode: CompactMode,
    entry: &Term<'_>,
    found: ChainStats,
    stats: CompactStats,
) -> (result: Result<CompactStats>)
    requires
        current_meta(old(store).host().model, old(meta)@),
    ensures
        result is Ok ==> current_meta(final(store).host().model, final(meta)@),
        performs(
            old(store).host(),
            final(store).host(),
            match result {
                Ok(stats) => Ok((stats, final(meta)@)),
                Err(error) => Err(error),
            },
            term_rewritten(old(store).host().model, old(meta)@, mode, entry@, found, stats),
        ),
{
    let prefix: Option<RetainedPrefix> = match mode {
        CompactMode::RetainSealedPrefix => found.prefix,
        _ => None,
    };
    invalidate(store, meta)?;
    let (written, reused): (u32, u32) = rewrite(
        store,
        meta,
        entry.reference,
        entry.head,
        entry.tail,
        prefix,
        mode == CompactMode::DirectTid,
    )?;
    let retained: u32 = match prefix {
        Some(prefix) => prefix.pages,
        None => 0,
    };
    let stats: CompactStats = count_rewrite(stats, retained, written, reused, found.dead)?;
    reclaim_replaced(store, meta, stats)
}

/// Reclaims replaced pages and reads the metadata again.
fn reclaim_replaced<S: PageStore>(store: &mut S, meta: &mut Page, stats: CompactStats) -> (result:
    Result<CompactStats>)
    ensures
        result is Ok ==> current_meta(final(store).host().model, final(meta)@),
        performs(
            old(store).host(),
            final(store).host(),
            match result {
                Ok(stats) => Ok((stats, final(meta)@)),
                Err(error) => Err(error),
            },
            replaced_reclaimed(old(store).host().model, stats),
        ),
{
    let reclaimed: u32 = recover(store)?;
    let reclaimed_pages: u32 = count_pages(stats.reclaimed_pages, reclaimed)?;
    // recovery advances the free list; never reuse a stale metapage image.
    *meta = load(store, 0, PageKind::Meta)?;
    Ok(CompactStats { reclaimed_pages, ..stats })
}

/// Compacts the terms of a dictionary page.
#[verifier::loop_isolation(false)]
fn compact_terms<S: PageStore>(
    store: &mut S,
    meta: &mut Page,
    mode: CompactMode,
    bucket: usize,
    dictionary: &Page,
    begun: CompactStats,
) -> (result: Result<CompactStats>)
    requires
        current_meta(old(store).host().model, old(meta)@),
    ensures
        result is Ok ==> current_meta(final(store).host().model, final(meta)@),
        performs(
            old(store).host(),
            final(store).host(),
            match result {
                Ok(stats) => Ok((stats, final(meta)@)),
                Err(error) => Err(error),
            },
            match dictionary@.terms() {
                Err(error) => Change::refused(old(store).host().model, error),
                Ok(outcomes) => terms_compacted(
                    old(store).host().model,
                    old(meta)@,
                    mode,
                    bucket as int,
                    outcomes,
                    begun,
                ),
            },
        ),
{
    let mut entries: Terms<'_> = dictionary.terms()?;
    let mut stats: CompactStats = begun;
    let ghost total = terms_compacted(
        store.host().model,
        meta@,
        mode,
        bucket as int,
        entries@,
        stats,
    );
    loop
        invariant
            same_host(old(store).host(), store.host()),
            current_meta(store.host().model, meta@),
            total == terms_compacted(
                store.host().model,
                meta@,
                mode,
                bucket as int,
                entries@,
                stats,
            ),
        decreases entries@.len(),
    {
        let entry: Term<'_> = match entries.next() {
            None => {
                return Ok(stats);
            },
            Some(entry) => entry?,
        };
        stats = compact_term(store, meta, mode, bucket, &entry, stats)?;
    }
}

/// Compacts a term.
fn compact_term<S: PageStore>(
    store: &mut S,
    meta: &mut Page,
    mode: CompactMode,
    bucket: usize,
    entry: &Term<'_>,
    stats: CompactStats,
) -> (result: Result<CompactStats>)
    requires
        current_meta(old(store).host().model, old(meta)@),
    ensures
        result is Ok ==> current_meta(final(store).host().model, final(meta)@),
        performs(
            old(store).host(),
            final(store).host(),
            match result {
                Ok(stats) => Ok((stats, final(meta)@)),
                Err(error) => Err(error),
            },
            term_compacted(
                old(store).host().model,
                old(meta)@,
                mode,
                bucket as int,
                entry@,
                stats,
            ),
        ),
{
    if bucket_for(entry.term) != bucket {
        return Err(Error::InvalidState);
    }
    if entry.head == NO_BLOCK {
        return Ok(stats);
    }
    let found: ChainStats = inspect(
        store,
        entry.reference,
        entry.head,
        entry.tail,
        Some(entry.first),
        true,
    )?;
    if found.mutable_pages == 0 && found.dead == 0 && !(mode == CompactMode::DirectTid
        && found.indirect_pages != 0) {
        return Ok(stats);
    }
    rewrite_term(store, meta, mode, entry, found, stats)
}

/// Compacts the dictionary pages of a bucket.
#[verifier::loop_isolation(false)]
fn compact_bucket<S: PageStore>(
    store: &mut S,
    meta: &mut Page,
    mode: CompactMode,
    bucket: usize,
    head: u32,
    tail: u32,
    begun: CompactStats,
) -> (result: Result<CompactStats>)
    requires
        current_meta(old(store).host().model, old(meta)@),
    ensures
        result is Ok ==> current_meta(final(store).host().model, final(meta)@),
        performs(
            old(store).host(),
            final(store).host(),
            match result {
                Ok(stats) => Ok((stats, final(meta)@)),
                Err(error) => Err(error),
            },
            bucket_compacted(
                old(store).host().model,
                old(meta)@,
                mode,
                bucket as int,
                head,
                tail,
                begun,
            ),
        ),
{
    let mut block: u32 = head;
    let mut stats: CompactStats = begun;
    let ghost total = bucket_compacted(
        store.host().model,
        meta@,
        mode,
        bucket as int,
        head,
        tail,
        begun,
    );
    loop
        invariant
            same_host(old(store).host(), store.host()),
            current_meta(store.host().model, meta@),
            total == bucket_compacted(
                store.host().model,
                meta@,
                mode,
                bucket as int,
                block,
                tail,
                stats,
            ),
        decreases tail - block,
    {
        let dictionary: Page = load(store, block, PageKind::Dictionary)?;
        stats = compact_terms(store, meta, mode, bucket, &dictionary, stats)?;
        match following(&dictionary, tail)? {
            Some(next) => {
                block = next;
            },
            None => {
                return Ok(stats);
            },
        }
    }
}

/// Rewrites mutable or deletion-bearing chains into sealed posting payloads.
///
/// The host must exclude writers and all readers before entry and retain both
/// barriers until return. Scratch is a fixed number of page images, independent
/// of relation size. Interrupts are checked during every page traversal.
///
/// # Errors
/// Rejects corrupt chains, unordered owners and any host failure. Completed term
/// replacements remain durable on failure. Recovery discards unpublished output
/// or finishes retirement; it never rolls back an already published replacement.
pub fn compact<S: PageStore>(store: &mut S) -> (result: Result<CompactStats>)
    ensures
        performs(
            old(store).host(),
            final(store).host(),
            result,
            compacted(old(store).host().model, CompactMode::Copy),
        ),
{
    compact_with_mode(store, CompactMode::Copy)
}

/// Compacts with optional retention of an entirely live sealed prefix.
///
/// Retention rewrites the last live sealed page with the suffix to coalesce small
/// appends. It does not share extents between readers or skip liveness inspection.
/// Both modes require the same exclusive reader/writer barriers as [`compact`].
/// Scratch remains a fixed number of page images, with no heap-sized work list.
///
/// # Errors
/// Has the same failure and recovery contract as [`compact`]. A retained boundary
/// is revalidated before one atomic dictionary, boundary and journal publication.
#[verifier::loop_isolation(false)]
pub fn compact_with_mode<S: PageStore>(store: &mut S, mode: CompactMode) -> (result: Result<
    CompactStats,
>)
    ensures
        performs(
            old(store).host(),
            final(store).host(),
            result,
            compacted(old(store).host().model, mode),
        ),
{
    let ghost total = compacted(store.host().model, mode);
    let reclaimed_pages: u32 = recover(store)?;
    let mut stats: CompactStats = CompactStats { reclaimed_pages, ..CompactStats::default() };
    let mut meta: Page = load(store, 0, PageKind::Meta)?;
    let mut bucket: usize = 0;
    while bucket < BUCKETS
        invariant
            bucket <= BUCKETS,
            same_host(old(store).host(), store.host()),
            current_meta(store.host().model, meta@),
            total == buckets_compacted(store.host().model, meta@, mode, bucket as int, stats),
        decreases BUCKETS - bucket,
    {
        store.interrupt()?;
        let (head, tail): (u32, u32) = meta.bucket(bucket)?;
        if head != NO_BLOCK {
            stats = compact_bucket(store, &mut meta, mode, bucket, head, tail, stats)?;
        }
        bucket += 1;
    }
    Ok(stats)
}

} // verus!
