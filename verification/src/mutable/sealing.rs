//! What kinds of posting pages compaction writes.

use crate::mutable::compact::{
    bucket_compacted, buckets_compacted, chain_written, compacted, output_finished,
    output_persisted, output_started, pages_reclaimed, recovered, reference_written,
    references_written, replacement_published, rewritten, term_compacted, term_rewritten,
    terms_compacted, ChainStats, CompactMode, CompactStats, Output, RetainedPrefix,
};
use crate::error::Result;
use crate::identity::RootTid;
use crate::mutable::grouped::anchors::frontier_withdrawn;
use crate::mutable::page::model::{Image, RewriteJournal, TermModel};
use crate::mutable::page::{OwnerRef, PageKind, TermRef, NO_BLOCK};
use crate::mutable::store::{following_of, posting_next_of, StoreModel};
use vstd::prelude::*;

verus! {

/// The kind of the posting pages that a rewrite writes.
pub open spec fn output_kind(direct: bool) -> PageKind {
    if direct {
        PageKind::DirectPostings
    } else {
        PageKind::SealedPostings
    }
}

/// Whether every posting page is of the kind that it was, or of a given one.
pub open spec fn only_written(before: StoreModel, after: StoreModel, kind: PageKind) -> bool {
    &&& before.pages.len() <= after.pages.len()
    &&& forall|p: int|
        0 <= p < after.pages.len() && (#[trigger] after.pages[p]).holds_postings() ==> after.pages[p].kind
            == kind || (p < before.pages.len() && before.pages[p].kind == after.pages[p].kind)
}

/// Whether the metadata can be told from other pages.
pub open spec fn meta_apart(model: StoreModel, meta: Image) -> bool {
    &&& 0 < model.pages.len()
    &&& meta.kind == PageKind::Meta
    &&& meta.block == 0
}

/// Whether the page under construction is of the kind to be written.
pub open spec fn builds_kind(model: StoreModel, output: Output, kind: PageKind) -> bool {
    output.builder matches Some(builder) ==> builder.image.kind == kind && model.has(
        builder.image.block,
    )
}

proof fn written_joins(first: StoreModel, second: StoreModel, third: StoreModel, kind: PageKind)
    requires
        only_written(first, second, kind),
        only_written(second, third, kind),
    ensures
        only_written(first, third, kind),
{
    assert forall|p: int|
        0 <= p < third.pages.len() && (#[trigger] third.pages[p]).holds_postings() implies third.pages[p].kind
        == kind || (p < first.pages.len() && first.pages[p].kind == third.pages[p].kind) by {
        if third.pages[p].kind != kind {
            assert(second.pages[p].kind == third.pages[p].kind);
            assert(second.pages[p].holds_postings());
        }
    }
}

/// Storing a page of the kind, of another one, or of the kind that it was.
proof fn put_written(model: StoreModel, image: Image, kind: PageKind)
    requires
        model.has(image.block),
        image.kind == kind || !image.holds_postings() || model.pages[image.block as int].kind
            == image.kind,
    ensures
        only_written(model, model.put(image), kind),
        model.put(image).pages.len() == model.pages.len(),
{
}

proof fn persisted_written(model: StoreModel, meta: Image, page: Image, kind: PageKind)
    requires
        meta_apart(model, meta),
        model.has(page.block),
        page.kind == kind,
        output_persisted(model, meta, page).value is Ok,
    ensures
        ({
            let step = output_persisted(model, meta, page);
            only_written(model, step.model, kind) && meta_apart(step.model, step.value->Ok_0)
        }),
{
    let step = output_persisted(model, meta, page);
    let spent = step.value->Ok_0;
    let one = model.put(spent);
    put_written(model, spent, kind);
    match meta.rewrite_journal()->Ok_0 {
        None => {
            put_written(one, page, kind);
            written_joins(model, one, step.model, kind);
        },
        Some(journal) => {
            let last = model.load_posting(journal.tail, page.posting_term()->Ok_0)->Ok_0;
            let linked = last.with_next(page.block)->Ok_0;
            let two = one.put(linked);
            assert(last == model.pages[journal.tail as int]);
            put_written(one, linked, kind);
            put_written(two, page, kind);
            written_joins(model, one, two, kind);
            written_joins(model, two, step.model, kind);
        },
    }
}

proof fn started_written(
    model: StoreModel,
    meta: Image,
    term: TermRef,
    output: Output,
    owner: OwnerRef,
    root: RootTid,
    direct: bool,
)
    requires
        meta_apart(model, meta),
        output_started(model, meta, term, output, owner, root, direct).value is Ok,
    ensures
        ({
            let step = output_started(model, meta, term, output, owner, root, direct);
            let (next, spent) = step.value->Ok_0;
            &&& only_written(model, step.model, output_kind(direct))
            &&& meta_apart(step.model, spent)
            &&& builds_kind(step.model, next, output_kind(direct))
        }),
{
}

proof fn reference_is_written(
    model: StoreModel,
    meta: Image,
    term: TermRef,
    output: Output,
    owner: OwnerRef,
    root: RootTid,
    direct: bool,
)
    requires
        meta_apart(model, meta),
        builds_kind(model, output, output_kind(direct)),
        reference_written(model, meta, term, output, owner, root, direct).value is Ok,
    ensures
        ({
            let step = reference_written(model, meta, term, output, owner, root, direct);
            let (next, spent) = step.value->Ok_0;
            &&& only_written(model, step.model, output_kind(direct))
            &&& meta_apart(step.model, spent)
            &&& builds_kind(step.model, next, output_kind(direct))
        }),
{
    let kind = output_kind(direct);
    match output.builder {
        None => {
            started_written(model, meta, term, output, owner, root, direct);
        },
        Some(builder) => {
            if crate::mutable::compact::sealed_pushed(builder, owner, root, direct)->Ok_0 is None {
                let page = builder.image;
                let kept = output_persisted(model, meta, page);
                persisted_written(model, meta, page, kind);
                let more = Output { builder: None, written: (output.written + 1) as u32, ..output };
                started_written(
                    kept.model,
                    kept.value->Ok_0,
                    term,
                    more,
                    owner,
                    root,
                    direct,
                );
                let step = reference_written(model, meta, term, output, owner, root, direct);
                written_joins(model, kept.model, step.model, kind);
            }
        },
    }
}

proof fn references_are_written(
    model: StoreModel,
    meta: Image,
    term: TermRef,
    output: Output,
    outcomes: Seq<Result<OwnerRef>>,
    direct: bool,
)
    requires
        meta_apart(model, meta),
        builds_kind(model, output, output_kind(direct)),
        references_written(model, meta, term, output, outcomes, direct).value is Ok,
    ensures
        ({
            let step = references_written(model, meta, term, output, outcomes, direct);
            let (next, spent) = step.value->Ok_0;
            &&& only_written(model, step.model, output_kind(direct))
            &&& meta_apart(step.model, spent)
            &&& builds_kind(step.model, next, output_kind(direct))
        }),
    decreases outcomes.len(),
{
    if outcomes.len() > 0 {
        let owner = outcomes[0]->Ok_0;
        let rest = outcomes.drop_first();
        match model.resolved(owner)->Ok_0 {
            None => {
                references_are_written(model, meta, term, output, rest, direct);
            },
            Some(root) => {
                let step = reference_written(model, meta, term, output, owner, root, direct);
                reference_is_written(model, meta, term, output, owner, root, direct);
                let (next, spent) = step.value->Ok_0;
                references_are_written(step.model, spent, term, next, rest, direct);
                let end = references_written(step.model, spent, term, next, rest, direct);
                written_joins(model, step.model, end.model, output_kind(direct));
            },
        }
    }
}

proof fn chain_is_written(
    model: StoreModel,
    meta: Image,
    term: TermRef,
    output: Output,
    block: u32,
    tail: u32,
    remaining: u32,
    direct: bool,
)
    requires
        meta_apart(model, meta),
        builds_kind(model, output, output_kind(direct)),
        chain_written(model, meta, term, output, block, tail, remaining, direct).value is Ok,
    ensures
        ({
            let step = chain_written(model, meta, term, output, block, tail, remaining, direct);
            let (next, spent) = step.value->Ok_0;
            &&& only_written(model, step.model, output_kind(direct))
            &&& meta_apart(step.model, spent)
            &&& builds_kind(step.model, next, output_kind(direct))
        }),
    decreases remaining,
{
    let image = model.load_posting(block, term)->Ok_0;
    let outcomes = image.posting_stream()->Ok_0.outcomes();
    let step = references_written(model, meta, term, output, outcomes, direct);
    references_are_written(model, meta, term, output, outcomes, direct);
    let (next, spent) = step.value->Ok_0;
    if let Some(following) = posting_next_of(image, tail, remaining)->Ok_0 {
        if remaining > 0 {
            let left = (remaining - 1) as u32;
            chain_is_written(step.model, spent, term, next, following, tail, left, direct);
            let end = chain_written(step.model, spent, term, next, following, tail, left, direct);
            written_joins(model, step.model, end.model, output_kind(direct));
        }
    }
}

proof fn publishing_writes(
    model: StoreModel,
    meta: Image,
    term: TermRef,
    head: u32,
    tail: u32,
    prefix: Option<RetainedPrefix>,
    kind: PageKind,
)
    requires
        meta_apart(model, meta),
        replacement_published(model, meta, term, head, tail, prefix).value is Ok,
    ensures
        only_written(
            model,
            replacement_published(model, meta, term, head, tail, prefix).model,
            kind,
        ),
        meta_apart(
            replacement_published(model, meta, term, head, tail, prefix).model,
            replacement_published(model, meta, term, head, tail, prefix).value->Ok_0,
        ),
{
    let step = replacement_published(model, meta, term, head, tail, prefix);
    let spent = step.value->Ok_0;
    let dictionary = model.load(term.page, PageKind::Dictionary)->Ok_0;
    let (new_head, new_tail) = match meta.rewrite_journal()->Ok_0 {
        Some(journal) => (journal.head, journal.tail),
        None => (NO_BLOCK, NO_BLOCK),
    };
    let one = model.put(spent);
    put_written(model, spent, kind);
    match prefix {
        None => {
            let changed = dictionary.with_posting_chain(term, new_head, new_tail)->Ok_0;
            put_written(one, changed, kind);
            written_joins(model, one, step.model, kind);
        },
        Some(cut) => {
            let end = if new_tail == NO_BLOCK {
                cut.boundary
            } else {
                new_tail
            };
            let changed = dictionary.with_posting_chain(term, head, end)->Ok_0;
            let edge = model.load_posting(cut.boundary, term)->Ok_0;
            let linked = edge.with_next(new_head)->Ok_0;
            let two = one.put(changed);
            assert(edge == model.pages[cut.boundary as int]);
            assert(dictionary == model.pages[term.page as int]);
            put_written(one, changed, kind);
            put_written(two, linked, kind);
            written_joins(model, one, two, kind);
            written_joins(model, two, step.model, kind);
        },
    }
}

/// A rewrite writes pages of one kind.
proof fn rewrite_writes(
    model: StoreModel,
    meta: Image,
    term: TermRef,
    head: u32,
    tail: u32,
    prefix: Option<RetainedPrefix>,
    direct: bool,
)
    requires
        meta_apart(model, meta),
        rewritten(model, meta, term, head, tail, prefix, direct).value is Ok,
    ensures
        only_written(
            model,
            rewritten(model, meta, term, head, tail, prefix, direct).model,
            output_kind(direct),
        ),
{
    let kind = output_kind(direct);
    let none = Output { builder: None, written: 0, reused: 0 };
    let start = match prefix {
        Some(cut) => cut.rewrite_head,
        None => head,
    };
    let size = model.pages.len() as u32;
    let built = chain_written(model, meta, term, none, start, tail, size, direct);
    chain_is_written(model, meta, term, none, start, tail, size, direct);
    let (output, spent) = built.value->Ok_0;
    let finished = output_finished(built.model, spent, output);
    if let Some(builder) = output.builder {
        persisted_written(built.model, spent, builder.image, kind);
    }
    let (_, _, last) = finished.value->Ok_0;
    publishing_writes(finished.model, last, term, head, tail, prefix, kind);
    let after = rewritten(model, meta, term, head, tail, prefix, direct).model;
    written_joins(model, built.model, finished.model, kind);
    written_joins(model, finished.model, after, kind);
}

proof fn reclaiming_writes(
    model: StoreModel,
    meta: Image,
    term: TermRef,
    journal: RewriteJournal,
    block: u32,
    remaining: u32,
    count: int,
    kind: PageKind,
)
    requires
        meta_apart(model, meta),
        pages_reclaimed(model, meta, term, journal, block, remaining, count).value is Ok,
    ensures
        only_written(
            model,
            pages_reclaimed(model, meta, term, journal, block, remaining, count).model,
            kind,
        ),
    decreases remaining,
{
    let page = model.load_posting(block, term)->Ok_0;
    let free = crate::mutable::page::model::free_image(block, meta.free_head()->Ok_0)->Ok_0;
    let step = pages_reclaimed(model, meta, term, journal, block, remaining, count);
    match posting_next_of(page, journal.tail, remaining)->Ok_0 {
        None => {
            let spent = meta.with_journal(None)->Ok_0.with_free_head(block)->Ok_0;
            let one = model.put(spent);
            put_written(model, spent, kind);
            put_written(one, free, kind);
            written_joins(model, one, step.model, kind);
        },
        Some(second) => {
            let left = (remaining - 1) as u32;
            let other = model.load_posting(second, term)->Ok_0;
            let next = posting_next_of(other, journal.tail, left)->Ok_0;
            let rest = match next {
                Some(head) => Some(RewriteJournal { head, ..journal }),
                None => None,
            };
            let spent = meta.with_journal(rest)->Ok_0.with_free_head(second)->Ok_0;
            let second_free = crate::mutable::page::model::free_image(second, block)->Ok_0;
            let one = model.put(spent);
            let two = one.put(free);
            let three = two.put(second_free);
            put_written(model, spent, kind);
            put_written(one, free, kind);
            put_written(two, second_free, kind);
            written_joins(model, one, two, kind);
            written_joins(model, two, three, kind);
            if let Some(following) = next {
                if left > 0 {
                    let fewer = (left - 1) as u32;
                    reclaiming_writes(
                        three,
                        spent,
                        term,
                        journal,
                        following,
                        fewer,
                        count + 2,
                        kind,
                    );
                    written_joins(model, three, step.model, kind);
                }
            }
        },
    }
}

/// Recovery writes no posting page.
proof fn recovery_writes(model: StoreModel, kind: PageKind)
    requires
        recovered(model).value is Ok,
    ensures
        only_written(model, recovered(model).model, kind),
        0 < recovered(model).model.pages.len(),
{
    let meta = model.load(0, PageKind::Meta)->Ok_0;
    if let Some(journal) = meta.rewrite_journal()->Ok_0 {
        let term = crate::mutable::compact::journal_term(model, journal)->Ok_0;
        reclaiming_writes(
            model,
            meta,
            term,
            journal,
            journal.head,
            model.pages.len() as u32,
            0,
            kind,
        );
    }
}

proof fn term_writes(
    model: StoreModel,
    meta: Image,
    mode: CompactMode,
    bucket: int,
    entry: TermModel,
    stats: CompactStats,
)
    requires
        meta_apart(model, meta),
        term_compacted(model, meta, mode, bucket, entry, stats).value is Ok,
    ensures
        ({
            let step = term_compacted(model, meta, mode, bucket, entry, stats);
            &&& only_written(model, step.model, output_kind(mode == CompactMode::DirectTid))
            &&& meta_apart(step.model, step.value->Ok_0.1)
        }),
{
    let direct = mode == CompactMode::DirectTid;
    let kind = output_kind(direct);
    if entry.head != NO_BLOCK {
        let found: ChainStats = crate::mutable::compact::inspected(
            model,
            entry.reference,
            entry.head,
            entry.tail,
            Some(entry.first),
            true,
        )->Ok_0;
        if crate::mutable::compact::needs_rewrite(found, mode) {
            let prefix = if mode == CompactMode::RetainSealedPrefix {
                found.prefix
            } else {
                None
            };
            let withdrawn = frontier_withdrawn(model, meta);
            let spent = withdrawn.value->Ok_0;
            let begun = withdrawn.model;
            if begun != model {
                put_written(model, spent, kind);
            }
            assert(only_written(model, begun, kind));
            let term = entry.reference;
            let replaced = rewritten(begun, spent, term, entry.head, entry.tail, prefix, direct);
            rewrite_writes(begun, spent, term, entry.head, entry.tail, prefix, direct);
            recovery_writes(replaced.model, kind);
            let after = term_rewritten(model, meta, mode, entry, found, stats).model;
            written_joins(model, begun, replaced.model, kind);
            written_joins(model, replaced.model, after, kind);
        }
    }
}

proof fn terms_write(
    model: StoreModel,
    meta: Image,
    mode: CompactMode,
    bucket: int,
    outcomes: Seq<Result<TermModel>>,
    stats: CompactStats,
)
    requires
        meta_apart(model, meta),
        terms_compacted(model, meta, mode, bucket, outcomes, stats).value is Ok,
    ensures
        ({
            let step = terms_compacted(model, meta, mode, bucket, outcomes, stats);
            &&& only_written(model, step.model, output_kind(mode == CompactMode::DirectTid))
            &&& meta_apart(step.model, step.value->Ok_0.1)
        }),
    decreases outcomes.len(),
{
    if outcomes.len() > 0 {
        let entry = outcomes[0]->Ok_0;
        let step = term_compacted(model, meta, mode, bucket, entry, stats);
        term_writes(model, meta, mode, bucket, entry, stats);
        let (counted, spent) = step.value->Ok_0;
        let rest = outcomes.drop_first();
        terms_write(step.model, spent, mode, bucket, rest, counted);
        let end = terms_compacted(step.model, spent, mode, bucket, rest, counted);
        written_joins(
            model,
            step.model,
            end.model,
            output_kind(mode == CompactMode::DirectTid),
        );
    }
}

proof fn bucket_writes(
    model: StoreModel,
    meta: Image,
    mode: CompactMode,
    bucket: int,
    block: u32,
    tail: u32,
    stats: CompactStats,
)
    requires
        meta_apart(model, meta),
        bucket_compacted(model, meta, mode, bucket, block, tail, stats).value is Ok,
    ensures
        ({
            let step = bucket_compacted(model, meta, mode, bucket, block, tail, stats);
            &&& only_written(model, step.model, output_kind(mode == CompactMode::DirectTid))
            &&& meta_apart(step.model, step.value->Ok_0.1)
        }),
    decreases tail - block,
{
    let dictionary = model.load(block, PageKind::Dictionary)->Ok_0;
    let outcomes = dictionary.terms()->Ok_0;
    let step = terms_compacted(model, meta, mode, bucket, outcomes, stats);
    terms_write(model, meta, mode, bucket, outcomes, stats);
    let (counted, spent) = step.value->Ok_0;
    if let Some(next) = following_of(dictionary, tail)->Ok_0 {
        if block < next <= tail {
            bucket_writes(step.model, spent, mode, bucket, next, tail, counted);
            let end = bucket_compacted(step.model, spent, mode, bucket, next, tail, counted);
            written_joins(
                model,
                step.model,
                end.model,
                output_kind(mode == CompactMode::DirectTid),
            );
        }
    }
}

proof fn buckets_write(
    model: StoreModel,
    meta: Image,
    mode: CompactMode,
    bucket: int,
    stats: CompactStats,
)
    requires
        meta_apart(model, meta),
        buckets_compacted(model, meta, mode, bucket, stats).value is Ok,
    ensures
        only_written(
            model,
            buckets_compacted(model, meta, mode, bucket, stats).model,
            output_kind(mode == CompactMode::DirectTid),
        ),
    decreases 512 - bucket,
{
    if bucket < 512 {
        let (head, tail) = meta.bucket(bucket)->Ok_0;
        if head == NO_BLOCK {
            buckets_write(model, meta, mode, bucket + 1, stats);
        } else {
            let step = bucket_compacted(model, meta, mode, bucket, head, tail, stats);
            bucket_writes(model, meta, mode, bucket, head, tail, stats);
            let (counted, spent) = step.value->Ok_0;
            buckets_write(step.model, spent, mode, bucket + 1, counted);
            let end = buckets_compacted(step.model, spent, mode, bucket + 1, counted);
            written_joins(
                model,
                step.model,
                end.model,
                output_kind(mode == CompactMode::DirectTid),
            );
        }
    }
}

/// Compaction writes sealed posting pages alone, direct ones where roots are
/// kept on them: every other posting page is of the kind that it was. So it
/// makes no mutable posting page.
pub proof fn compaction_seals(model: StoreModel, mode: CompactMode)
    requires
        compacted(model, mode).value is Ok,
    ensures
        only_written(
            model,
            compacted(model, mode).model,
            output_kind(mode == CompactMode::DirectTid),
        ),
{
    let kind = output_kind(mode == CompactMode::DirectTid);
    recovery_writes(model, kind);
    let middle = recovered(model).model;
    let meta = middle.load(0, PageKind::Meta)->Ok_0;
    let stats = CompactStats {
        reclaimed_pages: recovered(model).value->Ok_0,
        ..crate::mutable::compact::no_stats()
    };
    buckets_write(middle, meta, mode, 0, stats);
    written_joins(model, middle, compacted(model, mode).model, kind);
}

} // verus!
