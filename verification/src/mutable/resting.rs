//! Compaction of a relation at rest.

use crate::error::Result;
use crate::mutable::compact::{
    bucket_compacted, buckets_compacted, compacted, inspected, needs_rewrite, no_stats, recovered,
    term_compacted, terms_compacted, CompactMode, CompactStats,
};
use crate::mutable::page::model::{Image, TermModel};
use crate::mutable::page::{PageKind, NO_BLOCK};
use crate::mutable::recovery::{recovery_lists, tidy};
use crate::mutable::store::{following_of, Change, StoreModel};
use vstd::prelude::*;

verus! {

/// Whether the chain of a term needs no rewrite, as far as it can be inspected.
pub open spec fn rests(model: StoreModel, mode: CompactMode, entry: TermModel) -> bool {
    entry.head == NO_BLOCK || (inspected(
        model,
        entry.reference,
        entry.head,
        entry.tail,
        Some(entry.first),
        true,
    ) matches Ok(found) ==> !needs_rewrite(found, mode))
}

/// Whether a relation is at rest: no term of the dictionary needs a rewrite.
pub open spec fn at_rest(model: StoreModel, mode: CompactMode) -> bool {
    forall|block: u32, i: int|
        #![trigger model.load(block, PageKind::Dictionary)->Ok_0.terms()->Ok_0[i]]
        model.load(block, PageKind::Dictionary) is Ok && model.load(
            block,
            PageKind::Dictionary,
        )->Ok_0.terms() is Ok && 0 <= i < model.load(
            block,
            PageKind::Dictionary,
        )->Ok_0.terms()->Ok_0.len() ==> (model.load(
            block,
            PageKind::Dictionary,
        )->Ok_0.terms()->Ok_0[i] matches Ok(entry) ==> rests(model, mode, entry))
}

/// Compacting a term counts a rewrite, or leaves all as it was because the term
/// needed none.
proof fn term_counted(
    model: StoreModel,
    meta: Image,
    mode: CompactMode,
    bucket: int,
    entry: TermModel,
    stats: CompactStats,
    other: CompactStats,
)
    requires
        term_compacted(model, meta, mode, bucket, entry, stats).value is Ok,
    ensures
        ({
            let step = term_compacted(model, meta, mode, bucket, entry, stats);
            let (counted, _) = step.value->Ok_0;
            if rests(model, mode, entry) {
                &&& step == Change::made(model, (stats, meta))
                &&& term_compacted(model, meta, mode, bucket, entry, other) == Change::made(
                    model,
                    (other, meta),
                )
            } else {
                counted.rewritten_terms == stats.rewritten_terms + 1
            }
        }),
{
}

proof fn terms_counted(
    model: StoreModel,
    meta: Image,
    mode: CompactMode,
    bucket: int,
    outcomes: Seq<Result<TermModel>>,
    stats: CompactStats,
    other: CompactStats,
)
    requires
        terms_compacted(model, meta, mode, bucket, outcomes, stats).value is Ok,
    ensures
        ({
            let step = terms_compacted(model, meta, mode, bucket, outcomes, stats);
            let (counted, _) = step.value->Ok_0;
            &&& counted.rewritten_terms >= stats.rewritten_terms
            &&& counted.rewritten_terms == stats.rewritten_terms || (forall|i: int|
                0 <= i < outcomes.len() && (#[trigger] outcomes[i]) is Ok ==> rests(
                    model,
                    mode,
                    outcomes[i]->Ok_0,
                )) ==> {
                &&& step == Change::made(model, (stats, meta))
                &&& terms_compacted(model, meta, mode, bucket, outcomes, other) == Change::made(
                    model,
                    (other, meta),
                )
            }
        }),
    decreases outcomes.len(),
{
    if outcomes.len() > 0 {
        let entry = outcomes[0]->Ok_0;
        let step = term_compacted(model, meta, mode, bucket, entry, stats);
        term_counted(model, meta, mode, bucket, entry, stats, other);
        let (counted, spent) = step.value->Ok_0;
        let rest = outcomes.drop_first();
        terms_counted(step.model, spent, mode, bucket, rest, counted, other);
        if forall|i: int|
            0 <= i < outcomes.len() && (#[trigger] outcomes[i]) is Ok ==> rests(
                model,
                mode,
                outcomes[i]->Ok_0,
            ) {
            assert forall|i: int| 0 <= i < rest.len() && (#[trigger] rest[i]) is Ok implies rests(
                model,
                mode,
                rest[i]->Ok_0,
            ) by {
                assert(rest[i] == outcomes[i + 1]);
            }
        }
    }
}

proof fn bucket_counted(
    model: StoreModel,
    meta: Image,
    mode: CompactMode,
    bucket: int,
    block: u32,
    tail: u32,
    stats: CompactStats,
    other: CompactStats,
)
    requires
        bucket_compacted(model, meta, mode, bucket, block, tail, stats).value is Ok,
    ensures
        ({
            let step = bucket_compacted(model, meta, mode, bucket, block, tail, stats);
            let (counted, _) = step.value->Ok_0;
            &&& counted.rewritten_terms >= stats.rewritten_terms
            &&& counted.rewritten_terms == stats.rewritten_terms || at_rest(model, mode) ==> {
                &&& step == Change::made(model, (stats, meta))
                &&& bucket_compacted(model, meta, mode, bucket, block, tail, other)
                    == Change::made(model, (other, meta))
            }
        }),
    decreases tail - block,
{
    let dictionary = model.load(block, PageKind::Dictionary)->Ok_0;
    let outcomes = dictionary.terms()->Ok_0;
    let step = terms_compacted(model, meta, mode, bucket, outcomes, stats);
    terms_counted(model, meta, mode, bucket, outcomes, stats, other);
    let (counted, spent) = step.value->Ok_0;
    if at_rest(model, mode) {
        assert forall|i: int| 0 <= i < outcomes.len() && (#[trigger] outcomes[i])
            is Ok implies rests(model, mode, outcomes[i]->Ok_0) by {
            assert(model.load(block, PageKind::Dictionary)->Ok_0.terms()->Ok_0[i] == outcomes[i]);
        }
    }
    if let Some(next) = following_of(dictionary, tail)->Ok_0 {
        if block < next <= tail {
            bucket_counted(step.model, spent, mode, bucket, next, tail, counted, other);
        }
    }
}

proof fn buckets_counted(
    model: StoreModel,
    meta: Image,
    mode: CompactMode,
    bucket: int,
    stats: CompactStats,
    other: CompactStats,
)
    requires
        buckets_compacted(model, meta, mode, bucket, stats).value is Ok,
    ensures
        ({
            let step = buckets_compacted(model, meta, mode, bucket, stats);
            let counted = step.value->Ok_0;
            &&& counted.rewritten_terms >= stats.rewritten_terms
            &&& counted.rewritten_terms == stats.rewritten_terms || at_rest(model, mode) ==> {
                &&& step == Change::made(model, stats)
                &&& buckets_compacted(model, meta, mode, bucket, other) == Change::made(
                    model,
                    other,
                )
            }
        }),
    decreases 512 - bucket,
{
    if bucket < 512 {
        let (head, tail) = meta.bucket(bucket)->Ok_0;
        if head == NO_BLOCK {
            buckets_counted(model, meta, mode, bucket + 1, stats, other);
        } else {
            let step = bucket_compacted(model, meta, mode, bucket, head, tail, stats);
            bucket_counted(model, meta, mode, bucket, head, tail, stats, other);
            let (counted, spent) = step.value->Ok_0;
            buckets_counted(step.model, spent, mode, bucket + 1, counted, other);
        }
    }
}

/// A compaction that counts no rewritten term only reclaims what a journal left,
/// and so does one whose relation is at rest once that is reclaimed.
pub proof fn compaction_rests(model: StoreModel, mode: CompactMode)
    requires
        compacted(model, mode).value is Ok,
    ensures
        ({
            let stats = compacted(model, mode).value->Ok_0;
            stats.rewritten_terms == 0 || at_rest(recovered(model).model, mode) ==> {
                &&& compacted(model, mode).model == recovered(model).model
                &&& stats == (CompactStats {
                    reclaimed_pages: recovered(model).value->Ok_0,
                    ..no_stats()
                })
            }
        }),
{
    let middle = recovered(model).model;
    let meta = middle.load(0, PageKind::Meta)->Ok_0;
    let stats = CompactStats { reclaimed_pages: recovered(model).value->Ok_0, ..no_stats() };
    buckets_counted(middle, meta, mode, 0, stats, stats);
}

/// Once a compaction counted no rewritten term, the next one does nothing.
pub proof fn compaction_settles(model: StoreModel, mode: CompactMode)
    requires
        tidy(model, model.pages[0]),
        compacted(model, mode).value matches Ok(stats) && stats.rewritten_terms == 0,
    ensures
        ({
            let after = compacted(model, mode).model;
            compacted(after, mode) == Change::made(after, no_stats())
        }),
{
    let after = recovered(model).model;
    let stats = CompactStats { reclaimed_pages: recovered(model).value->Ok_0, ..no_stats() };
    compaction_rests(model, mode);
    recovery_lists(model, Seq::empty());
    let meta = after.load(0, PageKind::Meta)->Ok_0;
    assert(meta == after.pages[0]);
    buckets_counted(after, meta, mode, 0, stats, no_stats());
}

} // verus!
