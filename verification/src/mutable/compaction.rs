//! What compaction leaves for searches: every scan finds what it found before.

use crate::callbacks::RootItem;
use crate::candidate::CandidatePlan;
use crate::codec::bytes::group_bytes;
use crate::error::{Error, Result};
use crate::identity::group_identity;
use crate::mutable::compact::{
    bucket_compacted, buckets_compacted, chain_inspected, chain_written, compacted, inspected,
    journal_term, no_chain, output_finished, owners_kept, owners_kept_joins, recovered,
    references_inspected, replacement_published, rewritten, term_compacted, term_rewritten,
    terms_compacted, ChainStats, CompactMode, CompactStats, Output, RetainedPrefix,
};
use crate::mutable::grouped::anchors::frontier_withdrawn;
use crate::mutable::linking::{chain_moved, grew, relinked};
use crate::mutable::linking_terms::{other_entry_kept, shelf_after_move};
use crate::mutable::listing::{
    chain_list, entry_list, entry_of, list_alike, list_of_one, list_resolves, list_walk, lists_join,
    page_decodes, page_references, pages_fit, proper, references_of, term_found_listed, term_shelf,
    term_walked,
};
use crate::mutable::page::model::{
    term_bucket, Image, RewriteJournal, RewritePhase, TermModel, BUCKETS, CAPACITY,
};
use crate::mutable::page::{OwnerModel, OwnerRef, PageKind, TermRef, NO_BLOCK};
use crate::mutable::recovery::{
    directory_kept, directory_stays, ends_in, inspected_ends, one_end, recovery_lists, tidy,
};
use crate::mutable::rewriting::{
    all_known, chain_writes, directory_joins, finishing_writes, journal_reads_back, leads,
    linked_postings, live, live_join, settled, strand, strand_chain, strand_kept, strand_tail,
    undisturbed, writing,
};
use crate::mutable::roster::{all_owners, roster, roster_kept, universe_walked};
use crate::mutable::store::{posting_next_of, stored, StoreModel};
use crate::mutable::walk::Walk;
use crate::text::text_bytes;
use vstd::prelude::*;

verus! {

broadcast use {group_bytes, group_identity};

/// The references of the `k` pages from `block` to `end`.
pub open spec fn stretch(model: StoreModel, term: TermRef, block: u32, end: u32, k: nat) -> Option<
    Seq<OwnerRef>,
>
    decreases k,
{
    if k == 0 {
        None
    } else {
        match model.load_posting(block, term) {
            Err(_) => None,
            Ok(image) => if k == 1 {
                if block == end {
                    Some(page_references(image))
                } else {
                    None
                }
            } else if block == end || image.next() is Err || image.next()->Ok_0 == NO_BLOCK {
                None
            } else {
                match stretch(model, term, image.next()->Ok_0, end, (k - 1) as nat) {
                    None => None,
                    Some(rest) => Some(page_references(image) + rest),
                }
            },
        }
    }
}

/// What is left of the way to the end of a chain at the end of a stretch.
proof fn stretch_ends(
    model: StoreModel,
    term: TermRef,
    block: u32,
    end: u32,
    k: nat,
    tail: u32,
    n: nat,
)
    requires
        stretch(model, term, block, end, k) is Some,
        ends_in(model, term, block, tail, n),
    ensures
        k <= n,
        ends_in(model, term, end, tail, (n - k + 1) as nat),
    decreases k,
{
    if k > 1 {
        let next = model.load_posting(block, term)->Ok_0.next()->Ok_0;
        assert(n > 1);
        stretch_ends(model, term, next, end, (k - 1) as nat, tail, (n - 1) as nat);
    }
}

/// Where a chain can be cut: the pages up to the boundary, and those from the
/// page behind it on.
pub open spec fn cut_at(
    model: StoreModel,
    term: TermRef,
    block: u32,
    tail: u32,
    remaining: u32,
    cut: RetainedPrefix,
    k: nat,
    left: u32,
) -> bool {
    &&& stretch(model, term, block, cut.boundary, k) is Some
    &&& left < remaining
    &&& model.load_posting(cut.boundary, term) matches Ok(image) && image.next() == Ok::<u32, Error>(
        cut.rewrite_head,
    )
    &&& chain_list(model, term, cut.rewrite_head, tail, left) is Some
    &&& chain_list(model, term, block, tail, remaining) == Some(
        stretch(model, term, block, cut.boundary, k)->Some_0 + chain_list(
            model,
            term,
            cut.rewrite_head,
            tail,
            left,
        )->Some_0,
    )
}

/// A prefix that an inspection retains is one where the chain can be cut.
#[verifier::rlimit(40)]
proof fn prefix_cuts(
    model: StoreModel,
    term: TermRef,
    block: u32,
    tail: u32,
    remaining: u32,
    previous: Option<OwnerRef>,
    liveness: bool,
    stats: ChainStats,
) -> (cut: (nat, u32))
    requires
        chain_inspected(model, term, block, tail, remaining, previous, liveness, stats) is Ok,
    ensures
        ({
            let found = chain_inspected(
                model,
                term,
                block,
                tail,
                remaining,
                previous,
                liveness,
                stats,
            )->Ok_0;
            found.prefix matches Some(prefix) ==> {
                ||| found.prefix == stats.prefix
                ||| stats.prefix_open && stats.prefix_tail == Some(prefix.boundary)
                    && prefix.rewrite_head == block
                ||| cut_at(model, term, block, tail, remaining, prefix, cut.0, cut.1)
            }
        }),
    decreases remaining,
{
    let image = model.load_posting(block, term)->Ok_0;
    assert(image.block == block);
    let (last, dead) = references_inspected(
        model,
        image.posting_stream()->Ok_0.outcomes(),
        previous,
        liveness,
    )->Ok_0;
    let more = stats.with_page(block, image.kind, dead);
    let n = inspected_ends(model, term, block, tail, remaining, previous, liveness, stats);
    match posting_next_of(image, tail, remaining)->Ok_0 {
        None => (0, 0),
        Some(next) => {
            let left = (remaining - 1) as u32;
            let found = chain_inspected(model, term, next, tail, left, last, liveness, more)->Ok_0;
            let (k, rest) = prefix_cuts(model, term, next, tail, left, last, liveness, more);
            let m = inspected_ends(model, term, next, tail, left, last, liveness, more);
            if let Some(prefix) = found.prefix {
                if cut_at(model, term, next, tail, left, prefix, k, rest) {
                    stretch_ends(model, term, next, prefix.boundary, k, tail, m);
                    if block == prefix.boundary {
                        one_end(
                            model,
                            term,
                            block,
                            tail,
                            n,
                            tail,
                            (m - k + 1) as nat,
                        );
                        assert(ends_in(model, term, next, tail, (n - 1) as nat));
                        one_end(model, term, next, tail, m, tail, (n - 1) as nat);
                        assert(false);
                    }
                    let front = stretch(model, term, next, prefix.boundary, k)->Some_0;
                    let back = chain_list(model, term, prefix.rewrite_head, tail, rest)->Some_0;
                    assert(page_references(image) + (front + back) =~= (page_references(image)
                        + front) + back);
                    assert(stretch(model, term, block, prefix.boundary, k + 1) == Some(
                        page_references(image) + front,
                    ));
                    assert(cut_at(model, term, block, tail, remaining, prefix, k + 1, rest));
                    (k + 1, rest)
                } else {
                    assert(stretch(model, term, block, block, 1) == Some(page_references(image)));
                    (1, left)
                }
            } else {
                (0, 0)
            }
        },
    }
}

/// An inspection of liveness shows that every reference leads to an owner.
proof fn references_known(
    model: StoreModel,
    list: Seq<OwnerRef>,
    previous: Option<OwnerRef>,
)
    requires
        references_inspected(
            model,
            list.map_values(|owner: OwnerRef| Ok::<OwnerRef, Error>(owner)),
            previous,
            true,
        ) is Ok,
    ensures
        all_known(model, list),
    decreases list.len(),
{
    let ok = |owner: OwnerRef| Ok::<OwnerRef, Error>(owner);
    if list.len() > 0 {
        let outcomes = list.map_values(ok);
        assert(outcomes[0] == Ok::<OwnerRef, Error>(list[0]));
        assert(outcomes.drop_first() =~= list.drop_first().map_values(ok));
        references_known(model, list.drop_first(), Some(list[0]));
        assert forall|i: int| 0 <= i < list.len() implies model.resolved(#[trigger] list[i]) is Ok by {
            if i > 0 {
                assert(list[i] == list.drop_first()[i - 1]);
            }
        }
    }
}

proof fn chain_known(
    model: StoreModel,
    term: TermRef,
    block: u32,
    tail: u32,
    remaining: u32,
    previous: Option<OwnerRef>,
    stats: ChainStats,
)
    requires
        chain_inspected(model, term, block, tail, remaining, previous, true, stats) is Ok,
        chain_list(model, term, block, tail, remaining) is Some,
    ensures
        all_known(model, chain_list(model, term, block, tail, remaining)->Some_0),
    decreases remaining,
{
    let image = model.load_posting(block, term)->Ok_0;
    page_decodes(model, block, term);
    let here = page_references(image);
    references_known(model, here, previous);
    let (last, dead) = references_inspected(
        model,
        image.posting_stream()->Ok_0.outcomes(),
        previous,
        true,
    )->Ok_0;
    if let Some(next) = posting_next_of(image, tail, remaining)->Ok_0 {
        let left = (remaining - 1) as u32;
        chain_known(
            model,
            term,
            next,
            tail,
            left,
            last,
            stats.with_page(block, image.kind, dead),
        );
        let rest = chain_list(model, term, next, tail, left)->Some_0;
        let list = here + rest;
        assert forall|i: int| 0 <= i < list.len() implies model.resolved(#[trigger] list[i]) is Ok by {
            if i < here.len() {
                assert(list[i] == here[i]);
            } else {
                assert(list[i] == rest[i - here.len()]);
            }
        }
    }
}

/// The live references of a list are live and known.
proof fn live_known(model: StoreModel, list: Seq<OwnerRef>)
    ensures
        all_known(model, live(model, list)),
        live(model, live(model, list)) == live(model, list),
    decreases list.len(),
{
    if list.len() > 0 {
        let rest = live(model, list.drop_first());
        live_known(model, list.drop_first());
        if leads(model, list[0]) {
            let all = seq![list[0]] + rest;
            assert(all.drop_first() =~= rest);
            assert forall|i: int| 0 <= i < all.len() implies model.resolved(#[trigger] all[i]) is Ok by {
                if i > 0 {
                    assert(all[i] == rest[i - 1]);
                }
            }
        }
    }
}

/// A list is walked as its live references are.
proof fn live_walk<T: RootItem>(model: StoreModel, list: Seq<OwnerRef>)
    requires
        all_known(model, list),
    ensures
        list_walk::<T>(model, list) == list_walk::<T>(model, live(model, list)),
        list_walk::<T>(model, list).end == Ok::<(), Error>(()),
    decreases list.len(),
{
    if list.len() > 0 {
        let first = list[0];
        let rest = list.drop_first();
        assert(model.resolved(first) is Ok);
        assert forall|i: int| 0 <= i < rest.len() implies model.resolved(#[trigger] rest[i]) is Ok by {
            assert(rest[i] == list[i + 1]);
        }
        live_walk::<T>(model, rest);
        assert(list =~= seq![first] + rest);
        lists_join::<T>(model, seq![first], rest);
        list_of_one::<T>(model, first);
        if leads(model, first) {
            lists_join::<T>(model, seq![first], live(model, rest));
        } else {
            let walk = list_walk::<T>(model, rest);
            assert(Walk::<T>::nothing().and(walk) =~= walk);
        }
    } else {
        assert(live(model, list) =~= list);
        assert(list.map_values(|owner: OwnerRef| Ok::<OwnerRef, Error>(owner)) =~= Seq::empty());
    }
}

/// A chain that goes on behind a stretch with other pages lists the stretch and
/// then those.
proof fn stretch_goes_on(
    before: StoreModel,
    after: StoreModel,
    term: TermRef,
    block: u32,
    end: u32,
    k: nat,
    next: u32,
    tail: u32,
    remaining: u32,
)
    requires
        grew(before, after),
        stretch(before, term, block, end, k) is Some,
        chain_list(after, term, block, tail, remaining) is Some,
        before.has(end),
        after.pages[end as int].next() == Ok::<u32, Error>(next),
        page_references(after.pages[end as int]) == page_references(before.pages[end as int]),
        next == NO_BLOCK ==> tail == end,
        next != NO_BLOCK ==> (tail < before.pages.len() ==> !before.pages[tail as int].holds_postings()),
        forall|p: int|
            #![trigger before.pages[p]]
            0 <= p < before.pages.len() && p != end && before.pages[p].posting_term() == Ok::<
                TermRef,
                Error,
            >(term) ==> after.pages[p] == before.pages[p],
    ensures
        next == NO_BLOCK ==> chain_list(after, term, block, tail, remaining) == stretch(
            before,
            term,
            block,
            end,
            k,
        ),
        next != NO_BLOCK ==> k <= remaining && (chain_list(
            after,
            term,
            next,
            tail,
            (remaining - k) as u32,
        ) matches Some(rest) && chain_list(after, term, block, tail, remaining) == Some(
            stretch(before, term, block, end, k)->Some_0 + rest,
        )),
    decreases k,
{
    let image = before.load_posting(block, term)->Ok_0;
    assert(image == before.pages[block as int]);
    assert(image.holds_postings());
    if k > 1 {
        let following = image.next()->Ok_0;
        assert(after.load_posting(block, term)->Ok_0 == image);
        stretch_goes_on(
            before,
            after,
            term,
            following,
            end,
            (k - 1) as nat,
            next,
            tail,
            (remaining - 1) as u32,
        );
        let front = stretch(before, term, following, end, (k - 1) as nat)->Some_0;
        if next != NO_BLOCK {
            let rest = chain_list(after, term, next, tail, (remaining - k) as u32)->Some_0;
            assert(page_references(image) + (front + rest) =~= (page_references(image) + front)
                + rest);
        }
    }
}

/// What is live in a list after one entry and a chain was partly rewritten.
proof fn live_parts(
    model: StoreModel,
    first: OwnerRef,
    front: Seq<OwnerRef>,
    back: Seq<OwnerRef>,
)
    requires
        all_known(model, seq![first] + (front + back)),
    ensures
        live(model, seq![first] + (front + live(model, back))) == live(
            model,
            seq![first] + (front + back),
        ),
        all_known(model, seq![first] + (front + live(model, back))),
{
    let kept = live(model, back);
    let old_list = seq![first] + (front + back);
    let new_list = seq![first] + (front + kept);
    live_known(model, back);
    live_join(model, seq![first], front + back);
    live_join(model, front, back);
    live_join(model, seq![first], front + kept);
    live_join(model, front, kept);
    assert forall|i: int| 0 <= i < new_list.len() implies model.resolved(#[trigger] new_list[i])
        is Ok by {
        if i < 1 + front.len() {
            assert(new_list[i] == old_list[i]);
        } else {
            assert(new_list[i] == kept[i - 1 - front.len()]);
        }
    }
}

/// Whether a term lists references, and each of them leads to an owner.
pub open spec fn leading(model: StoreModel, meta: Image, text: Seq<u8>) -> bool {
    references_of(model, meta, text) matches Some(list) && all_known(model, list)
}

/// What a rewrite and the recovery behind it lead to.
pub open spec fn still_found(
    begun: StoreModel,
    meta: Image,
    after: StoreModel,
    spent: Image,
    text: Seq<u8>,
) -> bool {
    &&& tidy(after, spent)
    &&& owners_kept(begun, after)
    &&& directory_kept(meta, spent)
    &&& leading(begun, meta, text) ==> (references_of(after, spent, text) matches Some(list) && (
    all_known(begun, list) && live(begun, list) == live(
        begun,
        references_of(begun, meta, text)->Some_0,
    )))
}

/// Whether a rewrite was published: the chain of the term was set, and nothing
/// else that leads to references changed but the boundary page.
pub open spec fn published(
    begun: StoreModel,
    meta: Image,
    middle: StoreModel,
    after: StoreModel,
    term: TermRef,
    head: u32,
    tail: u32,
    boundary: int,
) -> bool {
    &&& grew(begun, middle)
    &&& chain_moved(middle, after, term, head, tail)
    &&& tidy(after, after.pages[0])
    &&& directory_kept(meta, after.pages[0])
    &&& forall|p: int|
        #![trigger begun.pages[p]]
        0 <= p < begun.pages.len() && settled(begun.pages[p]) ==> middle.pages[p] == begun.pages[p]
    &&& forall|p: int|
        #![trigger begun.pages[p]]
        0 <= p < begun.pages.len() && p != boundary && (begun.pages[p].kind == PageKind::Owners
            || begun.pages[p].holds_postings()) ==> after.pages[p] == begun.pages[p]
}

/// What terms share their buckets with once a rewrite was published.
proof fn published_shelf(
    begun: StoreModel,
    meta: Image,
    middle: StoreModel,
    after: StoreModel,
    term: TermRef,
    head: u32,
    tail: u32,
    boundary: int,
    text: Seq<u8>,
)
    requires
        pages_fit(begun),
        published(begun, meta, middle, after, term, head, tail, boundary),
        references_of(begun, meta, text) is Some,
    ensures
        ({
            let spent = after.pages[0];
            let found = entry_of(term_shelf(begun, meta, text)->Some_0, text);
            &&& term_shelf(after, spent, text) matches Some(entries) && (proper(entries, text)
                && entry_of(entries, text) == (match found {
                None => None,
                Some(entry) => Some(relinked(entry, term, head, tail)),
            }))
        }),
{
    let spent = after.pages[0];
    crate::mutable::linking_terms::shelf_untouched(begun, middle, meta, text);
    shelf_after_move(middle, after, meta, text, term, head, tail);
    assert(spent.bucket(term_bucket(text)) == meta.bucket(term_bucket(text)));
}

/// Rewriting a chain leaves what every term leads to.
#[verifier::rlimit(100)]
#[verifier::spinoff_prover]
proof fn rewrite_lists(
    begun: StoreModel,
    meta: Image,
    term: TermRef,
    head: u32,
    tail: u32,
    prefix: Option<RetainedPrefix>,
    direct: bool,
    k: nat,
    left: u32,
    text: Seq<u8>,
)
    requires
        tidy(begun, meta),
        head != NO_BLOCK,
        rewritten(begun, meta, term, head, tail, prefix, direct).value is Ok,
        recovered(rewritten(begun, meta, term, head, tail, prefix, direct).model).value is Ok,
        chain_list(begun, term, head, tail, begun.pages.len() as u32) matches Some(chain)
            && all_known(begun, chain),
        prefix matches Some(cut) ==> cut_at(
            begun,
            term,
            head,
            tail,
            begun.pages.len() as u32,
            cut,
            k,
            left,
        ),
    ensures
        ({
            let after = rewritten(begun, meta, term, head, tail, prefix, direct).model;
            still_found(begun, meta, after, after.pages[0], text)
        }),
{
    let size = begun.pages.len() as u32;
    let chain = chain_list(begun, term, head, tail, size)->Some_0;
    let none = Output { builder: None, written: 0, reused: 0 };
    let start = match prefix {
        Some(cut) => cut.rewrite_head,
        None => head,
    };
    let front: Seq<OwnerRef> = match prefix {
        Some(cut) => stretch(begun, term, head, cut.boundary, k)->Some_0,
        None => Seq::empty(),
    };
    if let Some(cut) = prefix {
        crate::mutable::linking::chain_kept(begun, begun, term, start, tail, left, size);
    }
    let back = chain_list(begun, term, start, tail, size)->Some_0;
    assert(chain =~= front + back);
    assert forall|i: int| 0 <= i < back.len() implies begun.resolved(#[trigger] back[i]) is Ok by {
        assert(back[i] == chain[front.len() + i]);
    }
    assert(writing(begun, meta, begun, meta, term, none, 0, Seq::empty(), Seq::empty(), direct)) by {
        reveal(writing);
    }
    let (n, done, cur) = chain_writes(
        begun,
        meta,
        begun,
        meta,
        term,
        none,
        0,
        Seq::empty(),
        Seq::empty(),
        start,
        tail,
        size,
        direct,
    );
    let built = chain_written(begun, meta, term, none, start, tail, size, direct);
    let (output, spent) = built.value->Ok_0;
    let pages = finishing_writes(
        begun,
        meta,
        built.model,
        spent,
        term,
        output,
        n,
        done,
        cur,
        direct,
    );
    let finished = output_finished(built.model, spent, output);
    let (_, _, last) = finished.value->Ok_0;
    let middle = finished.model;
    let wrote = live(begun, back);
    assert(done + cur =~= wrote);
    assert(undisturbed(begun, meta, middle, last) && (last.rewrite_journal() matches Ok(journal) && (
    match journal {
        None => pages == 0 && wrote.len() == 0,
        Some(journal) => journal.phase == RewritePhase::Building && strand(
            begun,
            middle,
            term,
            journal.head,
            journal.tail,
            pages,
        ) == Some(wrote),
    }))) by {
        reveal(writing);
    }
    let change = replacement_published(middle, last, term, head, tail, prefix);
    let after = change.model;
    assert(after == rewritten(begun, meta, term, head, tail, prefix, direct).model);
    rewrite_published(
        begun,
        meta,
        middle,
        last,
        term,
        head,
        tail,
        prefix,
        pages,
        front,
        back,
        k,
        text,
    );
}

/// Publishing a rewrite leaves what every term leads to.
#[verifier::rlimit(100)]
#[verifier::spinoff_prover]
proof fn rewrite_published(
    begun: StoreModel,
    meta: Image,
    middle: StoreModel,
    last: Image,
    term: TermRef,
    head: u32,
    tail: u32,
    prefix: Option<RetainedPrefix>,
    pages: nat,
    front: Seq<OwnerRef>,
    back: Seq<OwnerRef>,
    k: nat,
    text: Seq<u8>,
)
    requires
        tidy(begun, meta),
        head != NO_BLOCK,
        undisturbed(begun, meta, middle, last),
        last.rewrite_journal() matches Ok(journal) && (match journal {
            None => live(begun, back).len() == 0,
            Some(journal) => strand(begun, middle, term, journal.head, journal.tail, pages) == Some(
                live(begun, back),
            ),
        }),
        chain_list(begun, term, head, tail, begun.pages.len() as u32) == Some(front + back),
        match prefix {
            None => front.len() == 0,
            Some(cut) => stretch(begun, term, head, cut.boundary, k) == Some(front)
                && begun.load_posting(cut.rewrite_head, term) is Ok && begun.load_posting(
                cut.boundary,
                term,
            ) is Ok,
        },
        replacement_published(middle, last, term, head, tail, prefix).value is Ok,
        recovered(replacement_published(middle, last, term, head, tail, prefix).model).value is Ok,
    ensures
        ({
            let after = replacement_published(middle, last, term, head, tail, prefix).model;
            still_found(begun, meta, after, after.pages[0], text)
        }),
{
    let after = replacement_published(middle, last, term, head, tail, prefix).model;
    let replacement = last.rewrite_journal()->Ok_0;
    let wrote = live(begun, back);
    let start = match prefix {
        Some(cut) => cut.rewrite_head,
        None => head,
    };
    let retired = RewriteJournal { head: start, tail, phase: RewritePhase::Retiring };
    let spent = last.with_journal(Some(retired))->Ok_0;
    journal_reads_back(last, retired);
    directory_joins(meta, last, spent);
    let (new_head, new_tail) = match replacement {
        Some(journal) => (journal.head, journal.tail),
        None => (NO_BLOCK, NO_BLOCK),
    };
    let dictionary = middle.load(term.page, PageKind::Dictionary)->Ok_0;
    assert(dictionary == middle.pages[term.page as int]);
    if let Some(journal) = replacement {
        strand_tail(begun, middle, term, journal.head, journal.tail, pages);
    }
    let (set_head, set_tail, boundary): (u32, u32, int) = match prefix {
        None => (new_head, new_tail, -1),
        Some(cut) => (
            head,
            if new_tail == NO_BLOCK {
                cut.boundary
            } else {
                new_tail
            },
            cut.boundary as int,
        ),
    };
    let changed = dictionary.with_posting_chain(term, set_head, set_tail)->Ok_0;
    if let Some(cut) = prefix {
        let edge = middle.load_posting(cut.boundary, term)->Ok_0;
        assert(edge == middle.pages[cut.boundary as int]);
        assert(settled(begun.pages[cut.boundary as int]));
        assert(edge == begun.pages[cut.boundary as int]);
        linked_postings(edge, new_head);
        assert(after.pages[cut.boundary as int] == stored(edge.with_next(new_head)->Ok_0));
    }
    assert(after.pages[0] == stored(spent));
    assert(after.pages[term.page as int] == stored(changed));
    assert(directory_kept(meta, after.pages[0])) by {
        let page = after.pages[0];
        assert(page.owner_chain() == spent.owner_chain());
        assert forall|b: int| 0 <= b < BUCKETS implies #[trigger] page.bucket(b) == meta.bucket(b) by {
            assert(spent.bucket(b) == meta.bucket(b));
        }
    }
    assert(pages_fit(after)) by {
        assert forall|p: int|
            0 <= p < after.pages.len() && (#[trigger] after.pages[p]).kind
                != PageKind::Meta implies after.pages[p].bytes.len() <= CAPACITY by {
            assert(middle.pages[p].kind != PageKind::Meta ==> middle.pages[p].bytes.len()
                <= CAPACITY);
        }
    }
    assert forall|p: int|
        #![trigger begun.pages[p]]
        0 <= p < begun.pages.len() && p != boundary && (begun.pages[p].kind == PageKind::Owners
            || begun.pages[p].holds_postings()) implies after.pages[p] == begun.pages[p] by {
        assert(settled(begun.pages[p]));
        assert(middle.pages[p] == begun.pages[p]);
    }
    assert(published(begun, meta, middle, after, term, set_head, set_tail, boundary));
    assert(owners_kept(begun, after)) by {
        assert forall|i: int|
            0 <= i < begun.pages.len() && begun.pages[i].kind
                == PageKind::Owners implies #[trigger] after.pages[i] == begun.pages[i] by {
            assert(i != boundary);
        }
    }
    if leading(begun, meta, text) {
        published_shelf(begun, meta, middle, after, term, set_head, set_tail, boundary, text);
        let found = entry_of(term_shelf(begun, meta, text)->Some_0, text);
        if let Some(entry) = found {
            if entry.reference != term {
                assert(crate::mutable::linking_terms::other_postings_kept(begun, after, term)) by {
                    assert forall|p: int|
                        #![trigger begun.pages[p]]
                        0 <= p < begun.pages.len() && begun.pages[p].holds_postings()
                            && begun.pages[p].posting_term() != Ok::<TermRef, Error>(
                            term,
                        ) implies after.pages[p] == begun.pages[p] by {
                        assert(p != boundary);
                    }
                }
                other_entry_kept(begun, after, entry, term);
            } else {
                let moved = relinked(entry, term, set_head, set_tail);
                term_found_listed(begun, meta, text);
                term_found_listed(after, after.pages[0], text);
                assert(settled(begun.pages[term.page as int]));
                assert(middle.pages[term.page as int] == begun.pages[term.page as int]);
                assert(dictionary.term(term) == Ok::<TermModel, Error>(entry));
                let journal = after.pages[0].rewrite_journal()->Ok_0->Some_0;
                assert(journal == retired);
                assert(after.pages[start as int].posting_term() == Ok::<TermRef, Error>(term)) by {
                    assert(begun.load_posting(start, term) is Ok);
                    assert(begun.pages[start as int].holds_postings());
                }
                assert(journal_term(after, journal) == Ok::<TermRef, Error>(term));
                let active = after.load(term.page, PageKind::Dictionary)->Ok_0.term(term)->Ok_0;
                assert(active == moved);
                let list = references_of(begun, meta, text)->Some_0;
                assert(list == seq![entry.first] + (front + back));
                live_parts(begun, entry.first, front, back);
                let remaining = after.pages.len() as u32;
                if set_head != NO_BLOCK {
                    let m = inspected_ends(
                        after,
                        term,
                        set_head,
                        set_tail,
                        remaining,
                        Some(active.first),
                        false,
                        no_chain(false),
                    );
                    if let Some(output) = replacement {
                        strand_kept(begun, middle, after, term, output.head, output.tail, pages);
                    }
                    match prefix {
                        None => {
                            strand_chain(begun, after, term, set_head, set_tail, pages, remaining);
                            assert(front + wrote =~= wrote);
                        },
                        Some(cut) => {
                            stretch_goes_on(
                                begun,
                                after,
                                term,
                                head,
                                cut.boundary,
                                k,
                                new_head,
                                set_tail,
                                remaining,
                            );
                            if new_head != NO_BLOCK {
                                strand_chain(
                                    begun,
                                    after,
                                    term,
                                    new_head,
                                    new_tail,
                                    pages,
                                    (remaining - k) as u32,
                                );
                            } else {
                                assert(front + wrote =~= front);
                            }
                        },
                    }
                    assert(chain_list(after, term, set_head, set_tail, remaining) == Some(
                        front + wrote,
                    ));
                } else {
                    assert(front + wrote =~= Seq::empty());
                    assert(seq![entry.first] + (front + wrote) =~= seq![entry.first]);
                }
                assert(entry_list(after, moved) == Some(seq![entry.first] + (front + wrote)));
            }
        }
    }
}

/// A stretch stays as long as posting pages do.
proof fn stretch_kept(
    before: StoreModel,
    after: StoreModel,
    term: TermRef,
    block: u32,
    end: u32,
    k: nat,
)
    requires
        grew(before, after),
        stretch(before, term, block, end, k) is Some,
        forall|p: int|
            #![trigger before.pages[p]]
            0 <= p < before.pages.len() && before.pages[p].holds_postings() ==> after.pages[p]
                == before.pages[p],
    ensures
        stretch(after, term, block, end, k) == stretch(before, term, block, end, k),
    decreases k,
{
    let image = before.load_posting(block, term)->Ok_0;
    assert(before.pages[block as int].holds_postings());
    assert(after.load_posting(block, term) == before.load_posting(block, term));
    if k > 1 {
        stretch_kept(before, after, term, image.next()->Ok_0, end, (k - 1) as nat);
    }
}

/// References are known and live alike where owner pages are the same.
proof fn known_alike(before: StoreModel, after: StoreModel, list: Seq<OwnerRef>)
    requires
        owners_kept(before, after),
        all_known(before, list),
    ensures
        all_known(after, list),
        live(after, list) == live(before, list),
        forall|i: int|
            0 <= i < list.len() ==> after.resolved(#[trigger] list[i]) == before.resolved(list[i]),
    decreases list.len(),
{
    assert forall|i: int| 0 <= i < list.len() implies after.resolved(#[trigger] list[i])
        == before.resolved(list[i]) by {
        let page = list[i].page;
        assert(before.resolved(list[i]) is Ok);
        assert(after.pages[page as int] == before.pages[page as int]);
        assert(after.load(page, PageKind::Owners) == before.load(page, PageKind::Owners));
    }
    if list.len() > 0 {
        let rest = list.drop_first();
        assert forall|i: int| 0 <= i < rest.len() implies before.resolved(#[trigger] rest[i]) is Ok by {
            assert(rest[i] == list[i + 1]);
        }
        known_alike(before, after, rest);
        assert(after.resolved(list[0]) == before.resolved(list[0]));
    }
}

/// Whether the metadata is that of the relation, and every page fits.
pub open spec fn searched(model: StoreModel, meta: Image) -> bool {
    &&& model.load(0, PageKind::Meta) == Ok::<Image, Error>(meta)
    &&& tidy(model, meta)
}

/// Whether a step left what a term leads to, and all owners.
pub open spec fn leads_alike(
    before: StoreModel,
    meta: Image,
    after: StoreModel,
    spent: Image,
    text: Seq<u8>,
) -> bool {
    &&& searched(after, spent)
    &&& owners_kept(before, after)
    &&& spent.owner_chain() == meta.owner_chain()
    &&& leading(before, meta, text) ==> leading(after, spent, text) && live(
        after,
        references_of(after, spent, text)->Some_0,
    ) == live(before, references_of(before, meta, text)->Some_0)
}

/// Such steps follow each other.
proof fn alike_joins(
    first: StoreModel,
    one: Image,
    second: StoreModel,
    two: Image,
    third: StoreModel,
    three: Image,
    text: Seq<u8>,
)
    requires
        leads_alike(first, one, second, two, text),
        leads_alike(second, two, third, three, text),
    ensures
        leads_alike(first, one, third, three, text),
{
    owners_kept_joins(first, second, third);
}

/// Rewriting the chain of a term leaves what every term leads to.
#[verifier::rlimit(80)]
#[verifier::spinoff_prover]
proof fn term_rewrite_leads(
    model: StoreModel,
    meta: Image,
    mode: CompactMode,
    entry: TermModel,
    found: ChainStats,
    stats: CompactStats,
    text: Seq<u8>,
)
    requires
        searched(model, meta),
        entry.head != NO_BLOCK,
        inspected(
            model,
            entry.reference,
            entry.head,
            entry.tail,
            Some(entry.first),
            true,
        ) == Ok::<ChainStats, Error>(found),
        term_rewritten(model, meta, mode, entry, found, stats).value is Ok,
    ensures
        ({
            let step = term_rewritten(model, meta, mode, entry, found, stats);
            leads_alike(model, meta, step.model, step.value->Ok_0.1, text)
        }),
{
    let term = entry.reference;
    let size = model.pages.len() as u32;
    let prefix = if mode == CompactMode::RetainSealedPrefix {
        found.prefix
    } else {
        None
    };
    let n = inspected_ends(
        model,
        term,
        entry.head,
        entry.tail,
        size,
        Some(entry.first),
        true,
        no_chain(true),
    );
    let (k, left) = prefix_cuts(
        model,
        term,
        entry.head,
        entry.tail,
        size,
        Some(entry.first),
        true,
        no_chain(true),
    );
    chain_known(
        model,
        term,
        entry.head,
        entry.tail,
        size,
        Some(entry.first),
        no_chain(true),
    );
    let withdrawn = frontier_withdrawn(model, meta);
    let begun = withdrawn.model;
    let spent = withdrawn.value->Ok_0;
    assert(directory_kept(meta, spent)) by {
        directory_stays(meta, spent);
    }
    assert(tidy(begun, spent)) by {
        assert(pages_fit(begun)) by {
            assert forall|p: int|
                0 <= p < begun.pages.len() && (#[trigger] begun.pages[p]).kind
                    != PageKind::Meta implies begun.pages[p].bytes.len() <= CAPACITY by {
                assert(model.pages[p].kind != PageKind::Meta ==> model.pages[p].bytes.len()
                    <= CAPACITY);
            }
        }
    }
    assert(crate::mutable::insertion::lists_kept(model, meta, begun, spent));
    assert(owners_kept(model, begun));
    let list = references_of(model, meta, text)->Some_0;
    let chain = chain_list(model, term, entry.head, entry.tail, size)->Some_0;
    if leading(model, meta, text) {
        crate::mutable::insertion::lists_stay(model, meta, begun, spent, text);
        known_alike(model, begun, list);
    }
    known_alike(model, begun, chain);
    crate::mutable::linking::chain_kept(model, begun, term, entry.head, entry.tail, size, size);
    if let Some(cut) = prefix {
        assert(cut_at(model, term, entry.head, entry.tail, size, cut, k, left));
        stretch_kept(model, begun, term, entry.head, cut.boundary, k);
        crate::mutable::linking::chain_kept(
            model,
            begun,
            term,
            cut.rewrite_head,
            entry.tail,
            left,
            left,
        );
        assert(model.pages[cut.boundary as int].holds_postings());
        assert(cut_at(begun, term, entry.head, entry.tail, size, cut, k, left));
    }
    let direct = mode == CompactMode::DirectTid;
    let replaced = rewritten(begun, spent, term, entry.head, entry.tail, prefix, direct);
    rewrite_lists(begun, spent, term, entry.head, entry.tail, prefix, direct, k, left, text);
    let middle = replaced.model;
    recovery_lists(middle, text);
    let after = recovered(middle).model;
    if leading(model, meta, text) {
        let more = references_of(middle, middle.pages[0], text)->Some_0;
        known_alike(begun, middle, more);
        known_alike(middle, after, more);
    }
    owners_kept_joins(model, begun, middle);
    owners_kept_joins(model, middle, after);
    assert(after.load(0, PageKind::Meta) == Ok::<Image, Error>(after.pages[0]));
}

/// Compacting a term leaves what every term leads to.
proof fn term_compacts(
    model: StoreModel,
    meta: Image,
    mode: CompactMode,
    bucket: int,
    entry: TermModel,
    stats: CompactStats,
    text: Seq<u8>,
)
    requires
        searched(model, meta),
        term_compacted(model, meta, mode, bucket, entry, stats).value is Ok,
    ensures
        ({
            let step = term_compacted(model, meta, mode, bucket, entry, stats);
            leads_alike(model, meta, step.model, step.value->Ok_0.1, text)
        }),
{
    if entry.head != NO_BLOCK {
        let found = inspected(
            model,
            entry.reference,
            entry.head,
            entry.tail,
            Some(entry.first),
            true,
        )->Ok_0;
        if crate::mutable::compact::needs_rewrite(found, mode) {
            term_rewrite_leads(model, meta, mode, entry, found, stats, text);
        }
    }
}

proof fn terms_compact(
    model: StoreModel,
    meta: Image,
    mode: CompactMode,
    bucket: int,
    outcomes: Seq<Result<TermModel>>,
    stats: CompactStats,
    text: Seq<u8>,
)
    requires
        searched(model, meta),
        terms_compacted(model, meta, mode, bucket, outcomes, stats).value is Ok,
    ensures
        ({
            let step = terms_compacted(model, meta, mode, bucket, outcomes, stats);
            leads_alike(model, meta, step.model, step.value->Ok_0.1, text)
        }),
    decreases outcomes.len(),
{
    if outcomes.len() > 0 {
        let entry = outcomes[0]->Ok_0;
        let step = term_compacted(model, meta, mode, bucket, entry, stats);
        term_compacts(model, meta, mode, bucket, entry, stats, text);
        let (counted, spent) = step.value->Ok_0;
        let rest = outcomes.drop_first();
        terms_compact(step.model, spent, mode, bucket, rest, counted, text);
        let end = terms_compacted(step.model, spent, mode, bucket, rest, counted);
        alike_joins(model, meta, step.model, spent, end.model, end.value->Ok_0.1, text);
    }
}

proof fn bucket_compacts(
    model: StoreModel,
    meta: Image,
    mode: CompactMode,
    bucket: int,
    block: u32,
    tail: u32,
    stats: CompactStats,
    text: Seq<u8>,
)
    requires
        searched(model, meta),
        bucket_compacted(model, meta, mode, bucket, block, tail, stats).value is Ok,
    ensures
        ({
            let step = bucket_compacted(model, meta, mode, bucket, block, tail, stats);
            leads_alike(model, meta, step.model, step.value->Ok_0.1, text)
        }),
    decreases tail - block,
{
    let dictionary = model.load(block, PageKind::Dictionary)->Ok_0;
    let outcomes = dictionary.terms()->Ok_0;
    let step = terms_compacted(model, meta, mode, bucket, outcomes, stats);
    terms_compact(model, meta, mode, bucket, outcomes, stats, text);
    let (counted, spent) = step.value->Ok_0;
    if let Some(next) = crate::mutable::store::following_of(dictionary, tail)->Ok_0 {
        if block < next <= tail {
            bucket_compacts(step.model, spent, mode, bucket, next, tail, counted, text);
            let end = bucket_compacted(step.model, spent, mode, bucket, next, tail, counted);
            alike_joins(model, meta, step.model, spent, end.model, end.value->Ok_0.1, text);
        }
    }
}

proof fn buckets_compact(
    model: StoreModel,
    meta: Image,
    mode: CompactMode,
    bucket: int,
    stats: CompactStats,
    text: Seq<u8>,
)
    requires
        searched(model, meta),
        buckets_compacted(model, meta, mode, bucket, stats).value is Ok,
    ensures
        ({
            let after = buckets_compacted(model, meta, mode, bucket, stats).model;
            leads_alike(model, meta, after, after.pages[0], text)
        }),
    decreases 512 - bucket,
{
    if bucket < 512 {
        let (head, tail) = meta.bucket(bucket)->Ok_0;
        if head == NO_BLOCK {
            buckets_compact(model, meta, mode, bucket + 1, stats, text);
        } else {
            let step = bucket_compacted(model, meta, mode, bucket, head, tail, stats);
            bucket_compacts(model, meta, mode, bucket, head, tail, stats, text);
            let (counted, spent) = step.value->Ok_0;
            buckets_compact(step.model, spent, mode, bucket + 1, counted, text);
            let after = buckets_compacted(step.model, spent, mode, bucket + 1, counted).model;
            alike_joins(model, meta, step.model, spent, after, after.pages[0], text);
        }
    }
}

/// Compaction leaves what a term leads to, and all owners.
proof fn compaction_leads(model: StoreModel, mode: CompactMode, text: Seq<u8>)
    requires
        searched(model, model.pages[0]),
        compacted(model, mode).value is Ok,
    ensures
        ({
            let after = compacted(model, mode).model;
            leads_alike(model, model.pages[0], after, after.pages[0], text)
        }),
{
    let meta = model.pages[0];
    recovery_lists(model, text);
    let middle = recovered(model).model;
    if leading(model, meta, text) {
        let list = references_of(model, meta, text)->Some_0;
        known_alike(model, middle, list);
    }
    assert(leads_alike(model, meta, middle, middle.pages[0], text));
    let stats = CompactStats {
        reclaimed_pages: recovered(model).value->Ok_0,
        ..crate::mutable::compact::no_stats()
    };
    buckets_compact(middle, middle.pages[0], mode, 0, stats, text);
    let after = compacted(model, mode).model;
    alike_joins(model, meta, middle, middle.pages[0], after, after.pages[0], text);
}

/// Compaction leaves every owner page as it was, and the list of all owners.
pub proof fn compaction_keeps_owners(model: StoreModel, mode: CompactMode)
    requires
        searched(model, model.pages[0]),
        compacted(model, mode).value is Ok,
    ensures
        ({
            let after = compacted(model, mode).model;
            &&& owners_kept(model, after)
            &&& all_owners(model, model.pages[0]) is Some ==> all_owners(after, after.pages[0])
                == all_owners(model, model.pages[0])
        }),
{
    let after = compacted(model, mode).model;
    compaction_leads(model, mode, Seq::empty());
    if let Ok((head, tail)) = model.pages[0].owner_chain() {
        if head != NO_BLOCK && roster(model, head, tail) is Some {
            roster_kept(model, after, head, tail);
        }
    }
}

/// A scan of a term gives after a compaction what it gave before, in order.
pub proof fn compaction_keeps_terms<T: RootItem>(
    model: StoreModel,
    mode: CompactMode,
    text: Seq<u8>,
)
    requires
        tidy(model, model.pages[0]),
        compacted(model, mode).value is Ok,
        model.term_walk::<T>(model.pages[0], text).end is Ok,
    ensures
        ({
            let after = compacted(model, mode).model;
            &&& after.load(0, PageKind::Meta) == Ok::<Image, Error>(after.pages[0])
            &&& after.term_walk::<T>(after.pages[0], text) == model.term_walk::<T>(
                model.pages[0],
                text,
            )
        }),
{
    let after = compacted(model, mode).model;
    term_walked::<T>(model, model.pages[0], text);
    let list = references_of(model, model.pages[0], text)->Some_0;
    list_resolves::<T>(model, list);
    assert(model.load(0, PageKind::Meta) == Ok::<Image, Error>(model.pages[0]));
    compaction_leads(model, mode, text);
    let more = references_of(after, after.pages[0], text)->Some_0;
    term_walked::<T>(after, after.pages[0], text);
    live_walk::<T>(model, list);
    live_walk::<T>(after, more);
    let kept = live(model, list);
    live_known(model, list);
    known_alike(model, after, kept);
    list_alike::<T>(model, after, kept);
}

proof fn terms_are_kept<T: RootItem>(model: StoreModel, mode: CompactMode, terms: Seq<&str>)
    requires
        tidy(model, model.pages[0]),
        compacted(model, mode).value is Ok,
        model.terms_walk::<T>(model.pages[0], terms).end is Ok,
    ensures
        ({
            let after = compacted(model, mode).model;
            after.terms_walk::<T>(after.pages[0], terms) == model.terms_walk::<T>(
                model.pages[0],
                terms,
            )
        }),
    decreases terms.len(),
{
    if terms.len() > 0 {
        compaction_keeps_terms::<T>(model, mode, text_bytes(terms[0]));
        terms_are_kept::<T>(model, mode, terms.drop_first());
    }
}

/// Compaction keeps what is found: every scan that found its way before gives
/// the same roots in the same order.
pub proof fn compaction_keeps_scans<T: RootItem>(
    model: StoreModel,
    mode: CompactMode,
    plan: CandidatePlan<'_>,
)
    requires
        tidy(model, model.pages[0]),
        compacted(model, mode).value is Ok,
        model.plan_walk::<T>(plan).end is Ok,
    ensures
        compacted(model, mode).model.plan_walk::<T>(plan) == model.plan_walk::<T>(plan),
{
    let after = compacted(model, mode).model;
    let none = Seq::<u8>::empty();
    assert(model.load(0, PageKind::Meta) == Ok::<Image, Error>(model.pages[0]));
    compaction_leads(model, mode, none);
    match plan {
        CandidatePlan::Empty => {},
        CandidatePlan::Universe => {
            let pick = |owner: OwnerModel| T::of(owner.root, true);
            universe_walked(model, model.pages[0], pick);
            universe_walked(after, after.pages[0], pick);
            let (head, tail) = model.pages[0].owner_chain()->Ok_0;
            if head != NO_BLOCK {
                roster_kept(model, after, head, tail);
            }
        },
        CandidatePlan::Terms(terms) => {
            terms_are_kept::<T>(model, mode, terms@);
        },
    }
}

} // verus!
