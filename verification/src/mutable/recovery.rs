//! What reclaiming the pages of a journal leaves for searches.

use crate::codec::bytes::{group_bytes, le_u32, u32_bytes};
use crate::error::Error;
use crate::identity::group_identity;
use crate::mutable::compact::{
    chain_inspected, journal_term, owners_kept, pages_reclaimed, recovered, ChainStats,
};
use crate::mutable::linking::grew;
use crate::mutable::linking_terms::{other_entry_kept, other_postings_kept, shelf_untouched};
use crate::mutable::listing::{
    chain_list, entry_list, entry_of, pages_fit, references_of, term_found_listed, term_shelf,
};
use crate::mutable::page::model::{
    free_image, term_bucket, Image, RewriteJournal, TermModel, BUCKETS, CAPACITY,
};
use crate::mutable::page::{OwnerRef, PageKind, TermRef, NO_BLOCK};
use crate::mutable::store::{posting_next_of, StoreModel};
use vstd::prelude::*;

verus! {

broadcast use {group_bytes, group_identity};

/// Whether a posting chain of `n` pages leads from `block` to its end at `tail`.
pub open spec fn ends_in(model: StoreModel, term: TermRef, block: u32, tail: u32, n: nat) -> bool
    decreases n,
{
    &&& n > 0
    &&& model.load_posting(block, term) matches Ok(image) && (image.next() matches Ok(next) && (if n
        == 1 {
        block == tail && next == NO_BLOCK
    } else {
        block != tail && next != NO_BLOCK && ends_in(model, term, next, tail, (n - 1) as nat)
    }))
}

/// Whether a page is one of the `n` from `block` on.
pub open spec fn passes(model: StoreModel, term: TermRef, block: u32, n: nat, p: u32) -> bool
    decreases n,
{
    n > 0 && (block == p || (n > 1 && passes(
        model,
        term,
        model.load_posting(block, term)->Ok_0.next()->Ok_0,
        (n - 1) as nat,
        p,
    )))
}

/// From a page there is one end, and one way to it.
pub proof fn one_end(
    model: StoreModel,
    term: TermRef,
    block: u32,
    left: u32,
    n: nat,
    right: u32,
    m: nat,
)
    requires
        ends_in(model, term, block, left, n),
        ends_in(model, term, block, right, m),
    ensures
        left == right,
        n == m,
    decreases n,
{
    if n > 1 {
        let next = model.load_posting(block, term)->Ok_0.next()->Ok_0;
        one_end(model, term, next, left, (n - 1) as nat, right, (m - 1) as nat);
    }
}

/// A page on a chain leads to the end of the chain.
pub proof fn passed_ends(model: StoreModel, term: TermRef, block: u32, tail: u32, n: nat, p: u32) -> (k:
    nat)
    requires
        ends_in(model, term, block, tail, n),
        passes(model, term, block, n, p),
    ensures
        k <= n,
        block != p ==> k < n,
        ends_in(model, term, p, tail, k),
    decreases n,
{
    if block == p {
        n
    } else {
        let next = model.load_posting(block, term)->Ok_0.next()->Ok_0;
        passed_ends(model, term, next, tail, (n - 1) as nat, p)
    }
}

/// A chain stays as long as its pages do.
pub proof fn ends_kept(
    before: StoreModel,
    after: StoreModel,
    term: TermRef,
    block: u32,
    tail: u32,
    n: nat,
)
    requires
        grew(before, after),
        ends_in(before, term, block, tail, n),
        forall|p: u32|
            #[trigger] passes(before, term, block, n, p) && before.has(p) ==> after.pages[p as int]
                == before.pages[p as int],
    ensures
        ends_in(after, term, block, tail, n),
        forall|p: u32| #[trigger] passes(after, term, block, n, p) == passes(before, term, block, n, p),
        forall|fewer: u32, more: u32|
            fewer <= more && (#[trigger] chain_list(before, term, block, tail, fewer)) is Some
                ==> #[trigger] chain_list(after, term, block, tail, more) == chain_list(
                before,
                term,
                block,
                tail,
                fewer,
            ),
    decreases n,
{
    assert(passes(before, term, block, n, block));
    let image = before.load_posting(block, term)->Ok_0;
    let next = image.next()->Ok_0;
    assert(after.load_posting(block, term) == before.load_posting(block, term));
    if n > 1 {
        assert forall|p: u32|
            #[trigger] passes(before, term, next, (n - 1) as nat, p) && before.has(p) implies after.pages[
        p as int] == before.pages[p as int] by {
            assert(passes(before, term, block, n, p));
        }
        ends_kept(before, after, term, next, tail, (n - 1) as nat);
    }
    assert forall|p: u32| #[trigger] passes(after, term, block, n, p) == passes(
        before,
        term,
        block,
        n,
        p,
    ) by {
        if n > 1 {
            assert(passes(after, term, next, (n - 1) as nat, p) == passes(
                before,
                term,
                next,
                (n - 1) as nat,
                p,
            ));
        }
    }
    assert forall|fewer: u32, more: u32|
        fewer <= more && (#[trigger] chain_list(before, term, block, tail, fewer))
            is Some implies #[trigger] chain_list(after, term, block, tail, more) == chain_list(
        before,
        term,
        block,
        tail,
        fewer,
    ) by {
        if n > 1 {
            assert(chain_list(before, term, next, tail, (fewer - 1) as u32) is Some);
            assert(chain_list(after, term, next, tail, (more - 1) as u32) == chain_list(
                before,
                term,
                next,
                tail,
                (fewer - 1) as u32,
            ));
        }
    }
}

/// A chain that was inspected ends where it should, and lists its references.
pub proof fn inspected_ends(
    model: StoreModel,
    term: TermRef,
    block: u32,
    tail: u32,
    remaining: u32,
    previous: Option<OwnerRef>,
    liveness: bool,
    stats: ChainStats,
) -> (n: nat)
    requires
        chain_inspected(model, term, block, tail, remaining, previous, liveness, stats) is Ok,
    ensures
        ends_in(model, term, block, tail, n),
        chain_list(model, term, block, tail, remaining) is Some,
        n <= remaining,
    decreases remaining,
{
    let image = model.load_posting(block, term)->Ok_0;
    let stream = image.posting_stream()->Ok_0;
    let (last, dead) = crate::mutable::compact::references_inspected(
        model,
        stream.outcomes(),
        previous,
        liveness,
    )->Ok_0;
    match posting_next_of(image, tail, remaining)->Ok_0 {
        None => 1,
        Some(next) => {
            let n = inspected_ends(
                model,
                term,
                next,
                tail,
                (remaining - 1) as u32,
                last,
                liveness,
                stats.with_page(block, image.kind, dead),
            );
            assert(image.block == block);
            n + 1
        },
    }
}

/// Another journal or free list leaves the directory of the metadata.
pub open spec fn directory_kept(meta: Image, spent: Image) -> bool {
    &&& spent.kind == meta.kind
    &&& spent.block == meta.block
    &&& spent.bytes.len() >= 4160
    &&& spent.owner_chain() == meta.owner_chain()
    &&& forall|k: int| 0 <= k < BUCKETS ==> #[trigger] spent.bucket(k) == meta.bucket(k)
}

/// Bytes between the owner chain and the directory do not matter to either.
pub proof fn directory_stays(meta: Image, spent: Image)
    requires
        meta.kind == PageKind::Meta,
        meta.bytes.len() >= 4160,
        spent.kind == meta.kind,
        spent.block == meta.block,
        spent.bytes.len() >= 4160,
        forall|i: int|
            (40 <= i < 48 || 64 <= i < 4160) ==> spent.bytes[i] == #[trigger] meta.bytes[i],
    ensures
        directory_kept(meta, spent),
{
    reveal(le_u32);
    assert(le_u32(spent.bytes, 40) == le_u32(meta.bytes, 40));
    assert(le_u32(spent.bytes, 44) == le_u32(meta.bytes, 44));
    assert forall|k: int| 0 <= k < BUCKETS implies #[trigger] spent.bucket(k) == meta.bucket(k) by {
        assert(le_u32(spent.bytes, 64 + k * 8) == le_u32(meta.bytes, 64 + k * 8));
        assert(le_u32(spent.bytes, 68 + k * 8) == le_u32(meta.bytes, 68 + k * 8));
    }
}

/// Whether the metadata at hand is that of the relation, and every page fits.
pub open spec fn tidy(model: StoreModel, meta: Image) -> bool {
    &&& 0 < model.pages.len() <= NO_BLOCK
    &&& meta.kind == PageKind::Meta
    &&& meta.block == 0
    &&& meta.bytes.len() >= 4160
    &&& model.pages[0].kind == PageKind::Meta
    &&& model.pages[0].block == 0
    &&& model.pages[0].bytes == meta.bytes
    &&& pages_fit(model)
}

/// Whether a step over the pages of a term kept everything else: owners, the
/// dictionary, other postings and the directory.
pub open spec fn confined(
    before: StoreModel,
    meta: Image,
    after: StoreModel,
    spent: Image,
    term: TermRef,
) -> bool {
    &&& grew(before, after)
    &&& tidy(after, spent)
    &&& directory_kept(meta, spent)
    &&& owners_kept(before, after)
    &&& other_postings_kept(before, after, term)
    &&& forall|p: int|
        #![trigger before.pages[p]]
        0 <= p < before.pages.len() && before.pages[p].kind == PageKind::Dictionary
            ==> after.pages[p] == before.pages[p]
}

/// The metadata page reads as the metadata at hand.
pub proof fn confined_page(
    before: StoreModel,
    meta: Image,
    after: StoreModel,
    spent: Image,
    term: TermRef,
)
    requires
        confined(before, meta, after, spent, term),
    ensures
        confined(before, meta, after, after.pages[0], term),
{
    let page = after.pages[0];
    assert(page.owner_chain() == spent.owner_chain());
    assert forall|k: int| 0 <= k < BUCKETS implies #[trigger] page.bucket(k) == meta.bucket(k) by {
        assert(spent.bucket(k) == meta.bucket(k));
    }
}

/// Such steps follow each other.
pub proof fn confined_joins(
    first: StoreModel,
    one: Image,
    second: StoreModel,
    two: Image,
    third: StoreModel,
    three: Image,
    term: TermRef,
)
    requires
        confined(first, one, second, two, term),
        confined(second, two, third, three, term),
    ensures
        confined(first, one, third, three, term),
{
    assert forall|k: int| 0 <= k < BUCKETS implies #[trigger] three.bucket(k) == one.bucket(k) by {
        assert(two.bucket(k) == one.bucket(k));
    }
    assert forall|p: int|
        #![trigger first.pages[p]]
        0 <= p < first.pages.len() && first.pages[p].kind
            == PageKind::Dictionary implies third.pages[p] == first.pages[p] by {
        assert(second.pages[p] == first.pages[p]);
    }
    assert forall|p: int|
        #![trigger first.pages[p]]
        0 <= p < first.pages.len() && first.pages[p].holds_postings()
            && first.pages[p].posting_term() != Ok::<TermRef, Error>(
            term,
        ) implies third.pages[p] == first.pages[p] by {
        assert(second.pages[p] == first.pages[p]);
    }
    assert forall|i: int|
        0 <= i < first.pages.len() && first.pages[i].kind
            == PageKind::Owners implies #[trigger] third.pages[i] == first.pages[i] by {
        assert(second.pages[i] == first.pages[i]);
    }
}

/// What of the metadata another journal leaves.
proof fn journal_apart(meta: Image, journal: Option<RewriteJournal>, free: u32)
    requires
        meta.kind == PageKind::Meta,
        meta.bytes.len() >= 4160,
        meta.with_journal(journal) is Ok,
        meta.with_journal(journal)->Ok_0.with_free_head(free) is Ok,
    ensures
        directory_kept(meta, meta.with_journal(journal)->Ok_0),
        directory_kept(meta, meta.with_journal(journal)->Ok_0.with_free_head(free)->Ok_0),
{
    let first = meta.with_journal(journal)->Ok_0;
    let second = first.with_free_head(free)->Ok_0;
    let code = crate::mutable::page::model::journal_code(journal);
    assert(code.len() == 12);
    directory_stays(meta, first);
    directory_stays(meta, second);
}

/// Freeing pages of a term is confined to that term.
proof fn freeing_is_confined(
    model: StoreModel,
    meta: Image,
    after: StoreModel,
    spent: Image,
    term: TermRef,
    first: u32,
    second: u32,
)
    requires
        tidy(model, meta),
        directory_kept(meta, spent),
        after.layout == model.layout,
        after.pages.len() == model.pages.len(),
        after.pages[0] == crate::mutable::store::stored(spent),
        model.load_posting(first, term) is Ok,
        model.load_posting(second, term) is Ok,
        after.pages[first as int].bytes.len() <= CAPACITY,
        after.pages[second as int].bytes.len() <= CAPACITY,
        forall|p: int|
            0 < p < model.pages.len() && p != first && p != second ==> #[trigger] after.pages[p]
                == model.pages[p],
    ensures
        confined(model, meta, after, spent, term),
{
    assert(model.pages[first as int].holds_postings());
    assert(model.pages[second as int].holds_postings());
    assert(pages_fit(after)) by {
        assert forall|p: int|
            0 <= p < after.pages.len() && (#[trigger] after.pages[p]).kind
                != PageKind::Meta implies after.pages[p].bytes.len() <= CAPACITY by {
            assert(model.pages[p].kind != PageKind::Meta ==> model.pages[p].bytes.len() <= CAPACITY);
        }
    }
}

/// A chain that ends elsewhere shares no page with another one.
proof fn chains_apart(
    model: StoreModel,
    term: TermRef,
    block: u32,
    end: u32,
    n: nat,
    head: u32,
    tail: u32,
    m: nat,
    p: u32,
)
    requires
        ends_in(model, term, block, end, n),
        ends_in(model, term, head, tail, m),
        end != tail,
        passes(model, term, block, n, p),
    ensures
        !passes(model, term, head, m, p),
{
    if passes(model, term, head, m, p) {
        let k = passed_ends(model, term, block, end, n, p);
        let l = passed_ends(model, term, head, tail, m, p);
        one_end(model, term, p, end, k, tail, l);
    }
}

/// Whether a chain and what it lists stayed.
pub open spec fn chain_stays(
    before: StoreModel,
    after: StoreModel,
    term: TermRef,
    head: u32,
    tail: u32,
    m: nat,
) -> bool {
    &&& ends_in(after, term, head, tail, m)
    &&& forall|fewer: u32, more: u32|
        fewer <= more && (#[trigger] chain_list(before, term, head, tail, fewer)) is Some
            ==> #[trigger] chain_list(after, term, head, tail, more) == chain_list(
            before,
            term,
            head,
            tail,
            fewer,
        )
}

/// Reclaiming the pages of a journal spares the chain that ends elsewhere and
/// all other terms, and ends the journal.
#[verifier::rlimit(80)]
#[verifier::spinoff_prover]
pub proof fn reclaiming_spares(
    model: StoreModel,
    meta: Image,
    term: TermRef,
    journal: RewriteJournal,
    block: u32,
    remaining: u32,
    count: int,
    n: nat,
    head: u32,
    tail: u32,
    m: nat,
)
    requires
        tidy(model, meta),
        pages_reclaimed(model, meta, term, journal, block, remaining, count).value is Ok,
        ends_in(model, term, block, journal.tail, n),
        m > 0 ==> ends_in(model, term, head, tail, m) && tail != journal.tail,
    ensures
        ({
            let after = pages_reclaimed(
                model,
                meta,
                term,
                journal,
                block,
                remaining,
                count,
            ).model;
            &&& confined(model, meta, after, after.pages[0], term)
            &&& after.pages[0].rewrite_journal() == Ok::<Option<RewriteJournal>, Error>(None)
            &&& m > 0 ==> chain_stays(model, after, term, head, tail, m)
        }),
    decreases remaining,
{
    let page = model.load_posting(block, term)->Ok_0;
    let free_head = meta.free_head()->Ok_0;
    let free = free_image(block, free_head)->Ok_0;
    let result = pages_reclaimed(model, meta, term, journal, block, remaining, count);
    assert(passes(model, term, block, n, block));
    if m > 0 {
        assert forall|p: u32| passes(model, term, block, n, p) implies !#[trigger] passes(
            model,
            term,
            head,
            m,
            p,
        ) by {
            chains_apart(model, term, block, journal.tail, n, head, tail, m, p);
        }
    }
    match posting_next_of(page, journal.tail, remaining)->Ok_0 {
        None => {
            let left = meta.with_journal(None)->Ok_0;
            let spent = left.with_free_head(block)->Ok_0;
            journal_apart(meta, None, block);
            none_reads_back(meta, block);
            let after = result.model;
            freeing_is_confined(model, meta, after, spent, term, block, block);
            confined_page(model, meta, after, spent, term);
            if m > 0 {
                assert forall|p: u32|
                    #[trigger] passes(model, term, head, m, p) && model.has(
                        p,
                    ) implies after.pages[p as int] == model.pages[p as int] by {
                    assert(p != block);
                    let k = passed_ends(model, term, head, tail, m, p);
                }
                ends_kept(model, after, term, head, tail, m);
            }
        },
        Some(second) => {
            assert(n > 1);
            assert(ends_in(model, term, second, journal.tail, (n - 1) as nat));
            let other = model.load_posting(second, term)->Ok_0;
            assert(passes(model, term, second, (n - 1) as nat, second));
            assert(passes(model, term, block, n, second));
            let more = posting_next_of(other, journal.tail, (remaining - 1) as u32)->Ok_0;
            let rest = match more {
                Some(head) => Some(RewriteJournal { head, ..journal }),
                None => None,
            };
            let left = meta.with_journal(rest)->Ok_0;
            let spent = left.with_free_head(second)->Ok_0;
            journal_apart(meta, rest, second);
            let second_free = free_image(second, block)->Ok_0;
            let step = model.put(spent).put(free).put(second_free);
            freeing_is_confined(model, meta, step, spent, term, block, second);
            if m > 0 {
                assert forall|p: u32|
                    #[trigger] passes(model, term, head, m, p) && model.has(
                        p,
                    ) implies step.pages[p as int] == model.pages[p as int] by {
                    assert(p != block && p != second);
                    let k = passed_ends(model, term, head, tail, m, p);
                }
                ends_kept(model, step, term, head, tail, m);
            }
            match more {
                None => {
                    none_reads_back(meta, second);
                    assert(result.model == step);
                    confined_page(model, meta, step, spent, term);
                },
                Some(next) => {
                    assert(n > 2);
                    let k = (n - 2) as nat;
                    assert(other.next() == Ok::<u32, Error>(next));
                    assert(ends_in(model, term, next, journal.tail, k));
                    assert forall|p: u32|
                        #[trigger] passes(model, term, next, k, p) && model.has(
                            p,
                        ) implies step.pages[p as int] == model.pages[p as int] by {
                        let l = passed_ends(model, term, next, journal.tail, k, p);
                        if p == block {
                            one_end(model, term, block, journal.tail, n, journal.tail, l);
                        }
                        if p == second {
                            one_end(
                                model,
                                term,
                                second,
                                journal.tail,
                                (n - 1) as nat,
                                journal.tail,
                                l,
                            );
                        }
                    }
                    ends_kept(model, step, term, next, journal.tail, k);
                    reclaiming_spares(
                        step,
                        spent,
                        term,
                        journal,
                        next,
                        (remaining - 2) as u32,
                        count + 2,
                        k,
                        head,
                        tail,
                        m,
                    );
                    let after = result.model;
                    assert(after == pages_reclaimed(
                        step,
                        spent,
                        term,
                        journal,
                        next,
                        (remaining - 2) as u32,
                        count + 2,
                    ).model);
                    confined_joins(model, meta, step, spent, after, after.pages[0], term);
                    if m > 0 {
                        assert forall|fewer: u32, more: u32|
                            fewer <= more && (#[trigger] chain_list(model, term, head, tail, fewer))
                                is Some implies #[trigger] chain_list(
                            after,
                            term,
                            head,
                            tail,
                            more,
                        ) == chain_list(model, term, head, tail, fewer) by {
                            assert(chain_list(step, term, head, tail, fewer) == chain_list(
                                model,
                                term,
                                head,
                                tail,
                                fewer,
                            ));
                        }
                    }
                },
            }
        },
    }
}

/// Metadata without a journal reads so.
proof fn none_reads_back(meta: Image, free: u32)
    requires
        meta.kind == PageKind::Meta,
        meta.bytes.len() >= 4160,
        meta.with_journal(None) is Ok,
        meta.with_journal(None)->Ok_0.with_free_head(free) is Ok,
    ensures
        meta.with_journal(None)->Ok_0.with_free_head(free)->Ok_0.rewrite_journal() == Ok::<
            Option<RewriteJournal>,
            Error,
        >(None),
        crate::mutable::store::stored(
            meta.with_journal(None)->Ok_0.with_free_head(free)->Ok_0,
        ).rewrite_journal() == Ok::<Option<RewriteJournal>, Error>(None),
{
    let none: Option<RewriteJournal> = None;
    let after = meta.with_journal(none)->Ok_0.with_free_head(free)->Ok_0;
    let code = crate::mutable::page::model::journal_code(none);
    assert(code.len() == 12);
    reveal(le_u32);
    reveal(u32_bytes);
    assert forall|i: int| 0 <= i < 12 implies code[i] == 0 by {}
    assert(le_u32(after.bytes, 52) == 0);
    assert(le_u32(after.bytes, 56) == 0);
    assert(le_u32(after.bytes, 60) == 0);
}

/// Terms list what they listed where a step over the pages of another term, or
/// of the same one beside its chain, is confined.
pub proof fn confined_lists(
    before: StoreModel,
    meta: Image,
    after: StoreModel,
    spent: Image,
    term: TermRef,
    text: Seq<u8>,
)
    requires
        pages_fit(before),
        confined(before, meta, after, spent, term),
        references_of(before, meta, text) is Some,
        entry_of(term_shelf(before, meta, text)->Some_0, text) matches Some(entry) ==> (
        entry.reference != term || entry_list(after, entry) == entry_list(before, entry)),
    ensures
        references_of(after, spent, text) == references_of(before, meta, text),
        term_shelf(after, spent, text) == term_shelf(before, meta, text),
{
    let bucket = term_bucket(text);
    assert(spent.bucket(bucket) == meta.bucket(bucket));
    shelf_untouched(before, after, meta, text);
    assert(term_shelf(after, spent, text) == term_shelf(after, meta, text));
    if let Some(entry) = entry_of(term_shelf(before, meta, text)->Some_0, text) {
        if entry.reference != term {
            other_entry_kept(before, after, entry, term);
        }
    }
}

/// The entry of a term is the one that its reference reads.
pub proof fn entry_by_reference(model: StoreModel, meta: Image, text: Seq<u8>, term: TermRef)
    requires
        pages_fit(model),
        references_of(model, meta, text) is Some,
        entry_of(term_shelf(model, meta, text)->Some_0, text) matches Some(entry)
            && entry.reference == term,
        model.load(term.page, PageKind::Dictionary) is Ok,
    ensures
        model.load(term.page, PageKind::Dictionary)->Ok_0.term(term) == Ok::<TermModel, Error>(
            entry_of(term_shelf(model, meta, text)->Some_0, text)->Some_0,
        ),
{
    term_found_listed(model, meta, text);
}

/// Recovery leaves what every term lists, and all owners.
pub proof fn recovery_lists(model: StoreModel, text: Seq<u8>)
    requires
        tidy(model, model.pages[0]),
        recovered(model).value is Ok,
    ensures
        ({
            let after = recovered(model).model;
            &&& tidy(after, after.pages[0])
            &&& owners_kept(model, after)
            &&& directory_kept(model.pages[0], after.pages[0])
            &&& after.pages[0].rewrite_journal() == Ok::<Option<RewriteJournal>, Error>(None)
            &&& references_of(model, model.pages[0], text) is Some ==> references_of(
                after,
                after.pages[0],
                text,
            ) == references_of(model, model.pages[0], text)
        }),
{
    let after = recovered(model).model;
    let meta = model.load(0, PageKind::Meta)->Ok_0;
    assert(meta == model.pages[0]);
    if let Some(journal) = meta.rewrite_journal()->Ok_0 {
        let term = journal_term(model, journal)->Ok_0;
        let dictionary = model.load(term.page, PageKind::Dictionary)->Ok_0;
        let active = dictionary.term(term)->Ok_0;
        let remaining = model.pages.len() as u32;
        let stats = crate::mutable::compact::no_chain(false);
        assert(journal.head != NO_BLOCK);
        let n = inspected_ends(
            model,
            term,
            journal.head,
            journal.tail,
            remaining,
            None,
            false,
            stats,
        );
        let m: nat = if active.head != NO_BLOCK {
            inspected_ends(
                model,
                term,
                active.head,
                active.tail,
                remaining,
                Some(active.first),
                false,
                stats,
            )
        } else {
            0
        };
        reclaiming_spares(
            model,
            meta,
            term,
            journal,
            journal.head,
            remaining,
            0,
            n,
            active.head,
            active.tail,
            m,
        );
        if references_of(model, meta, text) is Some {
            if let Some(entry) = entry_of(term_shelf(model, meta, text)->Some_0, text) {
                if entry.reference == term {
                    entry_by_reference(model, meta, text, term);
                    if entry.head != NO_BLOCK {
                        assert(chain_list(model, term, entry.head, entry.tail, remaining) is Some);
                        assert(chain_list(
                            after,
                            term,
                            entry.head,
                            entry.tail,
                            after.pages.len() as u32,
                        ) == chain_list(model, term, entry.head, entry.tail, remaining));
                    }
                }
            }
            confined_lists(model, meta, after, after.pages[0], term, text);
        }
    }
}

/// The blocks of `n` pages of a posting chain from `block` on.
pub open spec fn chain_blocks(model: StoreModel, term: TermRef, block: u32, n: nat) -> Seq<u32>
    decreases n,
{
    if n == 0 {
        Seq::empty()
    } else {
        seq![block] + chain_blocks(
            model,
            term,
            model.load_posting(block, term)->Ok_0.next()->Ok_0,
            (n - 1) as nat,
        )
    }
}

/// Whether blocks are free, each in front of the one before it and the first
/// in front of `rest`.
pub open spec fn freed(model: StoreModel, head: u32, blocks: Seq<u32>, rest: u32) -> bool
    decreases blocks.len(),
{
    if blocks.len() == 0 {
        head == rest
    } else {
        &&& head == blocks.last()
        &&& model.load(head, PageKind::Free) matches Ok(image) && (image.next() matches Ok(next)
            && freed(model, next, blocks.drop_last(), rest))
    }
}

/// Free pages stay where no free page changes.
proof fn freed_kept(
    before: StoreModel,
    after: StoreModel,
    head: u32,
    blocks: Seq<u32>,
    rest: u32,
)
    requires
        grew(before, after),
        freed(before, head, blocks, rest),
        forall|p: int|
            0 <= p < before.pages.len() && before.pages[p].kind == PageKind::Free
                ==> #[trigger] after.pages[p] == before.pages[p],
    ensures
        freed(after, head, blocks, rest),
    decreases blocks.len(),
{
    if blocks.len() > 0 {
        let image = before.load(head, PageKind::Free)->Ok_0;
        assert(after.pages[head as int] == before.pages[head as int]);
        freed_kept(before, after, image.next()->Ok_0, blocks.drop_last(), rest);
    }
}

/// The blocks of a chain stay as long as its pages do.
proof fn blocks_kept(
    before: StoreModel,
    after: StoreModel,
    term: TermRef,
    block: u32,
    tail: u32,
    n: nat,
)
    requires
        grew(before, after),
        ends_in(before, term, block, tail, n),
        forall|p: u32|
            #[trigger] passes(before, term, block, n, p) && before.has(p) ==> after.pages[p as int]
                == before.pages[p as int],
    ensures
        chain_blocks(after, term, block, n) == chain_blocks(before, term, block, n),
    decreases n,
{
    assert(passes(before, term, block, n, block));
    let next = before.load_posting(block, term)->Ok_0.next()->Ok_0;
    assert(after.load_posting(block, term) == before.load_posting(block, term));
    if n > 1 {
        assert forall|p: u32|
            #[trigger] passes(before, term, next, (n - 1) as nat, p) && before.has(
                p,
            ) implies after.pages[p as int] == before.pages[p as int] by {
            assert(passes(before, term, block, n, p));
        }
        blocks_kept(before, after, term, next, tail, (n - 1) as nat);
    } else {
        assert(chain_blocks(after, term, next, 0) =~= chain_blocks(before, term, next, 0));
    }
}

/// A page that was freed reads so.
proof fn free_reads_back(model: StoreModel, block: u32, next: u32)
    requires
        free_image(block, next) is Ok,
        model.has(block),
        model.pages[block as int] == crate::mutable::store::stored(free_image(block, next)->Ok_0),
    ensures
        model.load(block, PageKind::Free) matches Ok(image) && image.next() == Ok::<u32, Error>(
            next,
        ),
{
    let image = model.pages[block as int];
    assert(image.bytes.subrange(12, 16) =~= u32_bytes(next));
    crate::codec::bytes::le_u32_of_bytes(image.bytes, 12, next);
}

/// The free head reads back as it was set.
proof fn free_head_reads_back(meta: Image, journal: Option<RewriteJournal>, free: u32)
    requires
        meta.kind == PageKind::Meta,
        meta.bytes.len() >= 4160,
        meta.with_journal(journal) is Ok,
        meta.with_journal(journal)->Ok_0.with_free_head(free) is Ok,
    ensures
        meta.with_journal(journal)->Ok_0.with_free_head(free)->Ok_0.free_head() == Ok::<u32, Error>(
            free,
        ),
        crate::mutable::store::stored(
            meta.with_journal(journal)->Ok_0.with_free_head(free)->Ok_0,
        ).free_head() == Ok::<u32, Error>(free),
{
    let left = meta.with_journal(journal)->Ok_0;
    let after = left.with_free_head(free)->Ok_0;
    crate::mutable::page::laws::chain_read_back(left, NO_BLOCK, NO_BLOCK, free);
}

/// Reclaiming frees the pages of the journal, one in front of the other, and
/// counts them.
#[verifier::rlimit(80)]
#[verifier::spinoff_prover]
proof fn reclaiming_frees(
    model: StoreModel,
    meta: Image,
    term: TermRef,
    journal: RewriteJournal,
    block: u32,
    remaining: u32,
    count: int,
    n: nat,
    done: Seq<u32>,
    rest: u32,
)
    requires
        tidy(model, meta),
        pages_reclaimed(model, meta, term, journal, block, remaining, count).value is Ok,
        ends_in(model, term, block, journal.tail, n),
        meta.free_head() matches Ok(free) && freed(model, free, done, rest),
    ensures
        ({
            let after = pages_reclaimed(model, meta, term, journal, block, remaining, count);
            &&& after.value == Ok::<u32, Error>((count + n) as u32)
            &&& after.model.pages[0].free_head() matches Ok(free) && freed(
                after.model,
                free,
                done + chain_blocks(model, term, block, n),
                rest,
            )
        }),
    decreases remaining,
{
    let page = model.load_posting(block, term)->Ok_0;
    let free_head = meta.free_head()->Ok_0;
    let free = free_image(block, free_head)->Ok_0;
    let result = pages_reclaimed(model, meta, term, journal, block, remaining, count);
    let all = chain_blocks(model, term, block, n);
    let one = done.push(block);
    assert(one.drop_last() =~= done);
    assert(passes(model, term, block, n, block));
    match posting_next_of(page, journal.tail, remaining)->Ok_0 {
        None => {
            assert(n == 1);
            let after = result.model;
            free_head_reads_back(meta, None, block);
            free_reads_back(after, block, free_head);
            freed_kept(model, after, free_head, done, rest);
            assert(freed(after, block, one, rest));
            assert(chain_blocks(model, term, page.next()->Ok_0, 0) =~= Seq::<u32>::empty());
            assert(done + all =~= one);
        },
        Some(second) => {
            assert(n > 1);
            assert(ends_in(model, term, second, journal.tail, (n - 1) as nat));
            let other = model.load_posting(second, term)->Ok_0;
            assert(passes(model, term, second, (n - 1) as nat, second));
            let more = posting_next_of(other, journal.tail, (remaining - 1) as u32)->Ok_0;
            let left_journal = match more {
                Some(head) => Some(RewriteJournal { head, ..journal }),
                None => None,
            };
            let left = meta.with_journal(left_journal)->Ok_0;
            let spent = left.with_free_head(second)->Ok_0;
            journal_apart(meta, left_journal, second);
            free_head_reads_back(meta, left_journal, second);
            let second_free = free_image(second, block)->Ok_0;
            let step = model.put(spent).put(free).put(second_free);
            freeing_is_confined(model, meta, step, spent, term, block, second);
            if block == second {
                one_end(
                    model,
                    term,
                    block,
                    journal.tail,
                    n,
                    journal.tail,
                    (n - 1) as nat,
                );
            }
            free_reads_back(step, block, free_head);
            free_reads_back(step, second, block);
            freed_kept(model, step, free_head, done, rest);
            let two = one.push(second);
            assert(two.drop_last() =~= one);
            assert(freed(step, block, one, rest));
            assert(freed(step, second, two, rest));
            let tail_blocks = chain_blocks(model, term, second, (n - 1) as nat);
            match more {
                None => {
                    assert(n == 2);
                    assert(result.model == step);
                    assert(chain_blocks(model, term, other.next()->Ok_0, 0) =~= Seq::<u32>::empty());
                    assert(tail_blocks =~= seq![second]);
                    assert(done + all =~= two);
                },
                Some(next) => {
                    assert(n > 2);
                    let k = (n - 2) as nat;
                    assert(other.next() == Ok::<u32, Error>(next));
                    assert(ends_in(model, term, next, journal.tail, k));
                    assert forall|p: u32|
                        #[trigger] passes(model, term, next, k, p) && model.has(
                            p,
                        ) implies step.pages[p as int] == model.pages[p as int] by {
                        let l = passed_ends(model, term, next, journal.tail, k, p);
                        if p == block {
                            one_end(model, term, block, journal.tail, n, journal.tail, l);
                        }
                        if p == second {
                            one_end(
                                model,
                                term,
                                second,
                                journal.tail,
                                (n - 1) as nat,
                                journal.tail,
                                l,
                            );
                        }
                    }
                    ends_kept(model, step, term, next, journal.tail, k);
                    blocks_kept(model, step, term, next, journal.tail, k);
                    reclaiming_frees(
                        step,
                        spent,
                        term,
                        journal,
                        next,
                        (remaining - 2) as u32,
                        count + 2,
                        k,
                        two,
                        rest,
                    );
                    assert(result == pages_reclaimed(
                        step,
                        spent,
                        term,
                        journal,
                        next,
                        (remaining - 2) as u32,
                        count + 2,
                    ));
                    let last = chain_blocks(model, term, next, k);
                    assert(tail_blocks == seq![second] + last);
                    assert(done + all =~= two + last);
                },
            }
        },
    }
}

/// Recovery frees exactly the pages of the journal: their number is what it
/// returns, and they stand in front of the old free list, the last one first.
pub proof fn recovery_frees(model: StoreModel, journal: RewriteJournal) -> (n: nat)
    requires
        tidy(model, model.pages[0]),
        recovered(model).value is Ok,
        model.load(0, PageKind::Meta)->Ok_0.rewrite_journal() == Ok::<
            Option<RewriteJournal>,
            Error,
        >(Some(journal)),
    ensures
        ({
            let term = journal_term(model, journal)->Ok_0;
            let after = recovered(model);
            &&& ends_in(model, term, journal.head, journal.tail, n)
            &&& n <= model.pages.len()
            &&& after.value == Ok::<u32, Error>(n as u32)
            &&& model.pages[0].free_head() matches Ok(rest) && (after.model.pages[0].free_head()
                matches Ok(free) && freed(
                after.model,
                free,
                chain_blocks(model, term, journal.head, n),
                rest,
            ))
        }),
{
    let meta = model.load(0, PageKind::Meta)->Ok_0;
    assert(meta == model.pages[0]);
    let term = journal_term(model, journal)->Ok_0;
    let remaining = model.pages.len() as u32;
    let n = inspected_ends(
        model,
        term,
        journal.head,
        journal.tail,
        remaining,
        None,
        false,
        crate::mutable::compact::no_chain(false),
    );
    let rest = meta.free_head()->Ok_0;
    let none = Seq::<u32>::empty();
    assert(freed(model, rest, none, rest));
    reclaiming_frees(model, meta, term, journal, journal.head, remaining, 0, n, none, rest);
    assert(none + chain_blocks(model, term, journal.head, n) =~= chain_blocks(
        model,
        term,
        journal.head,
        n,
    ));
    n
}

/// After a recovery there is nothing to recover, and another one changes nothing.
pub proof fn recovery_is_done(model: StoreModel)
    requires
        tidy(model, model.pages[0]),
        recovered(model).value is Ok,
        recovered(model).model.load(0, PageKind::Meta) is Ok,
    ensures
        recovered(recovered(model).model).value == Ok::<u32, Error>(0),
        recovered(recovered(model).model).model == recovered(model).model,
{
    let meta = model.load(0, PageKind::Meta)->Ok_0;
    if let Some(journal) = meta.rewrite_journal()->Ok_0 {
        let term = journal_term(model, journal)->Ok_0;
        let remaining = model.pages.len() as u32;
        assert(journal.head != NO_BLOCK);
        let n = inspected_ends(
            model,
            term,
            journal.head,
            journal.tail,
            remaining,
            None,
            false,
            crate::mutable::compact::no_chain(false),
        );
        reclaiming_spares(
            model,
            meta,
            term,
            journal,
            journal.head,
            remaining,
            0,
            n,
            0,
            0,
            0,
        );
    }
}

} // verus!
