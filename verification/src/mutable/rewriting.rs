//! What a rewrite writes: the live references of a chain, in order.

use crate::codec::bytes::{group_bytes, le_u16, le_u16_of_bytes, le_u32, le_u32_of_bytes, splice_u32, u16_bytes, u32_bytes};
use crate::error::{Error, Result};
use crate::identity::{group_identity, RootTid};
use crate::mutable::compact::{
    chain_written, empty_sealed, output_finished, output_persisted, output_started,
    reference_written, references_written, sealed_finished, sealed_pushed, Output,
};
use crate::mutable::linking::grew;
use crate::mutable::listing::{chain_list, page_decodes, page_references, pages_fit};
use crate::mutable::page::laws::{
    direct_holds, direct_push_decodes, sealed_holds, sealed_push_decodes,
};
use crate::mutable::page::model::{
    journal_code, posting_outcomes, Image, RewriteJournal, RewritePhase, BUCKETS, CAPACITY,
};
use crate::mutable::page::postings::SealedModel;
use crate::mutable::page::{OwnerRef, PageKind, TermRef, NO_BLOCK};
use crate::mutable::recovery::{directory_kept, directory_stays};
use crate::mutable::steps::block_taken;
use crate::mutable::store::{posting_next_of, stored, StoreModel};
use vstd::prelude::*;

verus! {

broadcast use {group_bytes, group_identity};

/// Whether a page is one that a rewrite must not touch.
pub open spec fn settled(image: Image) -> bool {
    image.kind == PageKind::Dictionary || image.kind == PageKind::Owners || image.holds_postings()
}

/// Whether a block is free for the output of a rewrite that began with a relation.
pub open spec fn open_block(begun: StoreModel, block: u32) -> bool {
    block != 0 && (block < begun.pages.len() ==> !settled(begun.pages[block as int]))
}

/// Whether the metadata page and the metadata at hand can be told from others,
/// and every page fits.
pub open spec fn roomy(model: StoreModel, meta: Image) -> bool {
    &&& 0 < model.pages.len() <= NO_BLOCK
    &&& meta.kind == PageKind::Meta
    &&& meta.block == 0
    &&& 4160 <= meta.bytes.len()
    &&& model.pages[0].kind == PageKind::Meta
    &&& pages_fit(model)
}

/// Whether a rewrite has kept all that was there.
pub open spec fn undisturbed(
    begun: StoreModel,
    first: Image,
    model: StoreModel,
    meta: Image,
) -> bool {
    &&& grew(begun, model)
    &&& roomy(model, meta)
    &&& directory_kept(first, meta)
    &&& forall|p: int|
        #![trigger begun.pages[p]]
        0 <= p < begun.pages.len() && settled(begun.pages[p]) ==> model.pages[p] == begun.pages[p]
}

/// The references of the `n` output pages from `block` to `tail`.
pub open spec fn strand(
    begun: StoreModel,
    model: StoreModel,
    term: TermRef,
    block: u32,
    tail: u32,
    n: nat,
) -> Option<Seq<OwnerRef>>
    decreases n,
{
    if n == 0 || !model.has(block) || !open_block(begun, block) {
        None
    } else {
        let image = model.pages[block as int];
        if image.posting_term() != Ok::<TermRef, Error>(term) || image.next() is Err {
            None
        } else if n == 1 {
            if block == tail {
                Some(page_references(image))
            } else {
                None
            }
        } else if block == tail || image.next()->Ok_0 == NO_BLOCK {
            None
        } else {
            match strand(begun, model, term, image.next()->Ok_0, tail, (n - 1) as nat) {
                None => None,
                Some(rest) => Some(page_references(image) + rest),
            }
        }
    }
}

/// Whether the page under construction holds references.
pub open spec fn builds(builder: SealedModel, term: TermRef, list: Seq<OwnerRef>, direct: bool) -> bool {
    &&& builder.image.posting_term() == Ok::<TermRef, Error>(term)
    &&& builder.image.next() == Ok::<u32, Error>(NO_BLOCK)
    &&& if direct {
        exists|roots: Seq<RootTid>| direct_holds(builder, list, roots)
    } else {
        sealed_holds(builder, list)
    }
}

/// A finished page lists the references that it was built of.
pub proof fn built_lists(builder: SealedModel, term: TermRef, list: Seq<OwnerRef>, direct: bool)
    requires
        builds(builder, term, list, direct),
        list.len() > 0,
    ensures
        page_references(builder.image) == list,
        page_references(stored(builder.image)) == list,
        builder.image.bytes.len() <= CAPACITY,
        builder.count > 0,
{
    let ok = |owner: OwnerRef| Ok::<OwnerRef, Error>(owner);
    let image = builder.image;
    if direct {
        let roots = choose|roots: Seq<RootTid>| direct_holds(builder, list, roots);
        assert(direct_holds(builder, list, roots));
    }
    assert(image.posting_stream()->Ok_0.outcomes() == list.map_values(ok));
    assert(page_references(image) =~= list);
    assert(page_references(stored(image)) =~= list);
}

/// One more reference is held behind the others.
#[verifier::rlimit(40)]
pub proof fn push_builds(
    builder: SealedModel,
    term: TermRef,
    list: Seq<OwnerRef>,
    owner: OwnerRef,
    root: RootTid,
    direct: bool,
)
    requires
        builds(builder, term, list, direct),
        sealed_pushed(builder, owner, root, direct) matches Ok(Some(_)),
        owner.incarnation.get() != 0,
    ensures
        builds(
            sealed_pushed(builder, owner, root, direct)->Ok_0->Some_0,
            term,
            list.push(owner),
            direct,
        ),
        sealed_pushed(builder, owner, root, direct)->Ok_0->Some_0.image.block
            == builder.image.block,
{
    let after = sealed_pushed(builder, owner, root, direct)->Ok_0->Some_0;
    let bytes = builder.image.bytes;
    if direct {
        let roots = choose|roots: Seq<RootTid>| direct_holds(builder, list, roots);
        assert(direct_holds(builder, list, roots));
        direct_push_decodes(builder, list, roots, owner, root);
        assert(direct_holds(after, list.push(owner), roots.push(root)));
    } else {
        sealed_push_decodes(builder, list, owner);
    }
    assert forall|i: int| 0 <= i < 22 implies after.image.bytes[i] == #[trigger] bytes[i] by {}
    reveal(le_u16);
    reveal(le_u32);
    assert(le_u32(after.image.bytes, 12) == le_u32(bytes, 12));
    assert(le_u32(after.image.bytes, 16) == le_u32(bytes, 16));
    assert(le_u16(after.image.bytes, 20) == le_u16(bytes, 20));
}

/// A new page holds nothing yet.
#[verifier::rlimit(40)]
pub proof fn empty_builds(block: u32, term: TermRef, direct: bool)
    requires
        empty_sealed(block, term, direct) is Ok,
    ensures
        builds(empty_sealed(block, term, direct)->Ok_0, term, Seq::empty(), direct),
        empty_sealed(block, term, direct)->Ok_0.image.block == block,
        block != 0,
{
    let builder = empty_sealed(block, term, direct)->Ok_0;
    let bytes = builder.image.bytes;
    assert(bytes.subrange(12, 16) =~= u32_bytes(NO_BLOCK));
    assert(bytes.subrange(16, 20) =~= u32_bytes(term.page));
    assert(bytes.subrange(20, 22) =~= u16_bytes(term.offset));
    le_u32_of_bytes(bytes, 12, NO_BLOCK);
    le_u32_of_bytes(bytes, 16, term.page);
    le_u16_of_bytes(bytes, 20, term.offset);
    let none = Seq::<OwnerRef>::empty();
    let ok = |owner: OwnerRef| Ok::<OwnerRef, Error>(owner);
    if direct {
        let stream = bytes.subrange(56, bytes.len() as int);
        assert(posting_outcomes(stream, 0, true, 0, None) =~= none.map_values(ok));
        assert(direct_holds(builder, none, Seq::<RootTid>::empty()));
    } else {
        let stream = bytes.subrange(24, bytes.len() as int);
        assert(posting_outcomes(stream, 0, true, 0, None) =~= none.map_values(ok));
        assert(sealed_holds(builder, none));
    }
}

/// Output pages stay as long as nothing on their strand changes.
pub proof fn strand_kept(
    begun: StoreModel,
    before: StoreModel,
    after: StoreModel,
    term: TermRef,
    block: u32,
    tail: u32,
    n: nat,
)
    requires
        grew(before, after),
        strand(begun, before, term, block, tail, n) is Some,
        forall|p: int|
            #![trigger before.pages[p]]
            0 <= p < before.pages.len() && before.pages[p].posting_term() == Ok::<TermRef, Error>(
                term,
            ) && open_block(begun, p as u32) ==> after.pages[p] == before.pages[p],
    ensures
        strand(begun, after, term, block, tail, n) == strand(begun, before, term, block, tail, n),
    decreases n,
{
    let image = before.pages[block as int];
    assert(after.pages[block as int] == image);
    if n > 1 {
        strand_kept(begun, before, after, term, image.next()->Ok_0, tail, (n - 1) as nat);
    }
}

/// The last page of a strand is one of its pages.
pub proof fn strand_tail(
    begun: StoreModel,
    model: StoreModel,
    term: TermRef,
    block: u32,
    tail: u32,
    n: nat,
)
    requires
        strand(begun, model, term, block, tail, n) is Some,
    ensures
        model.has(tail),
        open_block(begun, tail),
        model.pages[tail as int].posting_term() == Ok::<TermRef, Error>(term),
    decreases n,
{
    if n > 1 {
        strand_tail(
            begun,
            model,
            term,
            model.pages[block as int].next()->Ok_0,
            tail,
            (n - 1) as nat,
        );
    }
}

/// A page that is linked behind the last one makes its references the last ones.
pub proof fn strand_extended(
    begun: StoreModel,
    before: StoreModel,
    after: StoreModel,
    term: TermRef,
    block: u32,
    tail: u32,
    n: nat,
    last: u32,
)
    requires
        grew(before, after),
        strand(begun, before, term, block, tail, n) is Some,
        last != NO_BLOCK,
        before.has(last),
        after.has(last),
        open_block(begun, last),
        !before.pages[last as int].holds_postings(),
        after.pages[last as int].posting_term() == Ok::<TermRef, Error>(term),
        after.pages[last as int].next() is Ok,
        after.pages[tail as int].posting_term() == Ok::<TermRef, Error>(term),
        after.pages[tail as int].next() == Ok::<u32, Error>(last),
        page_references(after.pages[tail as int]) == page_references(before.pages[tail as int]),
        forall|p: int|
            #![trigger before.pages[p]]
            0 <= p < before.pages.len() && p != tail && before.pages[p].holds_postings()
                ==> after.pages[p] == before.pages[p],
    ensures
        strand(begun, after, term, block, last, n + 1) == Some(
            strand(begun, before, term, block, tail, n)->Some_0 + page_references(
                after.pages[last as int],
            ),
        ),
    decreases n,
{
    let image = before.pages[block as int];
    let added = page_references(after.pages[last as int]);
    assert(block != last);
    if n > 1 {
        let next = image.next()->Ok_0;
        strand_extended(begun, before, after, term, next, tail, (n - 1) as nat, last);
        let rest = strand(begun, before, term, next, tail, (n - 1) as nat)->Some_0;
        assert(page_references(image) + (rest + added) =~= (page_references(image) + rest) + added);
    } else {
        assert(strand(begun, after, term, last, last, 1) == Some(added));
    }
}

/// A chain over output pages lists what the strand lists.
pub proof fn strand_chain(
    begun: StoreModel,
    model: StoreModel,
    term: TermRef,
    block: u32,
    tail: u32,
    n: nat,
    remaining: u32,
)
    requires
        strand(begun, model, term, block, tail, n) is Some,
        chain_list(model, term, block, tail, remaining) is Some,
    ensures
        chain_list(model, term, block, tail, remaining) == strand(
            begun,
            model,
            term,
            block,
            tail,
            n,
        ),
    decreases n,
{
    let image = model.load_posting(block, term)->Ok_0;
    assert(image == model.pages[block as int]);
    if n > 1 {
        strand_chain(
            begun,
            model,
            term,
            image.next()->Ok_0,
            tail,
            (n - 1) as nat,
            (remaining - 1) as u32,
        );
    }
}

/// How far a rewrite has come: output pages that list `done`, and a page under
/// construction that holds `cur`.
#[verifier::opaque]
pub open spec fn writing(
    begun: StoreModel,
    first: Image,
    model: StoreModel,
    meta: Image,
    term: TermRef,
    output: Output,
    n: nat,
    done: Seq<OwnerRef>,
    cur: Seq<OwnerRef>,
    direct: bool,
) -> bool {
    &&& undisturbed(begun, first, model, meta)
    &&& meta.rewrite_journal() matches Ok(journal) && (match journal {
        None => n == 0 && done.len() == 0,
        Some(journal) => journal.phase == RewritePhase::Building && strand(
            begun,
            model,
            term,
            journal.head,
            journal.tail,
            n,
        ) == Some(done),
    })
    &&& match output.builder {
        None => cur.len() == 0,
        Some(builder) => {
            &&& builds(builder, term, cur, direct)
            &&& cur.len() > 0
            &&& open_block(begun, builder.image.block)
            &&& model.has(builder.image.block)
            &&& !settled(model.pages[builder.image.block as int])
        },
    }
}

/// A rewrite keeps all that was there.
pub proof fn writing_keeps(
    begun: StoreModel,
    first: Image,
    model: StoreModel,
    meta: Image,
    term: TermRef,
    output: Output,
    n: nat,
    done: Seq<OwnerRef>,
    cur: Seq<OwnerRef>,
    direct: bool,
)
    requires
        writing(begun, first, model, meta, term, output, n, done, cur, direct),
    ensures
        undisturbed(begun, first, model, meta),
{
    reveal(writing);
}

/// A journal reads back, and leaves the directory.
pub proof fn journal_reads_back(meta: Image, journal: RewriteJournal)
    requires
        meta.kind == PageKind::Meta,
        meta.bytes.len() >= 4160,
        meta.with_journal(Some(journal)) is Ok,
    ensures
        ({
            let after = meta.with_journal(Some(journal))->Ok_0;
            &&& after.rewrite_journal() == Ok::<Option<RewriteJournal>, Error>(Some(journal))
            &&& directory_kept(meta, after)
        }),
{
    let after = meta.with_journal(Some(journal))->Ok_0;
    let code = journal_code(Some(journal));
    let phase: u32 = match journal.phase {
        RewritePhase::Building => 1,
        RewritePhase::Retiring => 2,
    };
    assert(code.len() == 12);
    assert(after.bytes.subrange(52, 56) =~= u32_bytes(journal.head));
    assert(after.bytes.subrange(56, 60) =~= u32_bytes(journal.tail));
    assert(after.bytes.subrange(60, 64) =~= u32_bytes(phase));
    le_u32_of_bytes(after.bytes, 52, journal.head);
    le_u32_of_bytes(after.bytes, 56, journal.tail);
    le_u32_of_bytes(after.bytes, 60, phase);
    directory_stays(meta, after);
}

/// Another link of a posting page leaves its term and its references.
pub proof fn linked_postings(image: Image, next: u32)
    requires
        image.holds_postings(),
        image.bytes.len() >= 24,
        image.with_next(next) is Ok,
    ensures
        ({
            let after = stored(image.with_next(next)->Ok_0);
            &&& after.posting_term() == image.posting_term()
            &&& page_references(after) == page_references(image)
            &&& after.next() == Ok::<u32, Error>(next)
            &&& after.bytes.len() == image.bytes.len()
        }),
{
    let linked = image.with_next(next)->Ok_0;
    let after = stored(linked);
    let len = image.bytes.len() as int;
    splice_u32(image.bytes, 12, next);
    reveal(le_u16);
    reveal(le_u32);
    assert(le_u32(after.bytes, 16) == le_u32(image.bytes, 16));
    assert(le_u16(after.bytes, 20) == le_u16(image.bytes, 20));
    assert(le_u16(after.bytes, 22) == le_u16(image.bytes, 22));
    assert(after.bytes.subrange(24, len) =~= image.bytes.subrange(24, len));
    let start = 56 + le_u16(image.bytes, 22) * 8;
    if start <= len {
        assert(after.bytes.subrange(start, len) =~= image.bytes.subrange(start, len));
    }
    assert(after.posting_stream() == image.posting_stream());
}

/// The directory stays through two changes.
pub proof fn directory_joins(one: Image, two: Image, three: Image)
    requires
        directory_kept(one, two),
        directory_kept(two, three),
    ensures
        directory_kept(one, three),
{
    assert forall|k: int| 0 <= k < BUCKETS implies #[trigger] three.bucket(k) == one.bucket(k) by {
        assert(two.bucket(k) == one.bucket(k));
    }
}

/// Storing the page under construction adds its references to the output.
#[verifier::rlimit(60)]
#[verifier::spinoff_prover]
pub proof fn persisting_writes(
    begun: StoreModel,
    first: Image,
    model: StoreModel,
    meta: Image,
    term: TermRef,
    output: Output,
    n: nat,
    done: Seq<OwnerRef>,
    cur: Seq<OwnerRef>,
    direct: bool,
)
    requires
        writing(begun, first, model, meta, term, output, n, done, cur, direct),
        output.builder is Some,
        output_persisted(model, meta, output.builder->Some_0.image).value is Ok,
    ensures
        ({
            let step = output_persisted(model, meta, output.builder->Some_0.image);
            writing(
                begun,
                first,
                step.model,
                step.value->Ok_0,
                term,
                Output { builder: None, ..output },
                n + 1,
                done + cur,
                Seq::empty(),
                direct,
            ) && step.model.pages[0] == stored(step.value->Ok_0)
        }),
{
    reveal(writing);
    let builder = output.builder->Some_0;
    let page = builder.image;
    let step = output_persisted(model, meta, page);
    let after = step.model;
    let spent = step.value->Ok_0;
    built_lists(builder, term, cur, direct);
    let kept = stored(page);
    assert(kept.posting_term() == page.posting_term());
    assert(kept.next() == page.next());
    match meta.rewrite_journal()->Ok_0 {
        None => {
            let journal = RewriteJournal {
                head: page.block,
                tail: page.block,
                phase: RewritePhase::Building,
            };
            journal_reads_back(meta, journal);
            directory_joins(first, meta, spent);
            assert(after.pages[page.block as int] == kept);
            assert(strand(begun, after, term, page.block, page.block, 1) == Some(cur));
            assert(done + cur =~= cur);
        },
        Some(journal) => {
            let last = model.load_posting(journal.tail, term)->Ok_0;
            let linked = last.with_next(page.block)->Ok_0;
            assert(last == model.pages[journal.tail as int]);
            strand_tail(begun, model, term, journal.head, journal.tail, n);
            linked_postings(last, page.block);
            let more = RewriteJournal { tail: page.block, ..journal };
            journal_reads_back(meta, more);
            directory_joins(first, meta, spent);
            assert(after.pages[page.block as int] == kept);
            assert(after.pages[journal.tail as int] == stored(linked));
            strand_extended(
                begun,
                model,
                after,
                term,
                journal.head,
                journal.tail,
                n,
                page.block,
            );
        },
    }
    assert(pages_fit(after)) by {
        assert forall|p: int|
            0 <= p < after.pages.len() && (#[trigger] after.pages[p]).kind
                != PageKind::Meta implies after.pages[p].bytes.len() <= CAPACITY by {
            assert(model.pages[p].kind != PageKind::Meta ==> model.pages[p].bytes.len() <= CAPACITY);
        }
    }
    assert forall|p: int|
        #![trigger begun.pages[p]]
        0 <= p < begun.pages.len() && settled(begun.pages[p]) implies after.pages[p]
        == begun.pages[p] by {
        assert(model.pages[p] == begun.pages[p]);
        assert(p != 0);
        assert(p != page.block);
    }
}

/// Starting a page with a reference.
#[verifier::rlimit(60)]
#[verifier::spinoff_prover]
pub proof fn starting_writes(
    begun: StoreModel,
    first: Image,
    model: StoreModel,
    meta: Image,
    term: TermRef,
    output: Output,
    n: nat,
    done: Seq<OwnerRef>,
    owner: OwnerRef,
    root: RootTid,
    direct: bool,
)
    requires
        writing(begun, first, model, meta, term, output, n, done, Seq::empty(), direct),
        output.builder is None,
        output_started(model, meta, term, output, owner, root, direct).value is Ok,
        owner.incarnation.get() != 0,
    ensures
        ({
            let step = output_started(model, meta, term, output, owner, root, direct);
            let (next, spent) = step.value->Ok_0;
            writing(
                begun,
                first,
                step.model,
                spent,
                term,
                next,
                n,
                done,
                seq![owner],
                direct,
            )
        }),
{
    reveal(writing);
    let step = output_started(model, meta, term, output, owner, root, direct);
    let (next, spent) = step.value->Ok_0;
    let after = step.model;
    let (block, _) = block_taken(model, meta).value->Ok_0;
    let empty = empty_sealed(block, term, direct)->Ok_0;
    empty_builds(block, term, direct);
    push_builds(empty, term, Seq::empty(), owner, root, direct);
    assert(Seq::<OwnerRef>::empty().push(owner) =~= seq![owner]);
    if meta.free_head()->Ok_0 != NO_BLOCK {
        directory_stays(meta, spent);
        directory_joins(first, meta, spent);
        assert(spent.rewrite_journal() == meta.rewrite_journal()) by {
            reveal(le_u32);
            assert(le_u32(spent.bytes, 52) == le_u32(meta.bytes, 52));
            assert(le_u32(spent.bytes, 56) == le_u32(meta.bytes, 56));
            assert(le_u32(spent.bytes, 60) == le_u32(meta.bytes, 60));
        }
        assert(model.pages[block as int].kind == PageKind::Free);
    }
    assert(pages_fit(after)) by {
        assert forall|p: int|
            0 <= p < after.pages.len() && (#[trigger] after.pages[p]).kind
                != PageKind::Meta implies after.pages[p].bytes.len() <= CAPACITY by {
            if p < model.pages.len() {
                assert(model.pages[p].kind != PageKind::Meta ==> model.pages[p].bytes.len() <= CAPACITY);
            }
        }
    }
    if let Some(journal) = meta.rewrite_journal()->Ok_0 {
        strand_kept(begun, model, after, term, journal.head, journal.tail, n);
    }
}

/// Whether a reference leads to a searchable owner.
pub open spec fn leads(model: StoreModel, owner: OwnerRef) -> bool {
    model.resolved(owner) matches Ok(Some(_))
}

/// The references of a list that lead to searchable owners.
pub open spec fn live(model: StoreModel, list: Seq<OwnerRef>) -> Seq<OwnerRef>
    decreases list.len(),
{
    if list.len() == 0 {
        Seq::empty()
    } else if leads(model, list[0]) {
        seq![list[0]] + live(model, list.drop_first())
    } else {
        live(model, list.drop_first())
    }
}

/// Lists that follow each other keep their live references in order.
pub proof fn live_join(model: StoreModel, left: Seq<OwnerRef>, right: Seq<OwnerRef>)
    ensures
        live(model, left + right) == live(model, left) + live(model, right),
    decreases left.len(),
{
    if left.len() == 0 {
        assert(left + right =~= right);
        assert(live(model, left) + live(model, right) =~= live(model, right));
    } else {
        assert((left + right).drop_first() =~= left.drop_first() + right);
        live_join(model, left.drop_first(), right);
        if leads(model, left[0]) {
            assert(seq![left[0]] + (live(model, left.drop_first()) + live(model, right)) =~= (seq![
                left[0],
            ] + live(model, left.drop_first())) + live(model, right));
        }
    }
}

/// Whether every reference of a list leads to an owner, searchable or not.
pub open spec fn all_known(model: StoreModel, list: Seq<OwnerRef>) -> bool {
    forall|i: int| 0 <= i < list.len() ==> model.resolved(#[trigger] list[i]) is Ok
}

/// Owners resolve as they did while a rewrite goes on.
pub proof fn resolves_alike(
    begun: StoreModel,
    first: Image,
    model: StoreModel,
    meta: Image,
    owner: OwnerRef,
)
    requires
        undisturbed(begun, first, model, meta),
        begun.resolved(owner) is Ok,
    ensures
        model.resolved(owner) == begun.resolved(owner),
        owner.incarnation.get() != 0,
{
    assert(settled(begun.pages[owner.page as int]));
    assert(model.pages[owner.page as int] == begun.pages[owner.page as int]);
    assert(model.load(owner.page, PageKind::Owners) == begun.load(owner.page, PageKind::Owners));
}

/// Writing a reference adds it to the output.
#[verifier::rlimit(60)]
#[verifier::spinoff_prover]
pub proof fn reference_writes(
    begun: StoreModel,
    first: Image,
    model: StoreModel,
    meta: Image,
    term: TermRef,
    output: Output,
    n: nat,
    done: Seq<OwnerRef>,
    cur: Seq<OwnerRef>,
    owner: OwnerRef,
    root: RootTid,
    direct: bool,
) -> (next: (nat, Seq<OwnerRef>, Seq<OwnerRef>))
    requires
        writing(begun, first, model, meta, term, output, n, done, cur, direct),
        reference_written(model, meta, term, output, owner, root, direct).value is Ok,
        owner.incarnation.get() != 0,
    ensures
        ({
            let step = reference_written(model, meta, term, output, owner, root, direct);
            let (more, spent) = step.value->Ok_0;
            &&& writing(
                begun,
                first,
                step.model,
                spent,
                term,
                more,
                next.0,
                next.1,
                next.2,
                direct,
            )
            &&& next.1 + next.2 == (done + cur).push(owner)
        }),
{
    reveal(writing);
    match output.builder {
        None => {
            assert(cur =~= Seq::empty());
            starting_writes(begun, first, model, meta, term, output, n, done, owner, root, direct);
            assert(done + seq![owner] =~= (done + cur).push(owner));
            (n, done, seq![owner])
        },
        Some(builder) => {
            match sealed_pushed(builder, owner, root, direct)->Ok_0 {
                Some(_) => {
                    push_builds(builder, term, cur, owner, root, direct);
                    assert(done + cur.push(owner) =~= (done + cur).push(owner));
                    (n, done, cur.push(owner))
                },
                None => {
                    persisting_writes(
                        begun,
                        first,
                        model,
                        meta,
                        term,
                        output,
                        n,
                        done,
                        cur,
                        direct,
                    );
                    let stored_step = output_persisted(model, meta, builder.image);
                    let next = Output {
                        builder: None,
                        written: (output.written + 1) as u32,
                        ..output
                    };
                    starting_writes(
                        begun,
                        first,
                        stored_step.model,
                        stored_step.value->Ok_0,
                        term,
                        next,
                        n + 1,
                        done + cur,
                        owner,
                        root,
                        direct,
                    );
                    assert((done + cur) + seq![owner] =~= (done + cur).push(owner));
                    (n + 1, done + cur, seq![owner])
                },
            }
        },
    }
}

/// Writing the references of a page adds the live ones to the output.
#[verifier::rlimit(60)]
#[verifier::spinoff_prover]
pub proof fn references_write(
    begun: StoreModel,
    first: Image,
    model: StoreModel,
    meta: Image,
    term: TermRef,
    output: Output,
    n: nat,
    done: Seq<OwnerRef>,
    cur: Seq<OwnerRef>,
    list: Seq<OwnerRef>,
    direct: bool,
) -> (next: (nat, Seq<OwnerRef>, Seq<OwnerRef>))
    requires
        writing(begun, first, model, meta, term, output, n, done, cur, direct),
        all_known(begun, list),
        references_written(
            model,
            meta,
            term,
            output,
            list.map_values(|owner: OwnerRef| Ok::<OwnerRef, Error>(owner)),
            direct,
        ).value is Ok,
    ensures
        ({
            let step = references_written(
                model,
                meta,
                term,
                output,
                list.map_values(|owner: OwnerRef| Ok::<OwnerRef, Error>(owner)),
                direct,
            );
            let (more, spent) = step.value->Ok_0;
            &&& writing(
                begun,
                first,
                step.model,
                spent,
                term,
                more,
                next.0,
                next.1,
                next.2,
                direct,
            )
            &&& next.1 + next.2 == (done + cur) + live(begun, list)
        }),
    decreases list.len(),
{
    writing_keeps(begun, first, model, meta, term, output, n, done, cur, direct);
    let ok = |owner: OwnerRef| Ok::<OwnerRef, Error>(owner);
    let outcomes = list.map_values(ok);
    if list.len() == 0 {
        assert((done + cur) + live(begun, list) =~= done + cur);
        (n, done, cur)
    } else {
        let owner = list[0];
        let rest = list.drop_first();
        assert(outcomes[0] == Ok::<OwnerRef, Error>(owner));
        assert(outcomes.drop_first() =~= rest.map_values(ok));
        assert(begun.resolved(owner) is Ok);
        resolves_alike(begun, first, model, meta, owner);
        assert forall|i: int| 0 <= i < rest.len() implies begun.resolved(#[trigger] rest[i]) is Ok by {
            assert(rest[i] == list[i + 1]);
        }
        match model.resolved(owner)->Ok_0 {
            None => references_write(
                begun,
                first,
                model,
                meta,
                term,
                output,
                n,
                done,
                cur,
                rest,
                direct,
            ),
            Some(root) => {
                let step = reference_written(model, meta, term, output, owner, root, direct);
                let (more, spent) = step.value->Ok_0;
                let (n2, done2, cur2) = reference_writes(
                    begun,
                    first,
                    model,
                    meta,
                    term,
                    output,
                    n,
                    done,
                    cur,
                    owner,
                    root,
                    direct,
                );
                let end = references_write(
                    begun,
                    first,
                    step.model,
                    spent,
                    term,
                    more,
                    n2,
                    done2,
                    cur2,
                    rest,
                    direct,
                );
                assert((done + cur).push(owner) + live(begun, rest) =~= (done + cur) + (seq![owner]
                    + live(begun, rest)));
                end
            },
        }
    }
}

/// Writing the references of a chain adds the live ones to the output.
#[verifier::rlimit(60)]
#[verifier::spinoff_prover]
pub proof fn chain_writes(
    begun: StoreModel,
    first: Image,
    model: StoreModel,
    meta: Image,
    term: TermRef,
    output: Output,
    n: nat,
    done: Seq<OwnerRef>,
    cur: Seq<OwnerRef>,
    block: u32,
    tail: u32,
    remaining: u32,
    direct: bool,
) -> (next: (nat, Seq<OwnerRef>, Seq<OwnerRef>))
    requires
        writing(begun, first, model, meta, term, output, n, done, cur, direct),
        chain_list(begun, term, block, tail, remaining) matches Some(list) && all_known(begun, list),
        chain_written(model, meta, term, output, block, tail, remaining, direct).value is Ok,
    ensures
        ({
            let step = chain_written(model, meta, term, output, block, tail, remaining, direct);
            let (more, spent) = step.value->Ok_0;
            let list = chain_list(begun, term, block, tail, remaining)->Some_0;
            &&& writing(
                begun,
                first,
                step.model,
                spent,
                term,
                more,
                next.0,
                next.1,
                next.2,
                direct,
            )
            &&& next.1 + next.2 == (done + cur) + live(begun, list)
        }),
    decreases remaining,
{
    writing_keeps(begun, first, model, meta, term, output, n, done, cur, direct);
    let image = begun.load_posting(block, term)->Ok_0;
    assert(settled(begun.pages[block as int]));
    assert(model.pages[block as int] == begun.pages[block as int]);
    assert(model.load_posting(block, term) == begun.load_posting(block, term));
    page_decodes(begun, block, term);
    let list = chain_list(begun, term, block, tail, remaining)->Some_0;
    let here = page_references(image);
    assert forall|i: int| 0 <= i < here.len() implies begun.resolved(#[trigger] here[i]) is Ok by {
        assert(here[i] == list[i]);
    }
    let (n2, done2, cur2) = references_write(
        begun,
        first,
        model,
        meta,
        term,
        output,
        n,
        done,
        cur,
        here,
        direct,
    );
    let outcomes = image.posting_stream()->Ok_0.outcomes();
    let step = references_written(model, meta, term, output, outcomes, direct);
    let (more, spent) = step.value->Ok_0;
    match posting_next_of(image, tail, remaining)->Ok_0 {
        None => (n2, done2, cur2),
        Some(next) => {
            let left = (remaining - 1) as u32;
            let rest = chain_list(begun, term, next, tail, left)->Some_0;
            assert forall|i: int| 0 <= i < rest.len() implies begun.resolved(#[trigger] rest[i])
                is Ok by {
                assert(rest[i] == list[here.len() + i]);
            }
            let end = chain_writes(
                begun,
                first,
                step.model,
                spent,
                term,
                more,
                n2,
                done2,
                cur2,
                next,
                tail,
                left,
                direct,
            );
            live_join(begun, here, rest);
            assert(((done + cur) + live(begun, here)) + live(begun, rest) =~= (done + cur) + (live(
                begun,
                here,
            ) + live(begun, rest)));
            end
        },
    }
}

/// Finished output lists what was written.
pub proof fn finishing_writes(
    begun: StoreModel,
    first: Image,
    model: StoreModel,
    meta: Image,
    term: TermRef,
    output: Output,
    n: nat,
    done: Seq<OwnerRef>,
    cur: Seq<OwnerRef>,
    direct: bool,
) -> (pages: nat)
    requires
        writing(begun, first, model, meta, term, output, n, done, cur, direct),
        output_finished(model, meta, output).value is Ok,
    ensures
        ({
            let step = output_finished(model, meta, output);
            writing(
                begun,
                first,
                step.model,
                step.value->Ok_0.2,
                term,
                Output { builder: None, ..output },
                pages,
                done + cur,
                Seq::empty(),
                direct,
            )
        }),
{
    reveal(writing);
    if output.builder is Some {
        persisting_writes(begun, first, model, meta, term, output, n, done, cur, direct);
        n + 1
    } else {
        assert(cur =~= Seq::empty());
        assert(done + cur =~= done);
        n
    }
}

/// A page of references that are pushed one after the other; nothing where one
/// of them does not fit.
pub open spec fn sealed_of(
    block: u32,
    term: TermRef,
    owners: Seq<OwnerRef>,
    roots: Seq<RootTid>,
    direct: bool,
) -> Result<Option<SealedModel>>
    decreases owners.len(),
{
    if owners.len() == 0 {
        match empty_sealed(block, term, direct) {
            Err(error) => Err(error),
            Ok(builder) => Ok(Some(builder)),
        }
    } else {
        match sealed_of(block, term, owners.drop_last(), roots.drop_last(), direct) {
            Ok(Some(builder)) => sealed_pushed(builder, owners.last(), roots.last(), direct),
            other => other,
        }
    }
}

proof fn sealed_of_builds(
    block: u32,
    term: TermRef,
    owners: Seq<OwnerRef>,
    roots: Seq<RootTid>,
    direct: bool,
)
    requires
        sealed_of(block, term, owners, roots, direct) matches Ok(Some(_)),
        forall|i: int| 0 <= i < owners.len() ==> (#[trigger] owners[i]).incarnation.get() != 0,
    ensures
        builds(sealed_of(block, term, owners, roots, direct)->Ok_0->Some_0, term, owners, direct),
        sealed_of(block, term, owners, roots, direct)->Ok_0->Some_0.image.block == block,
    decreases owners.len(),
{
    if owners.len() == 0 {
        empty_builds(block, term, direct);
        assert(owners =~= Seq::empty());
    } else {
        let front = owners.drop_last();
        sealed_of_builds(block, term, front, roots.drop_last(), direct);
        let builder = sealed_of(block, term, front, roots.drop_last(), direct)->Ok_0->Some_0;
        assert(owners[owners.len() - 1].incarnation.get() != 0);
        push_builds(builder, term, front, owners.last(), roots.last(), direct);
        assert(front.push(owners.last()) =~= owners);
    }
}

/// A finished page belongs to its term and lists exactly the references that
/// were pushed, in order.
pub proof fn sealed_page_lists_pushed(
    block: u32,
    term: TermRef,
    owners: Seq<OwnerRef>,
    roots: Seq<RootTid>,
    direct: bool,
)
    requires
        owners.len() > 0,
        sealed_of(block, term, owners, roots, direct) matches Ok(Some(_)),
        forall|i: int| 0 <= i < owners.len() ==> (#[trigger] owners[i]).incarnation.get() != 0,
    ensures
        sealed_finished(sealed_of(block, term, owners, roots, direct)->Ok_0->Some_0) matches Ok(
            page,
        ) && (page.block == block && page.posting_term() == Ok::<TermRef, Error>(term)
            && page_references(page) == owners),
{
    sealed_of_builds(block, term, owners, roots, direct);
    built_lists(
        sealed_of(block, term, owners, roots, direct)->Ok_0->Some_0,
        term,
        owners,
        direct,
    );
}

} // verus!
