//! How linking an owner into dictionary and posting chains changes what they list.

use crate::error::Error;
use crate::identity::group_identity;
use crate::mutable::listing::{chain_list, page_entries, page_references, shelf};
use crate::mutable::page::laws_link::{all_rechained, chain_set, checked_terms_ok, offsets_above, rechained};
use crate::mutable::page::model::{term_bucket, Image, TermModel, CAPACITY};
use crate::mutable::page::{OwnerRef, PageKind, TermRef, NO_BLOCK};
use crate::mutable::store::{following_of, posting_next_of, stored, StoreModel};
use vstd::prelude::*;

verus! {

broadcast use group_identity;

/// Whether every page that holds a piece of a document is as it was.
pub open spec fn pieces_kept(before: StoreModel, after: StoreModel) -> bool {
    &&& after.layout == before.layout
    &&& after.pages.len() >= before.pages.len()
    &&& forall|i: int|
        0 <= i < before.pages.len() && before.pages[i].kind == PageKind::Fragment
            ==> #[trigger] after.pages[i] == before.pages[i]
}

/// Whether a relation grew into another one with the same layout.
pub open spec fn grew(before: StoreModel, after: StoreModel) -> bool {
    &&& after.layout == before.layout
    &&& before.pages.len() <= after.pages.len()
}

/// Whether a dictionary page belongs to another bucket.
pub open spec fn foreign(image: Image, bucket: int) -> bool {
    &&& page_entries(image).len() > 0
    &&& term_bucket(page_entries(image)[0].term) != bucket
}

/// Pages of other buckets do not matter to a dictionary chain.
pub proof fn shelf_kept(before: StoreModel, after: StoreModel, block: u32, tail: u32, bucket: int)
    requires
        grew(before, after),
        shelf(before, block, tail) is Some,
        forall|i: int|
            0 <= i < shelf(before, block, tail)->Some_0.len() ==> term_bucket(
                (#[trigger] shelf(before, block, tail)->Some_0[i]).term,
            ) == bucket,
        forall|p: int|
            #![trigger before.pages[p]]
            0 <= p < before.pages.len() && before.pages[p].kind == PageKind::Dictionary ==> (
            after.pages[p] == before.pages[p] || foreign(before.pages[p], bucket)),
    ensures
        shelf(after, block, tail) == shelf(before, block, tail),
    decreases tail - block,
{
    let image = before.load(block, PageKind::Dictionary)->Ok_0;
    let all = shelf(before, block, tail)->Some_0;
    assert(image == before.pages[block as int]);
    let here = page_entries(image);
    if here.len() > 0 {
        assert(all[0] == here[0]);
    }
    assert(after.load(block, PageKind::Dictionary) == before.load(block, PageKind::Dictionary));
    if let Ok(Some(next)) = following_of(image, tail) {
        let rest = shelf(before, next, tail)->Some_0;
        assert forall|i: int| 0 <= i < rest.len() implies term_bucket((#[trigger] rest[i]).term)
            == bucket by {
            assert(rest[i] == all[here.len() + i]);
        }
        shelf_kept(before, after, next, tail, bucket);
    }
}

/// An entry with another posting chain, where it is the one with the reference.
pub open spec fn relinked(entry: TermModel, term: TermRef, head: u32, tail: u32) -> TermModel {
    if entry.reference == term {
        TermModel { head, tail, ..entry }
    } else {
        entry
    }
}

/// Entries of which one has another posting chain.
pub open spec fn all_relinked(entries: Seq<TermModel>, term: TermRef, head: u32, tail: u32) -> Seq<
    TermModel,
> {
    entries.map_values(|entry: TermModel| relinked(entry, term, head, tail))
}

/// Whether the posting chain of a term was set, and no other dictionary page changed.
pub open spec fn chain_moved(
    before: StoreModel,
    after: StoreModel,
    term: TermRef,
    head: u32,
    tail: u32,
) -> bool {
    &&& grew(before, after)
    &&& before.load(term.page, PageKind::Dictionary) matches Ok(image)
        && (image.with_posting_chain(term, head, tail) matches Ok(changed) && after.pages[
        term.page as int] == stored(changed))
    &&& forall|p: int|
        #![trigger before.pages[p]]
        0 <= p < before.pages.len() && p != term.page && before.pages[p].kind
            == PageKind::Dictionary ==> after.pages[p] == before.pages[p]
    &&& forall|p: int|
        #![trigger before.pages[p]]
        0 <= p < before.pages.len() && before.pages[p].kind != PageKind::Meta
            ==> before.pages[p].bytes.len() <= CAPACITY
}

/// How a dictionary page reads does not depend on whether it is new.
pub proof fn stored_reads(image: Image, layout: crate::identity::HeapLayout)
    requires
        image.kind == PageKind::Dictionary,
        image.check(layout) is Ok,
    ensures
        stored(image).check(layout) is Ok,
        stored(image).terms() == image.terms(),
        stored(image).next() == image.next(),
{
}

/// A term with another posting chain: its page, read through the store.
pub proof fn moved_page(
    before: StoreModel,
    after: StoreModel,
    term: TermRef,
    head: u32,
    tail: u32,
)
    requires
        chain_moved(before, after, term, head, tail),
    ensures
        ({
            let image = before.load(term.page, PageKind::Dictionary)->Ok_0;
            &&& after.load(term.page, PageKind::Dictionary) matches Ok(changed) && (changed.next()
                == image.next() && changed.block == image.block && page_entries(changed)
                == all_relinked(page_entries(image), term, head, tail) && changed.bytes.len()
                == image.bytes.len())
        }),
{
    let image = before.load(term.page, PageKind::Dictionary)->Ok_0;
    assert(image == before.pages[term.page as int]);
    let changed = image.with_posting_chain(term, head, tail)->Ok_0;
    chain_set(image, term, head, tail, before.layout);
    stored_reads(changed, before.layout);
    let outcomes = image.terms()->Ok_0;
    checked_terms_ok(outcomes, 0);
    offsets_above(image.block, image.entries(), 0);
    let entries = page_entries(image);
    let more = page_entries(stored(changed));
    assert forall|i: int| 0 <= i < entries.len() implies #[trigger] more[i] == relinked(
        entries[i],
        term,
        head,
        tail,
    ) by {
        assert(outcomes[i] is Ok);
        assert(outcomes[i]->Ok_0.reference.page == image.block);
        assert(all_rechained(outcomes, term.offset, head, tail)[i] == rechained(
            outcomes[i],
            term.offset,
            head,
            tail,
        ));
    }
    assert(more =~= all_relinked(entries, term, head, tail));
}

/// Setting a posting chain changes that one entry of every dictionary chain.
pub proof fn shelf_relinked(
    before: StoreModel,
    after: StoreModel,
    block: u32,
    last: u32,
    term: TermRef,
    head: u32,
    tail: u32,
)
    requires
        chain_moved(before, after, term, head, tail),
        shelf(before, block, last) is Some,
    ensures
        shelf(after, block, last) == Some(
            all_relinked(shelf(before, block, last)->Some_0, term, head, tail),
        ),
    decreases last - block,
{
    let image = before.load(block, PageKind::Dictionary)->Ok_0;
    assert(image == before.pages[block as int]);
    if block == term.page {
        moved_page(before, after, term, head, tail);
    } else {
        assert(after.load(block, PageKind::Dictionary) == before.load(block, PageKind::Dictionary));
        let entries = page_entries(image);
        checked_terms_ok(image.terms()->Ok_0, 0);
        offsets_above(image.block, image.entries(), 0);
        assert forall|i: int| 0 <= i < entries.len() implies relinked(
            #[trigger] entries[i],
            term,
            head,
            tail,
        ) == entries[i] by {
            assert(image.terms()->Ok_0[i]->Ok_0.reference.page == image.block);
        }
        assert(all_relinked(entries, term, head, tail) =~= entries);
    }
    if let Ok(Some(next)) = following_of(image, last) {
        shelf_relinked(before, after, next, last, term, head, tail);
        let rest = shelf(before, next, last)->Some_0;
        assert(all_relinked(page_entries(image) + rest, term, head, tail) =~= all_relinked(
            page_entries(image),
            term,
            head,
            tail,
        ) + all_relinked(rest, term, head, tail));
    }
}

/// Whether an entry was added to a dictionary page, and no other changed.
pub open spec fn entry_added(
    before: StoreModel,
    after: StoreModel,
    last: u32,
    entry: TermModel,
) -> bool {
    &&& grew(before, after)
    &&& before.load(last, PageKind::Dictionary) matches Ok(image) && (after.load(
        last,
        PageKind::Dictionary,
    ) matches Ok(changed) && page_entries(changed) == page_entries(image).push(entry))
    &&& forall|p: int|
        #![trigger before.pages[p]]
        0 <= p < before.pages.len() && p != last && before.pages[p].kind == PageKind::Dictionary
            ==> after.pages[p] == before.pages[p]
}

/// An entry that is added to the last page comes last on the chain.
pub proof fn shelf_appended(
    before: StoreModel,
    after: StoreModel,
    block: u32,
    last: u32,
    entry: TermModel,
)
    requires
        entry_added(before, after, last, entry),
        shelf(before, block, last) is Some,
    ensures
        shelf(after, block, last) == Some(shelf(before, block, last)->Some_0.push(entry)),
    decreases last - block,
{
    let image = before.load(block, PageKind::Dictionary)->Ok_0;
    assert(image == before.pages[block as int]);
    if block != last {
        assert(after.load(block, PageKind::Dictionary) == before.load(block, PageKind::Dictionary));
        let next = following_of(image, last)->Ok_0->Some_0;
        shelf_appended(before, after, next, last, entry);
        let rest = shelf(before, next, last)->Some_0;
        assert(page_entries(image) + rest.push(entry) =~= (page_entries(image) + rest).push(entry));
    }
}

/// Whether a dictionary page with one entry was linked behind another one.
pub open spec fn page_linked(
    before: StoreModel,
    after: StoreModel,
    last: u32,
    more: u32,
    entry: TermModel,
) -> bool {
    &&& grew(before, after)
    &&& last < more
    &&& before.load(last, PageKind::Dictionary) matches Ok(image) && (after.load(
        last,
        PageKind::Dictionary,
    ) matches Ok(changed) && (page_entries(changed) == page_entries(image) && changed.next() == Ok::<
        u32,
        Error,
    >(more)))
    &&& more != NO_BLOCK
    &&& after.load(more, PageKind::Dictionary) matches Ok(added) && page_entries(added) == seq![
        entry,
    ]
    &&& forall|p: int|
        #![trigger before.pages[p]]
        0 <= p < before.pages.len() && p != last && before.pages[p].kind == PageKind::Dictionary
            ==> after.pages[p] == before.pages[p]
}

/// A page that is linked behind the last one makes its entry the last of the chain.
pub proof fn shelf_extended(
    before: StoreModel,
    after: StoreModel,
    block: u32,
    last: u32,
    more: u32,
    entry: TermModel,
)
    requires
        page_linked(before, after, last, more, entry),
        shelf(before, block, last) is Some,
    ensures
        shelf(after, block, more) == Some(shelf(before, block, last)->Some_0.push(entry)),
    decreases last - block,
{
    let image = before.load(block, PageKind::Dictionary)->Ok_0;
    assert(image == before.pages[block as int]);
    if block != last {
        assert(after.load(block, PageKind::Dictionary) == before.load(block, PageKind::Dictionary));
        let next = following_of(image, last)->Ok_0->Some_0;
        shelf_extended(before, after, next, last, more, entry);
        let rest = shelf(before, next, last)->Some_0;
        assert(following_of(image, more) == Ok::<Option<u32>, Error>(Some(next)));
        assert(page_entries(image) + rest.push(entry) =~= (page_entries(image) + rest).push(entry));
    } else {
        assert(shelf(after, more, more) == Some(seq![entry]));
        assert(page_entries(image) + seq![entry] =~= page_entries(image).push(entry));
    }
}

/// A posting chain lists the same as long as the pages of its term stay.
pub proof fn chain_kept(
    before: StoreModel,
    after: StoreModel,
    term: TermRef,
    block: u32,
    tail: u32,
    fewer: u32,
    more: u32,
)
    requires
        grew(before, after),
        fewer <= more,
        chain_list(before, term, block, tail, fewer) is Some,
        forall|p: int|
            #![trigger before.pages[p]]
            0 <= p < before.pages.len() && before.pages[p].posting_term() == Ok::<TermRef, Error>(
                term,
            ) ==> after.pages[p] == before.pages[p],
    ensures
        chain_list(after, term, block, tail, more) == chain_list(before, term, block, tail, fewer),
    decreases fewer,
{
    let image = before.load_posting(block, term)->Ok_0;
    assert(image == before.pages[block as int]);
    assert(after.load_posting(block, term) == before.load_posting(block, term));
    if let Ok(Some(next)) = posting_next_of(image, tail, fewer) {
        chain_kept(
            before,
            after,
            term,
            next,
            tail,
            (fewer - 1) as u32,
            (more - 1) as u32,
        );
    }
}

/// A reference that is added to the last page comes last on the chain.
pub proof fn chain_appended(
    before: StoreModel,
    after: StoreModel,
    term: TermRef,
    block: u32,
    tail: u32,
    fewer: u32,
    more: u32,
    owner: OwnerRef,
)
    requires
        grew(before, after),
        fewer <= more,
        chain_list(before, term, block, tail, fewer) is Some,
        before.load_posting(tail, term) matches Ok(image) && (after.load_posting(tail, term) matches Ok(
            changed,
        ) && page_references(changed) == page_references(image).push(owner)),
        forall|p: int|
            #![trigger before.pages[p]]
            0 <= p < before.pages.len() && p != tail && before.pages[p].posting_term() == Ok::<
                TermRef,
                Error,
            >(term) ==> after.pages[p] == before.pages[p],
    ensures
        chain_list(after, term, block, tail, more) == Some(
            chain_list(before, term, block, tail, fewer)->Some_0.push(owner),
        ),
    decreases fewer,
{
    let image = before.load_posting(block, term)->Ok_0;
    assert(image == before.pages[block as int]);
    if block != tail {
        assert(after.load_posting(block, term) == before.load_posting(block, term));
        let next = posting_next_of(image, tail, fewer)->Ok_0->Some_0;
        chain_appended(
            before,
            after,
            term,
            next,
            tail,
            (fewer - 1) as u32,
            (more - 1) as u32,
            owner,
        );
        let rest = chain_list(before, term, next, tail, (fewer - 1) as u32)->Some_0;
        assert(page_references(image) + rest.push(owner) =~= (page_references(image) + rest).push(
            owner,
        ));
    }
}

/// A page that is linked behind the last one makes its reference the last of the chain.
pub proof fn chain_extended(
    before: StoreModel,
    after: StoreModel,
    term: TermRef,
    block: u32,
    tail: u32,
    last: u32,
    fewer: u32,
    more: u32,
    owner: OwnerRef,
)
    requires
        grew(before, after),
        fewer < more,
        before.pages.len() <= last,
        last != NO_BLOCK,
        chain_list(before, term, block, tail, fewer) is Some,
        before.load_posting(tail, term) matches Ok(image) && (after.load_posting(tail, term) matches Ok(
            changed,
        ) && (page_references(changed) == page_references(image) && changed.next() == Ok::<u32, Error>(
            last,
        ))),
        after.load_posting(last, term) matches Ok(added) && page_references(added) == seq![owner],
        forall|p: int|
            #![trigger before.pages[p]]
            0 <= p < before.pages.len() && p != tail && before.pages[p].posting_term() == Ok::<
                TermRef,
                Error,
            >(term) ==> after.pages[p] == before.pages[p],
    ensures
        chain_list(after, term, block, last, more) == Some(
            chain_list(before, term, block, tail, fewer)->Some_0.push(owner),
        ),
    decreases fewer,
{
    let image = before.load_posting(block, term)->Ok_0;
    assert(image == before.pages[block as int]);
    if block != tail {
        assert(after.load_posting(block, term) == before.load_posting(block, term));
        let next = posting_next_of(image, tail, fewer)->Ok_0->Some_0;
        chain_extended(
            before,
            after,
            term,
            next,
            tail,
            last,
            (fewer - 1) as u32,
            (more - 1) as u32,
            owner,
        );
        let rest = chain_list(before, term, next, tail, (fewer - 1) as u32)->Some_0;
        assert(page_references(image) + rest.push(owner) =~= (page_references(image) + rest).push(
            owner,
        ));
    } else {
        assert(chain_list(after, term, last, last, (more - 1) as u32) == Some(seq![owner]));
        assert(page_references(image) + seq![owner] =~= page_references(image).push(owner));
    }
}

} // verus!
