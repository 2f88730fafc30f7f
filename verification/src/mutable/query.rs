//! Bounded streaming intersections and unions over stable owner identities.
//! Positive Boolean plans can prove membership; covers retain recheck obligations.
//! Neither path evaluates SQL visibility. The opt-in phrase path proves
//! positional membership from complete inline or fragmented payloads.

use crate::budget::{BudgetError, MemoryBudget};
use crate::callbacks::{Found, RootItem, Sink};
use crate::candidate::CandidatePlan;
use crate::codec::bytes::le_u16;
use crate::codec::records::Publication;
use crate::error::{Error, Result};
use crate::identity::{group_identity, HeapLayout, RootTid};
use crate::memory::{discard, give_back, out_of_memory, vector, vector_held, Scratch};
use crate::mutable::count::behind;
use crate::mutable::page::model::Image;
use crate::mutable::page::postings::{current_root, resumed_page, PostingCursor};
use crate::mutable::page::{
    OwnedPostings, Owner, OwnerModel, OwnerRef, Page, PageKind, Postings, Term, TermModel, TermRef, NO_BLOCK,
};
use crate::mutable::document::MAX_DOCUMENT_BYTES;
use crate::mutable::phrase_prefix::{prefix_streams, prefix_told, wanted_bytes};
use crate::mutable::reader::{cached, resolve, scan, searchable};
use crate::mutable::walk::{
    delivered, handed, partly, reached, reached_next, reached_part, reached_partly, refused_partly,
    send, Walk,
};
use crate::mutable::store::{
    find_term, load, load_posting, posting_next, posting_next_of, PageStore, StoreModel,
};
use crate::query::{Kind, KindModel, Query, QueryModel};
use crate::text::{same_bytes, text_bytes};
use core::mem::size_of;
use vstd::prelude::*;
use vstd::utf8::encode_utf8;

verus! {

broadcast use {group_identity, reached_partly};

/// The place of an owner as one number.
pub open spec fn place(owner: OwnerRef) -> int {
    owner.page * 0x1_0000 + owner.slot
}

/// Whether an owner stands at or behind a target, or behind it where the target
/// itself is excluded.
pub open spec fn passes(owner: OwnerRef, target: Option<OwnerRef>, exclusive: bool) -> bool {
    match target {
        None => true,
        Some(target) => place(owner) > place(target) || (place(owner) == place(target)
            && !exclusive),
    }
}

/// Whether owners at one place are the same.
pub open spec fn agrees(list: Seq<OwnerRef>, target: Option<OwnerRef>) -> bool {
    target matches Some(target) ==> forall|i: int|
        0 <= i < list.len() && place(#[trigger] list[i]) == place(target) ==> list[i] == target
}

/// The owners from the first one on that passes the target.
pub open spec fn dropped(list: Seq<OwnerRef>, target: Option<OwnerRef>, exclusive: bool) -> Seq<
    OwnerRef,
>
    decreases list.len(),
{
    if list.len() == 0 || passes(list[0], target, exclusive) {
        list
    } else {
        dropped(list.drop_first(), target, exclusive)
    }
}

/// The owners among outcomes without a failure, each behind the one before.
pub open spec fn listed(pending: Seq<Result<OwnerRef>>, previous: OwnerRef) -> Option<Seq<OwnerRef>>
    decreases pending.len(),
{
    if pending.len() == 0 {
        Some(Seq::empty())
    } else {
        match pending[0] {
            Err(_) => None,
            Ok(owner) => if !behind(owner, previous) {
                None
            } else {
                match listed(pending.drop_first(), owner) {
                    None => None,
                    Some(rest) => Some(seq![owner] + rest),
                }
            },
        }
    }
}

/// The last owner of a list, or the one before it.
pub open spec fn last_of(list: Seq<OwnerRef>, previous: OwnerRef) -> OwnerRef {
    if list.len() == 0 {
        previous
    } else {
        list.last()
    }
}

/// How far a posting chain was read.
#[verifier::ext_equal]
pub struct ChainModel {
    pub reference: TermRef,
    pub block: u32,
    pub tail: u32,
    pub remaining: u32,
    pub previous: OwnerRef,
    pub page: Option<PostingCursor>,
}

/// Whether the owners of a page can be resolved, and a direct page names the
/// last one.
#[verifier::opaque]
pub open spec fn page_true(
    model: StoreModel,
    page: PostingCursor,
    list: Seq<OwnerRef>,
    previous: OwnerRef,
) -> bool {
    &&& forall|i: int| 0 <= i < list.len() ==> model.resolved(#[trigger] list[i]) is Ok
    &&& page.image.kind == PageKind::DirectPostings ==> (
    page.image.direct_endpoints() matches Ok((_, last)) && last == last_of(list, previous))
}

/// Whether a page at hand is one of a term, and what is to come of it is what
/// is left of its references.
#[verifier::opaque]
pub open spec fn read_page(model: StoreModel, reference: TermRef, page: PostingCursor) -> bool {
    &&& model.load_posting(page.image.block, reference) == Ok::<Image, Error>(page.image)
    &&& resumed_page(page.image) matches Ok(whole) && (page.remaining <= whole.remaining
        && whole.remaining - page.remaining <= whole.pending.len() && page.pending
        == whole.pending.skip(whole.remaining - page.remaining))
}

/// Whether a page at hand was read up to an owner.
#[verifier::opaque]
pub open spec fn read_to(
    model: StoreModel,
    reference: TermRef,
    page: PostingCursor,
    owner: OwnerRef,
) -> bool {
    let whole = resumed_page(page.image)->Ok_0;
    let taken = whole.remaining - page.remaining;
    &&& read_page(model, reference, page)
    &&& taken > 0
    &&& whole.pending[taken - 1] == Ok::<OwnerRef, Error>(owner)
}

/// A page that was just loaded was not read yet.
proof fn reading_begins(model: StoreModel, reference: TermRef, block: u32)
    requires
        model.load_posting(block, reference) matches Ok(image) && resumed_page(image) is Ok,
    ensures
        read_page(
            model,
            reference,
            resumed_page(model.load_posting(block, reference)->Ok_0)->Ok_0,
        ),
{
    reveal(read_page);
    let image = model.load_posting(block, reference)->Ok_0;
    let whole = resumed_page(image)->Ok_0;
    assert(image.block == block);
    assert(whole.pending.skip(0) =~= whole.pending);
}

/// A page was read up to the reference that was taken off it.
proof fn reading_goes_on(
    model: StoreModel,
    reference: TermRef,
    page: PostingCursor,
    later: PostingCursor,
    owner: OwnerRef,
)
    requires
        read_page(model, reference, page),
        page.pending.len() > 0,
        page.pending[0] == Ok::<OwnerRef, Error>(owner),
        later.image == page.image,
        later.pending == page.pending.drop_first(),
        later.remaining == page.remaining - 1,
    ensures
        read_to(model, reference, later, owner),
{
    reveal(read_page);
    reveal(read_to);
    let whole = resumed_page(page.image)->Ok_0;
    let taken = whole.remaining - page.remaining;
    assert(whole.pending.skip(taken)[0] == whole.pending[taken]);
    assert(whole.pending.skip(taken).drop_first() =~= whole.pending.skip(taken + 1));
}

/// A page that was read up to an owner is one of the term.
proof fn reading_kept(model: StoreModel, reference: TermRef, page: PostingCursor, owner: OwnerRef)
    requires
        read_to(model, reference, page, owner),
    ensures
        read_page(model, reference, page),
{
    reveal(read_to);
}

/// Whether the record at a slot of a direct page of a term is that of an owner,
/// with the root that it still has.
pub open spec fn direct_record(
    model: StoreModel,
    reference: TermRef,
    block: u32,
    slot: int,
    owner: OwnerRef,
    root: Option<RootTid>,
) -> bool {
    model.load_posting(block, reference) matches Ok(image) && {
        &&& image.kind == PageKind::DirectPostings
        &&& resumed_page(image) matches Ok(whole) && (0 <= slot < whole.pending.len()
            && whole.pending[slot] == Ok::<OwnerRef, Error>(owner))
        &&& image.direct_root(slot as u16, model.layout) == Ok::<Option<RootTid>, Error>(root)
    }
}

/// Whether a direct page of one of some terms names the root of an owner.
pub open spec fn directly_named(
    model: StoreModel,
    meta: Image,
    texts: Set<Seq<u8>>,
    owner: OwnerRef,
    root: Option<RootTid>,
) -> bool {
    exists|text: Seq<u8>, block: u32, slot: int|
        texts.contains(text) && #[trigger] direct_record(
            model,
            term_reference(model, meta, text),
            block,
            slot,
            owner,
            root,
        )
}

/// Where a term that has postings stands.
pub open spec fn term_reference(model: StoreModel, meta: Image, text: Seq<u8>) -> TermRef {
    model.find_term(meta, text)->Ok_0->Some_0.1
}

/// The direct records of a checked page can be read.
proof fn records_sound(image: Image, slot: int, layout: HeapLayout)
    requires
        0 <= slot,
        image.check_roots(slot, layout) is Ok,
    ensures
        forall|i: u16|
            slot <= i < le_u16(image.bytes, 22) ==> (#[trigger] image.direct_root(i, layout)) is Ok,
    decreases le_u16(image.bytes, 22) - slot,
{
    if slot < le_u16(image.bytes, 22) {
        records_sound(image, slot + 1, layout);
        assert forall|i: u16| slot <= i < le_u16(image.bytes, 22) implies (
        #[trigger] image.direct_root(i, layout)) is Ok by {
            if i == slot {
                assert(i == slot as u16);
            }
        }
    }
}

/// What a page that was read up to an owner names directly.
proof fn current_named(
    model: StoreModel,
    reference: TermRef,
    page: PostingCursor,
    owner: OwnerRef,
)
    requires
        read_to(model, reference, page, owner),
    ensures
        match current_root(page, model.layout) {
            Err(_) => false,
            Ok(None) => true,
            Ok(Some(root)) => direct_record(
                model,
                reference,
                page.image.block,
                resumed_page(page.image)->Ok_0.remaining - page.remaining - 1,
                owner,
                root,
            ),
        },
{
    reveal(read_page);
    reveal(read_to);
    let image = page.image;
    if image.kind == PageKind::DirectPostings {
        assert(image.check(model.layout) is Ok);
        records_sound(image, 0, model.layout);
        let whole = resumed_page(image)->Ok_0;
        let slot = (whole.remaining - page.remaining - 1) as u16;
        assert(image.direct_root(slot, model.layout) is Ok);
    }
}

impl ChainModel {
    /// The owners to come, where nothing on the chain is damaged.
    pub open spec fn ahead(self, model: StoreModel) -> Option<Seq<OwnerRef>>
        decreases
                self.remaining,
                if self.page is None {
                    1int
                } else {
                    0int
                },
    {
        match self.page {
            None => if self.block == NO_BLOCK {
                Some(Seq::empty())
            } else {
                match model.load_posting(self.block, self.reference) {
                    Err(_) => None,
                    Ok(image) => match resumed_page(image) {
                        Err(_) => None,
                        Ok(page) => (ChainModel { page: Some(page), ..self }).ahead(model),
                    },
                }
            },
            Some(page) => match listed(page.pending, self.previous) {
                None => None,
                Some(list) => if !page_true(model, page, list, self.previous) {
                    None
                } else {
                    match self.left(last_of(list, self.previous)) {
                        None => None,
                        Some(next) => if self.remaining > 0 {
                            match next.ahead(model) {
                                None => None,
                                Some(rest) => Some(list + rest),
                            }
                        } else {
                            None
                        },
                    }
                },
            },
        }
    }

    /// The chain behind the page at hand, whose last owner is given.
    pub open spec fn left(self, last: OwnerRef) -> Option<ChainModel> {
        match posting_next_of(self.page->Some_0.image, self.tail, self.remaining) {
            Err(_) => None,
            Ok(next) => Some(
                ChainModel {
                    block: match next {
                        Some(next) => next,
                        None => NO_BLOCK,
                    },
                    remaining: (self.remaining - 1) as u32,
                    previous: last,
                    page: None,
                    ..self
                },
            ),
        }
    }
}

/// The owners of a term, where nothing of it is damaged.
pub open spec fn term_list(model: StoreModel, meta: Image, term: Seq<u8>) -> Option<Seq<OwnerRef>> {
    match model.find_term(meta, term) {
        Err(_) => None,
        Ok(None) => Some(Seq::empty()),
        Ok(Some((image, reference))) => match image.term(reference) {
            Err(_) => None,
            Ok(entry) => match (ChainModel {
                reference,
                block: entry.head,
                tail: entry.tail,
                remaining: model.pages.len() as u32,
                previous: entry.first,
                page: None,
            }).ahead(model) {
                None => None,
                Some(rest) => if model.resolved(entry.first) is Ok {
                    Some(seq![entry.first] + rest)
                } else {
                    None
                },
            },
        },
    }
}

/// A posting chain, read on demand.
pub(crate) struct Chain {
    reference: TermRef,
    block: u32,
    tail: u32,
    remaining: u32,
    previous: OwnerRef,
    page: Option<OwnedPostings>,
}

impl View for Chain {
    type V = ChainModel;

    closed spec fn view(&self) -> ChainModel {
        ChainModel {
            reference: self.reference,
            block: self.block,
            tail: self.tail,
            remaining: self.remaining,
            previous: self.previous,
            page: match self.page {
                Some(page) => Some(page@),
                None => None,
            },
        }
    }
}

/// The order of two places; owners at one place must be the same.
#[derive(Clone, Copy, PartialEq, Eq, Structural)]
enum Side {
    Before,
    Same,
    Behind,
}

/// Equal coordinates must identify the same never-reused owner incarnation.
fn compare(left: OwnerRef, right: OwnerRef) -> (result: Result<Side>)
    ensures
        match result {
            Ok(Side::Before) => place(left) < place(right),
            Ok(Side::Same) => left == right,
            Ok(Side::Behind) => place(left) > place(right),
            Err(error) => error == Error::InvalidState && place(left) == place(right) && left
                != right,
        },
{
    if left.page < right.page || (left.page == right.page && left.slot < right.slot) {
        Ok(Side::Before)
    } else if left.page == right.page && left.slot == right.slot {
        if left.incarnation != right.incarnation {
            return Err(Error::InvalidState);
        }
        Ok(Side::Same)
    } else {
        Ok(Side::Behind)
    }
}

/// The owners of a list stand behind `previous` and one another.
proof fn listed_order(pending: Seq<Result<OwnerRef>>, previous: OwnerRef)
    requires
        listed(pending, previous) is Some,
    ensures
        ascending(listed(pending, previous)->Some_0, previous),
    decreases pending.len(),
{
    if pending.len() > 0 {
        let owner = pending[0]->Ok_0;
        listed_order(pending.drop_first(), owner);
        let rest = listed(pending.drop_first(), owner)->Some_0;
        joined_order(seq![owner], rest, previous);
    }
}

/// Whether owners stand behind `previous` and one another.
pub open spec fn ascending(list: Seq<OwnerRef>, previous: OwnerRef) -> bool {
    &&& forall|i: int| 0 <= i < list.len() ==> behind(#[trigger] list[i], previous)
    &&& forall|i: int, j: int|
        0 <= i < j < list.len() ==> behind(#[trigger] list[j], #[trigger] list[i])
}

proof fn joined_order(list: Seq<OwnerRef>, rest: Seq<OwnerRef>, previous: OwnerRef)
    requires
        ascending(list, previous),
        ascending(rest, last_of(list, previous)),
    ensures
        ascending(list + rest, previous),
{
    let all = list + rest;
    assert forall|i: int| 0 <= i < all.len() implies behind(#[trigger] all[i], previous) by {
        if i >= list.len() {
            assert(behind(rest[i - list.len()], last_of(list, previous)));
            if list.len() > 0 {
                assert(behind(list.last(), previous));
            }
        }
    }
    assert forall|i: int, j: int| 0 <= i < j < all.len() implies behind(
        #[trigger] all[j],
        #[trigger] all[i],
    ) by {
        if j >= list.len() {
            assert(behind(rest[j - list.len()], last_of(list, previous)));
            if i < list.len() && i < list.len() - 1 {
                assert(behind(list.last(), list[i]));
            }
        }
    }
}

/// The owners of a chain are in ascending order.
proof fn ahead_order(chain: ChainModel, model: StoreModel)
    requires
        chain.ahead(model) is Some,
    ensures
        ascending(chain.ahead(model)->Some_0, chain.previous),
    decreases
            chain.remaining,
            if chain.page is None {
                1int
            } else {
                0int
            },
{
    match chain.page {
        None => {
            if chain.block != NO_BLOCK {
                let page = resumed_page(
                    model.load_posting(chain.block, chain.reference)->Ok_0,
                )->Ok_0;
                ahead_order(ChainModel { page: Some(page), ..chain }, model);
            }
        },
        Some(page) => {
            listed_order(page.pending, chain.previous);
            let list = listed(page.pending, chain.previous)->Some_0;
            let next = chain.left(last_of(list, chain.previous))->Some_0;
            ahead_order(next, model);
            joined_order(list, next.ahead(model)->Some_0, chain.previous);
        },
    }
}

/// Owners that do not pass are dropped.
proof fn dropped_prefix(
    list: Seq<OwnerRef>,
    rest: Seq<OwnerRef>,
    target: Option<OwnerRef>,
    exclusive: bool,
)
    requires
        forall|i: int| 0 <= i < list.len() ==> !passes(#[trigger] list[i], target, exclusive),
    ensures
        dropped(list + rest, target, exclusive) == dropped(rest, target, exclusive),
    decreases list.len(),
{
    if list.len() == 0 {
        assert(list + rest =~= rest);
    } else {
        assert((list + rest).drop_first() =~= list.drop_first() + rest);
        assert(!passes(list[0], target, exclusive));
        assert forall|i: int| 0 <= i < list.drop_first().len() implies !passes(
            #[trigger] list.drop_first()[i],
            target,
            exclusive,
        ) by {
            assert(list.drop_first()[i] == list[i + 1]);
        }
        dropped_prefix(list.drop_first(), rest, target, exclusive);
    }
}

/// What a step along a chain comes to where nothing ahead is damaged.
spec fn stepped(before: Option<Seq<OwnerRef>>, after: Option<Seq<OwnerRef>>, result: Result<
    Option<OwnerRef>,
>, reliable: bool) -> bool {
    before matches Some(list) ==> match result {
        Ok(None) => list.len() == 0 && after == Some(list),
        Ok(Some(owner)) => list.len() > 0 && owner == list[0] && after == Some(list.drop_first()),
        Err(_) => !reliable,
    }
}

impl Chain {
    /// Leaves the page at hand.
    fn leave(&mut self) -> (result: Result<()>)
        requires
            old(self)@.page is Some,
        ensures
            match old(self)@.left(old(self)@.previous) {
                Some(state) => result is Ok && final(self)@ == state && old(self)@.remaining > 0,
                None => result is Err,
            },
    {
        let next: Option<u32> = match &self.page {
            Some(page) => posting_next(page.page(), self.tail, &mut self.remaining)?,
            None => None,
        };
        self.block = match next {
            Some(next) => next,
            None => NO_BLOCK,
        };
        self.page = None;
        Ok(())
    }

    /// Skips a direct page that ends before the target.
    fn skip_direct_before(&mut self, target: OwnerRef, exclusive: bool, model: Ghost<StoreModel>) -> (result:
        Result<()>)
        requires
            !passes(old(self)@.previous, Some(target), exclusive),
        ensures
            result is Ok ==> final(self)@.reference == old(self)@.reference && (final(self)@.page is None
                || final(self)@.page == old(self)@.page),
            result is Ok ==> place(final(self)@.previous) >= place(old(self)@.previous),
            old(self)@.ahead(model@) matches Some(list) ==> (agrees(
                seq![old(self)@.previous] + list,
                Some(target),
            ) ==> result is Ok && (final(self)@.ahead(model@) matches Some(rest) && dropped(
                rest,
                Some(target),
                exclusive,
            ) == dropped(list, Some(target), exclusive) && agrees(rest, Some(target)))),
    {
        let ghost start = self@;
        let ghost all = start.ahead(model@);
        let last: OwnerRef = match &self.page {
            None => {
                proof {
                    if all is Some && agrees(seq![start.previous] + all->Some_0, Some(target)) {
                        agrees_behind(start.previous, all->Some_0, target);
                    }
                }
                return Ok(());
            },
            Some(page) => {
                if page.page().kind() != PageKind::DirectPostings {
                    proof {
                        if all is Some && agrees(
                            seq![start.previous] + all->Some_0,
                            Some(target),
                        ) {
                            agrees_behind(start.previous, all->Some_0, target);
                        }
                    }
                    return Ok(());
                }
                proof {
                    if all is Some {
                        page_last(start, model@);
                    }
                }
                let (_, last): (OwnerRef, OwnerRef) = page.page().direct_endpoints()?;
                last
            },
        };
        proof {
            if all is Some && agrees(seq![start.previous] + all->Some_0, Some(target)) {
                agrees_behind(start.previous, all->Some_0, target);
                page_last(start, model@);
            }
        }
        let order: Side = compare(last, target)?;
        if order == Side::Behind || (order == Side::Same && !exclusive) {
            return Ok(());
        }
        if compare(self.previous, last)? == Side::Behind || self.previous.incarnation.get()
            > last.incarnation.get() {
            return Err(Error::InvalidState);
        }
        self.previous = last;
        let ghost middle = self@;
        self.leave()?;
        proof {
            if all is Some && agrees(seq![start.previous] + all->Some_0, Some(target)) {
                assert(middle.left(last) == start.left(last));
                skipping_keeps(start, self@, last, target, exclusive, model@);
            }
        }
        Ok(())
    }

    /// The next owner of the chain.
    #[verifier::rlimit(60)]
    #[verifier::spinoff_prover]
    #[verifier::loop_isolation(false)]
    fn advance<S: PageStore>(&mut self, store: &mut S) -> (result: Result<Option<OwnerRef>>)
        ensures
            final(store).host() == old(store).host(),
            stepped(
                old(self)@.ahead(old(store).host().model),
                final(self)@.ahead(old(store).host().model),
                result,
                old(store).host().reliable,
            ),
            result matches Ok(Some(owner)) ==> {
                &&& behind(owner, old(self)@.previous)
                &&& final(self)@.previous == owner
            },
            result is Ok ==> final(self)@.reference == old(self)@.reference,
            (old(self)@.page matches Some(page) ==> read_page(
                old(store).host().model,
                old(self)@.reference,
                page,
            )) ==> (result matches Ok(Some(owner)) ==> (final(self)@.page matches Some(page)
                && read_to(old(store).host().model, old(self)@.reference, page, owner))),
    {
        let ghost model = store.host().model;
        let ghost all = self@.ahead(model);
        let ghost kept = self@.page matches Some(page) ==> read_page(model, self@.reference, page);
        loop
            invariant
                store.host() == old(store).host(),
                self@.previous == old(self)@.previous,
                self@.reference == old(self)@.reference,
                kept ==> (self@.page matches Some(page) ==> read_page(
                    model,
                    self@.reference,
                    page,
                )),
                all is Some ==> self@.ahead(model) == all,
            decreases self.remaining, if self.page is None { 1int } else { 0int },
        {
            if self.page.is_some() {
                let ghost state = self@;
                let next: Option<Result<OwnerRef>> = match &mut self.page {
                    Some(page) => page.next(),
                    None => None,
                };
                match next {
                    Some(owner) => {
                        let owner: OwnerRef = owner?;
                        if owner.page < self.previous.page || (owner.page == self.previous.page
                            && owner.slot <= self.previous.slot) || owner.incarnation.get()
                            <= self.previous.incarnation.get() {
                            return Err(Error::InvalidState);
                        }
                        self.previous = owner;
                        proof {
                            if kept {
                                reading_goes_on(
                                    model,
                                    state.reference,
                                    state.page->Some_0,
                                    self@.page->Some_0,
                                    owner,
                                );
                            }
                            if all is Some {
                                taking_keeps(state, self@, owner, model);
                            }
                        }
                        return Ok(Some(owner));
                    },
                    None => {
                        assert(self@ =~= state);
                        proof {
                            if all is Some {
                                let list = listed(state.page->Some_0.pending, state.previous)->Some_0;
                                assert(list =~= Seq::empty());
                                let rest = state.left(state.previous)->Some_0.ahead(model)->Some_0;
                                assert(list + rest =~= rest);
                            }
                        }
                        self.leave()?;
                    },
                }
            } else {
                if self.block == NO_BLOCK {
                    return Ok(None);
                }
                let page: Page = load_posting(store, self.block, self.reference)?;
                self.page = Some(OwnedPostings::new(page)?);
                proof {
                    reading_begins(model, self.reference, self.block);
                }
            }
        }
    }
}

/// The last owner of a direct page is the one before or one ahead.
proof fn page_last(chain: ChainModel, model: StoreModel)
    requires
        chain.ahead(model) is Some,
        chain.page matches Some(page) && page.image.kind == PageKind::DirectPostings,
    ensures
        chain.page->Some_0.image.direct_endpoints() matches Ok((_, last)) && last == last_of(
            listed(chain.page->Some_0.pending, chain.previous)->Some_0,
            chain.previous,
        ) && (seq![chain.previous] + chain.ahead(model)->Some_0).contains(last) && (last
            == chain.previous || behind(last, chain.previous)),
{
    reveal(page_true);
    let list = listed(chain.page->Some_0.pending, chain.previous)->Some_0;
    listed_order(chain.page->Some_0.pending, chain.previous);
    let whole = seq![chain.previous] + chain.ahead(model)->Some_0;
    let last = last_of(list, chain.previous);
    assert(whole[list.len() as int] == last);
}

/// Skipping a page whose last owner does not pass drops nothing that passes.
proof fn skipping_keeps(
    before: ChainModel,
    after: ChainModel,
    last: OwnerRef,
    target: OwnerRef,
    exclusive: bool,
    model: StoreModel,
)
    requires
        before.ahead(model) is Some,
        before.page is Some,
        before.remaining > 0,
        agrees(before.ahead(model)->Some_0, Some(target)),
        last == last_of(
            listed(before.page->Some_0.pending, before.previous)->Some_0,
            before.previous,
        ),
        before.left(last) == Some(after),
        !passes(last, Some(target), exclusive),
    ensures
        after.ahead(model) matches Some(rest) && dropped(rest, Some(target), exclusive) == dropped(
            before.ahead(model)->Some_0,
            Some(target),
            exclusive,
        ) && agrees(rest, Some(target)),
{
    let all = before.ahead(model)->Some_0;
    let items = listed(before.page->Some_0.pending, before.previous)->Some_0;
    listed_order(before.page->Some_0.pending, before.previous);
    let rest = after.ahead(model)->Some_0;
    assert(all == items + rest);
    assert forall|i: int| 0 <= i < items.len() implies !passes(
        #[trigger] items[i],
        Some(target),
        exclusive,
    ) by {
        if i < items.len() - 1 {
            assert(behind(items.last(), items[i]));
        }
    }
    dropped_prefix(items, rest, Some(target), exclusive);
    assert forall|i: int| 0 <= i < rest.len() && place(#[trigger] rest[i]) == place(
        target,
    ) implies rest[i] == target by {
        assert(all[items.len() + i] == rest[i]);
    }
}

proof fn agrees_behind(first: OwnerRef, list: Seq<OwnerRef>, target: OwnerRef)
    requires
        agrees(seq![first] + list, Some(target)),
    ensures
        agrees(list, Some(target)),
{
    let whole = seq![first] + list;
    assert forall|i: int| 0 <= i < list.len() && place(#[trigger] list[i]) == place(
        target,
    ) implies list[i] == target by {
        assert(whole[i + 1] == list[i]);
    }
}

proof fn page_true_behind(
    model: StoreModel,
    page: PostingCursor,
    later: PostingCursor,
    previous: OwnerRef,
    owner: OwnerRef,
    rest: Seq<OwnerRef>,
)
    requires
        page_true(model, page, seq![owner] + rest, previous),
        later.image == page.image,
        later.remaining == page.remaining - 1,
    ensures
        page_true(model, later, rest, owner),
{
    reveal(page_true);
    let list = seq![owner] + rest;
    assert forall|i: int| 0 <= i < rest.len() implies model.resolved(#[trigger] rest[i]) is Ok by {
        assert(list[i + 1] == rest[i]);
    }
    assert(last_of(list, previous) == last_of(rest, owner));
}

/// Taking an owner off the page at hand leaves the others ahead.
proof fn taking_keeps(before: ChainModel, after: ChainModel, owner: OwnerRef, model: StoreModel)
    requires
        before.ahead(model) is Some,
        before.page matches Some(page) && page.pending.len() > 0 && page.pending[0] == Ok::<
            OwnerRef,
            Error,
        >(owner),
        behind(owner, before.previous),
        after.page matches Some(page) && page.image == before.page->Some_0.image && page.pending
            == before.page->Some_0.pending.drop_first() && page.remaining
            == before.page->Some_0.remaining - 1,
        after.previous == owner,
        after.reference == before.reference,
        after.block == before.block,
        after.tail == before.tail,
        after.remaining == before.remaining,
    ensures
        before.ahead(model)->Some_0.len() > 0,
        before.ahead(model)->Some_0[0] == owner,
        after.ahead(model) == Some(before.ahead(model)->Some_0.drop_first()),
{
    let page = before.page->Some_0;
    let later = after.page->Some_0;
    let list = listed(page.pending, before.previous)->Some_0;
    let rest = listed(later.pending, owner)->Some_0;
    assert(list == seq![owner] + rest);
    assert(last_of(rest, owner) == last_of(list, before.previous));
    page_true_behind(model, page, later, before.previous, owner, rest);
    let last = last_of(list, before.previous);
    assert(before.left(last) == after.left(last));
    let more = before.left(last)->Some_0.ahead(model)->Some_0;
    assert((list + more).drop_first() =~= rest + more);
}

/// The owners of a term, read on demand.
pub(crate) struct Cursor<'q> {
    pub(crate) text: &'q str,
    pub(crate) current: Option<OwnerRef>,
    pub(crate) chain: Option<Chain>,
}

impl<'q> Cursor<'q> {
    /// The owner at hand was handed out last.
    pub(crate) closed spec fn wf(&self) -> bool {
        self.current matches Some(current) ==> (self.chain matches Some(chain) && chain@.previous
            == current)
    }

    /// Whether the page at hand is one of the term, read up to the owner at hand.
    pub(crate) closed spec fn tracks(&self, model: StoreModel, meta: Image) -> bool {
        match (self.current, self.chain) {
            (Some(current), Some(chain)) => {
                &&& chain@.reference == term_reference(model, meta, text_bytes(self.text))
                &&& chain@.page matches Some(page) ==> read_to(
                    model,
                    chain@.reference,
                    page,
                    current,
                )
            },
            _ => true,
        }
    }

    /// What the page at hand names of the owner at hand, if it is a direct one.
    fn direct(&self, layout: HeapLayout, model: Ghost<StoreModel>, meta: Ghost<Image>) -> (result:
        Result<Option<Option<RootTid>>>)
        requires
            layout == model@.layout,
            self.tracks(model@, meta@),
            self.current is Some,
        ensures
            result is Ok,
            result matches Ok(Some(root)) ==> exists|block: u32, slot: int| #[trigger]
                direct_record(
                    model@,
                    term_reference(model@, meta@, text_bytes(self.text)),
                    block,
                    slot,
                    self.current->Some_0,
                    root,
                ),
    {
        match &self.chain {
            None => Ok(None),
            Some(chain) => match &chain.page {
                None => Ok(None),
                Some(page) => {
                    proof {
                        current_named(
                            model@,
                            chain@.reference,
                            page@,
                            self.current->Some_0,
                        );
                    }
                    page.current_direct(layout)
                },
            },
        }
    }

    /// The owner at hand and those to come, where nothing is damaged.
    pub(crate) closed spec fn rest(&self, model: StoreModel) -> Option<Seq<OwnerRef>> {
        match (self.current, self.chain) {
            (Some(current), Some(chain)) => match chain@.ahead(model) {
                Some(list) => Some(seq![current] + list),
                None => None,
            },
            _ => Some(Seq::empty()),
        }
    }

    /// The owner at hand is the first one of the rest.
    pub(crate) proof fn rest_head(&self, model: StoreModel)
        requires
            self.wf(),
            self.rest(model) is Some,
        ensures
            match self.current {
                Some(owner) => self.rest(model)->Some_0.len() > 0 && self.rest(model)->Some_0[0]
                    == owner,
                None => self.rest(model)->Some_0.len() == 0,
            },
    {
    }

    #[verifier::loop_isolation(false)]
    pub(crate) fn seek<S: PageStore>(&mut self, store: &mut S, target: Option<OwnerRef>, exclusive: bool) -> (result:
        Result<Option<OwnerRef>>)
        requires
            old(self).wf(),
        ensures
            final(store).host() == old(store).host(),
            final(self).text == old(self).text,
            forall|meta: Image| #[trigger]
                old(self).tracks(old(store).host().model, meta) && result is Ok ==> final(self).tracks(old(store).host().model, meta),
            result matches Ok(value) ==> {
                &&& final(self).wf()
                &&& value == final(self).current
                &&& value matches Some(owner) ==> passes(owner, target, exclusive)
            },
            old(self).rest(old(store).host().model) matches Some(list) ==> (agrees(list, target)
                ==> match result {
                Ok(_) => final(self).rest(old(store).host().model) == Some(
                    dropped(list, target, exclusive),
                ),
                Err(_) => !old(store).host().reliable,
            }),
    {
        let ghost model = store.host().model;
        let ghost all = self.rest(model);
        let ghost sound = all is Some && agrees(all->Some_0, target);
        let wanted: OwnerRef = match target {
            Some(wanted) => wanted,
            None => {
                return Ok(self.current);
            },
        };
        loop
            invariant
                store.host() == old(store).host(),
                self.text == old(self).text,
                self.wf(),
                forall|meta: Image| #[trigger]
                    old(self).tracks(model, meta) ==> self.tracks(model, meta),
                sound ==> (self.rest(model) matches Some(list) && dropped(list, target, exclusive)
                    == dropped(all->Some_0, target, exclusive) && agrees(list, target)),
            decreases
                    if self.current is None {
                        0int
                    } else {
                        0x1_0000_0000_0000 - place(self.current->Some_0)
                    },
        {
            let current: OwnerRef = match self.current {
                Some(current) => current,
                None => {
                    return Ok(None);
                },
            };
            let ghost rest = self.rest(model);
            proof {
                if sound {
                    assert(rest->Some_0[0] == current);
                }
            }
            let order: Side = compare(current, wanted)?;
            if order == Side::Behind || (order == Side::Same && !exclusive) {
                return Ok(self.current);
            }
            let ghost list = if sound { self.chain->Some_0@.ahead(model)->Some_0 } else { Seq::empty() };
            proof {
                if sound {
                    assert(rest->Some_0.drop_first() =~= list);
                }
            }
            match &mut self.chain {
                None => {
                    return Err(Error::InvalidState);
                },
                Some(chain) => {
                    let ghost begun = chain@;
                    proof {
                        if let Some(page) = begun.page {
                            if read_to(model, begun.reference, page, current) {
                                reading_kept(model, begun.reference, page, current);
                            }
                        }
                    }
                    chain.skip_direct_before(wanted, exclusive, Ghost(model))?;
                    let ghost middle = chain@.ahead(model);
                    let next: Option<OwnerRef> = chain.advance(store)?;
                    proof {
                        if sound {
                            let left = middle->Some_0;
                            if next is Some {
                                assert(left =~= seq![left[0]] + left.drop_first());
                            } else {
                                assert(left =~= Seq::empty());
                            }
                        }
                    }
                    self.current = next;
                },
            }
        }
    }
}

const EMPTY: usize = 0;

const UNIVERSE: usize = 1;

const UNUSED: usize = usize::MAX;

/// A necessary condition on owners.
#[derive(Clone, Copy)]
enum Node<'q> {
    Empty,
    Universe,
    Term { text: &'q str, cursor: usize },
    And(usize, usize),
    Or(usize, usize),
}

/// Whether the condition holds of an owner that is listed under given terms.
spec fn node_value(nodes: Seq<Node<'_>>, index: int, under: spec_fn(Seq<u8>) -> bool) -> bool
    decreases index,
{
    match nodes[index] {
        Node::Empty => false,
        Node::Universe => true,
        Node::Term { text, .. } => under(text_bytes(text)),
        Node::And(left, right) => left < index && right < index && node_value(
            nodes,
            left as int,
            under,
        ) && node_value(nodes, right as int, under),
        Node::Or(left, right) => left < index && right < index && (node_value(
            nodes,
            left as int,
            under,
        ) || node_value(nodes, right as int, under)),
    }
}

/// Whether a query's necessary condition holds of an owner that is listed under
/// given terms: a phrase needs all its words, a prefix and a negation nothing.
pub open spec fn query_value(query: QueryModel, index: int, under: spec_fn(Seq<u8>) -> bool) -> bool
    decreases index,
{
    match query.nodes[index] {
        KindModel::Nothing => false,
        KindModel::Prefix(_) => true,
        KindModel::Not(_) => true,
        KindModel::Term(term) => under(term),
        KindModel::Phrase(terms) => forall|k: int| 0 <= k < terms.len() ==> under(#[trigger] terms[k]),
        KindModel::And(left, right) => 0 <= left < index && 0 <= right < index && query_value(
            query,
            left,
            under,
        ) && query_value(query, right, under),
        KindModel::Or(left, right) => 0 <= left < index && 0 <= right < index && (query_value(
            query,
            left,
            under,
        ) || query_value(query, right, under)),
    }
}

/// A document that satisfies a query satisfies its necessary condition.
pub proof fn necessary(query: QueryModel, index: int, document: Seq<Seq<u8>>)
    requires
        query.wf(),
        0 <= index < query.nodes.len(),
        query.holds_at(index, document),
    ensures
        query_value(query, index, |term: Seq<u8>| document.contains(term)),
    decreases index,
{
    assert(crate::query::ordered(query.nodes[index], index));
    match query.nodes[index] {
        KindModel::Phrase(terms) => {
            let start = choose|start: int| #[trigger]
                crate::query::phrase_at(document, terms, start);
            let part = document.subrange(start, start + terms.len());
            assert forall|k: int| 0 <= k < terms.len() implies document.contains(
                #[trigger] terms[k],
            ) by {
                assert(part[k] == document[start + k]);
            }
        },
        KindModel::And(left, right) => {
            necessary(query, left, document);
            necessary(query, right, document);
        },
        KindModel::Or(left, right) => {
            if query.holds_at(left, document) {
                necessary(query, left, document);
            } else {
                necessary(query, right, document);
            }
        },
        _ => {},
    }
}

/// Whether a node asks for terms and their combinations alone.
pub open spec fn positive(kind: KindModel) -> bool {
    kind is Nothing || kind is Term || kind is And || kind is Or
}

/// The necessary condition of a positive query is the query.
pub proof fn sufficient(query: QueryModel, index: int, document: Seq<Seq<u8>>)
    requires
        query.wf(),
        0 <= index < query.nodes.len(),
        forall|i: int| 0 <= i < query.nodes.len() ==> positive(#[trigger] query.nodes[i]),
    ensures
        query_value(query, index, |term: Seq<u8>| document.contains(term)) == query.holds_at(
            index,
            document,
        ),
    decreases index,
{
    assert(crate::query::ordered(query.nodes[index], index));
    assert(positive(query.nodes[index]));
    match query.nodes[index] {
        KindModel::And(left, right) => {
            sufficient(query, left, document);
            sufficient(query, right, document);
        },
        KindModel::Or(left, right) => {
            sufficient(query, left, document);
            sufficient(query, right, document);
        },
        _ => {},
    }
}

/// Whether operands precede their operators and are neither empty nor all.
spec fn laid_out(nodes: Seq<Node<'_>>) -> bool {
    &&& nodes.len() >= 2
    &&& nodes[0] is Empty
    &&& nodes[1] is Universe
    &&& forall|i: int| 2 <= i < nodes.len() ==> operand(#[trigger] nodes[i], i)
}

spec fn operand(node: Node<'_>, index: int) -> bool {
    match node {
        Node::Term { .. } => true,
        Node::And(left, right) => 2 <= left < index && 2 <= right < index,
        Node::Or(left, right) => 2 <= left < index && 2 <= right < index,
        _ => false,
    }
}

/// More nodes behind leave the meaning.
proof fn value_kept(
    before: Seq<Node<'_>>,
    after: Seq<Node<'_>>,
    index: int,
    under: spec_fn(Seq<u8>) -> bool,
)
    requires
        0 <= index < before.len(),
        before.is_prefix_of(after),
    ensures
        node_value(after, index, under) == node_value(before, index, under),
    decreases index,
{
    assert(after[index] == before[index]);
    match before[index] {
        Node::And(left, right) => {
            if left < index && right < index {
                value_kept(before, after, left as int, under);
                value_kept(before, after, right as int, under);
            }
        },
        Node::Or(left, right) => {
            if left < index && right < index {
                value_kept(before, after, left as int, under);
                value_kept(before, after, right as int, under);
            }
        },
        _ => {},
    }
}

fn term<'q>(nodes: &mut Vec<Node<'q>>, text: &'q str) -> (index: usize)
    requires
        laid_out(old(nodes)@),
    ensures
        laid_out(final(nodes)@),
        old(nodes)@.is_prefix_of(final(nodes)@),
        2 <= index < final(nodes)@.len(),
        forall|texts: Set<Seq<u8>>| #[trigger]
            named(old(nodes)@, texts) && texts.contains(text_bytes(text)) ==> named(
                final(nodes)@,
                texts,
            ),
        forall|under: spec_fn(Seq<u8>) -> bool| #[trigger]
            node_value(final(nodes)@, index as int, under) == under(text_bytes(text)),
{
    let index: usize = nodes.len();
    let ghost before = nodes@;
    nodes.push(Node::Term { text, cursor: UNUSED });
    proof {
        assert forall|texts: Set<Seq<u8>>| #[trigger]
            named(before, texts) && texts.contains(text_bytes(text)) implies named(
            nodes@,
            texts,
        ) by {
            assert forall|i: int| 0 <= i < nodes@.len() implies (
            #[trigger] nodes@[i] matches Node::Term { text, .. } ==> texts.contains(
                text_bytes(text),
            )) by {
                if i < before.len() {
                    assert(nodes@[i] == before[i]);
                }
            }
        }
    }
    index
}

/// Whether two nodes are the same condition.
fn same_node(left: &Node<'_>, right: &Node<'_>) -> (same: bool)
    ensures
        same ==> match (*left, *right) {
            (Node::Empty, Node::Empty) => true,
            (Node::Universe, Node::Universe) => true,
            (Node::Term { text, .. }, Node::Term { text: other, .. }) => text_bytes(text)
                == text_bytes(other),
            (Node::And(a, b), Node::And(c, d)) => a == c && b == d,
            (Node::Or(a, b), Node::Or(c, d)) => a == c && b == d,
            _ => false,
        },
{
    match (left, right) {
        (Node::Empty, Node::Empty) => true,
        (Node::Universe, Node::Universe) => true,
        (
            Node::Term { text, cursor },
            Node::Term { text: other, cursor: slot },
        ) => *cursor == *slot && same_bytes(text.as_bytes(), other.as_bytes()),
        (Node::And(a, b), Node::And(c, d)) => *a == *c && *b == *d,
        (Node::Or(a, b), Node::Or(c, d)) => *a == *c && *b == *d,
        _ => false,
    }
}

fn combine<'q>(nodes: &mut Vec<Node<'q>>, left: usize, right: usize, and: bool) -> (index: usize)
    requires
        laid_out(old(nodes)@),
        left < old(nodes)@.len(),
        right < old(nodes)@.len(),
    ensures
        laid_out(final(nodes)@),
        old(nodes)@.is_prefix_of(final(nodes)@),
        index < final(nodes)@.len(),
        forall|texts: Set<Seq<u8>>| #[trigger]
            named(old(nodes)@, texts) ==> named(final(nodes)@, texts),
        forall|under: spec_fn(Seq<u8>) -> bool| #[trigger]
            node_value(final(nodes)@, index as int, under) == if and {
                node_value(old(nodes)@, left as int, under) && node_value(
                    old(nodes)@,
                    right as int,
                    under,
                )
            } else {
                node_value(old(nodes)@, left as int, under) || node_value(
                    old(nodes)@,
                    right as int,
                    under,
                )
            },
{
    let ghost before = nodes@;
    proof {
        if left >= 2 {
            assert(operand(before[left as int], left as int));
        }
        if right >= 2 {
            assert(operand(before[right as int], right as int));
        }
    }
    if same_node(&nodes[left], &nodes[right]) {
        return left;
    }
    let (identity, absorbing): (usize, usize) = if and {
        (UNIVERSE, EMPTY)
    } else {
        (EMPTY, UNIVERSE)
    };
    if left == absorbing || right == absorbing {
        return absorbing;
    }
    if left == identity {
        return right;
    }
    if right == identity {
        return left;
    }
    let index: usize = nodes.len();
    nodes.push(
        if and {
            Node::And(left, right)
        } else {
            Node::Or(left, right)
        },
    );
    proof {
        let after = nodes@;
        assert forall|texts: Set<Seq<u8>>| #[trigger] named(before, texts) implies named(
            after,
            texts,
        ) by {
            assert forall|i: int| 0 <= i < after.len() implies (
            #[trigger] after[i] matches Node::Term { text, .. } ==> texts.contains(
                text_bytes(text),
            )) by {
                if i < before.len() {
                    assert(after[i] == before[i]);
                }
            }
        }
        assert forall|under: spec_fn(Seq<u8>) -> bool| #[trigger]
            node_value(after, index as int, under) == if and {
                node_value(before, left as int, under) && node_value(before, right as int, under)
            } else {
                node_value(before, left as int, under) || node_value(before, right as int, under)
            } by {
            value_kept(before, after, left as int, under);
            value_kept(before, after, right as int, under);
        }
    }
    index
}

/// Whether a node has the meaning of a query's node.
spec fn means(nodes: Seq<Node<'_>>, index: int, query: QueryModel, node: int) -> bool {
    forall|under: spec_fn(Seq<u8>) -> bool| #[trigger]
        node_value(nodes, index, under) == query_value(query, node, under)
}

proof fn means_kept(
    before: Seq<Node<'_>>,
    after: Seq<Node<'_>>,
    index: int,
    query: QueryModel,
    node: int,
)
    requires
        means(before, index, query, node),
        0 <= index < before.len(),
        before.is_prefix_of(after),
    ensures
        means(after, index, query, node),
{
    assert forall|under: spec_fn(Seq<u8>) -> bool| #[trigger]
        node_value(after, index, under) == query_value(query, node, under) by {
        value_kept(before, after, index, under);
        assert(node_value(before, index, under) == query_value(query, node, under));
    }
}

/// All words of a phrase.
#[verifier::loop_isolation(false)]
fn phrase_node<'q>(nodes: &mut Vec<Node<'q>>, terms: &'q Vec<String>) -> (index: usize)
    requires
        laid_out(old(nodes)@),
    ensures
        laid_out(final(nodes)@),
        old(nodes)@.is_prefix_of(final(nodes)@),
        index < final(nodes)@.len(),
        forall|texts: Set<Seq<u8>>| #[trigger]
            named(old(nodes)@, texts) && (forall|k: int|
                0 <= k < terms@.len() ==> texts.contains(encode_utf8((#[trigger] terms@[k])@)))
                ==> named(final(nodes)@, texts),
        forall|under: spec_fn(Seq<u8>) -> bool| #[trigger]
            node_value(final(nodes)@, index as int, under) == (forall|k: int|
                0 <= k < terms@.len() ==> under(encode_utf8((#[trigger] terms@[k])@))),
{
    let mut result: usize = UNIVERSE;
    let mut index: usize = 0;
    while index < terms.len()
        invariant
            index <= terms@.len(),
            laid_out(nodes@),
            old(nodes)@.is_prefix_of(nodes@),
            result < nodes@.len(),
            forall|texts: Set<Seq<u8>>| #[trigger]
                named(old(nodes)@, texts) && (forall|k: int|
                    0 <= k < terms@.len() ==> texts.contains(encode_utf8((#[trigger] terms@[k])@)))
                    ==> named(nodes@, texts),
            forall|under: spec_fn(Seq<u8>) -> bool| #[trigger]
                node_value(nodes@, result as int, under) == (forall|k: int|
                    0 <= k < index ==> under(encode_utf8((#[trigger] terms@[k])@))),
        decreases terms@.len() - index,
    {
        let ghost before = nodes@;
        let next: usize = term(nodes, terms[index].as_str());
        let ghost middle = nodes@;
        let joined: usize = combine(nodes, result, next, true);
        proof {
            assert forall|texts: Set<Seq<u8>>| #[trigger]
                named(old(nodes)@, texts) && (forall|k: int|
                    0 <= k < terms@.len() ==> texts.contains(encode_utf8((#[trigger] terms@[k])@)))
                implies named(nodes@, texts) by {
                assert(named(before, texts));
                assert(texts.contains(encode_utf8(terms@[index as int]@)));
                assert(named(middle, texts));
            }
            assert forall|under: spec_fn(Seq<u8>) -> bool| #[trigger]
                node_value(nodes@, joined as int, under) == (forall|k: int|
                    0 <= k < index + 1 ==> under(encode_utf8((#[trigger] terms@[k])@))) by {
                value_kept(before, middle, result as int, under);
                assert(node_value(before, result as int, under) == (forall|k: int|
                    0 <= k < index ==> under(encode_utf8((#[trigger] terms@[k])@))));
                assert(node_value(middle, next as int, under) == under(
                    encode_utf8(terms@[index as int]@),
                ));
            }
        }
        result = joined;
        index += 1;
    }
    result
}

/// A query as a necessary condition, with a cursor for each term that counts.
struct Plan<'q> {
    nodes: Vec<Node<'q>>,
    cursors: Vec<Cursor<'q>>,
    bounds: Vec<Option<OwnerRef>>,
    root: usize,
    scratch_bytes: usize,
    active: Vec<bool>,
    texts: Ghost<Seq<Seq<u8>>>,
}

/// Whether all operands of a marked node are marked.
spec fn closed_under(nodes: Seq<Node<'_>>, active: Seq<bool>, index: int) -> bool {
    active[index] ==> match nodes[index] {
        Node::And(left, right) => active[left as int] && active[right as int],
        Node::Or(left, right) => active[left as int] && active[right as int],
        _ => true,
    }
}

/// Whether a marked term has the cursor of its text.
spec fn cursor_given(node: Node<'_>, marked: bool, texts: Seq<Seq<u8>>) -> bool {
    node matches Node::Term { text, cursor } ==> (if marked {
        cursor < texts.len() && texts[cursor as int] == text_bytes(text)
    } else {
        true
    })
}

/// The nodes of a query as conditions.
#[verifier::loop_isolation(false)]
fn lower<'q>(query: &'q Query, nodes: &mut Vec<Node<'q>>, mapped: &mut Vec<usize>)
    requires
        laid_out(old(nodes)@),
        old(mapped)@.len() == 0,
        named(old(nodes)@, query_texts(query@)),
    ensures
        laid_out(final(nodes)@),
        named(final(nodes)@, query_texts(query@)),
        final(mapped)@.len() == query@.nodes.len(),
        forall|i: int|
            0 <= i < final(mapped)@.len() ==> (#[trigger] final(mapped)@[i]) < final(nodes)@.len()
                && means(final(nodes)@, final(mapped)@[i] as int, query@, i),
{
    let count: usize = query.node_count();
    let ghost model = query@;
    let mut index: usize = 0;
    while index < count
        invariant
            index <= count,
            mapped@.len() == index,
            laid_out(nodes@),
            named(nodes@, query_texts(model)),
            forall|i: int|
                0 <= i < index ==> (#[trigger] mapped@[i]) < nodes@.len() && means(
                    nodes@,
                    mapped@[i] as int,
                    model,
                    i,
                ),
        decreases count - index,
    {
        let ghost before = nodes@;
        let ghost earlier = mapped@;
        let kind: &'q Kind = &query.node(index).kind;
        assert(crate::query::ordered(model.nodes[index as int], index as int));
        proof {
            let texts = query_texts(model);
            let own = model.nodes[index as int];
            assert forall|text: Seq<u8>| #[trigger] kind_names(own, text) implies texts.contains(
                text,
            ) by {
                assert(kind_names(model.nodes[index as int], text));
            }
            if let Kind::Term(text) = kind {
                assert(kind_names(own, encode_utf8(text@)));
            }
            if let Kind::Phrase(terms) = kind {
                let words = own->Phrase_0;
                assert(words =~= crate::query::texts(terms@));
                assert forall|k: int| 0 <= k < terms@.len() implies texts.contains(
                    encode_utf8((#[trigger] terms@[k])@),
                ) by {
                    assert(words[k] == encode_utf8(terms@[k]@));
                    assert(kind_names(own, words[k]));
                }
            }
        }
        let slot: usize = match kind {
            Kind::Nothing => EMPTY,
            Kind::Prefix(_) => UNIVERSE,
            Kind::Not(_) => UNIVERSE,
            Kind::Term(text) => term(nodes, text.as_str()),
            Kind::Phrase(terms) => phrase_node(nodes, terms),
            Kind::And(left, right) => combine(nodes, mapped[*left], mapped[*right], true),
            Kind::Or(left, right) => combine(nodes, mapped[*left], mapped[*right], false),
        };
        proof {
            assert forall|under: spec_fn(Seq<u8>) -> bool| #[trigger]
                node_value(nodes@, slot as int, under) == query_value(
                    model,
                    index as int,
                    under,
                ) by {
                match model.nodes[index as int] {
                    KindModel::And(left, right) => {
                        assert(means(before, earlier[left] as int, model, left));
                        assert(means(before, earlier[right] as int, model, right));
                        assert(node_value(before, earlier[left] as int, under) == query_value(
                            model,
                            left,
                            under,
                        ));
                        assert(node_value(before, earlier[right] as int, under) == query_value(
                            model,
                            right,
                            under,
                        ));
                    },
                    KindModel::Or(left, right) => {
                        assert(means(before, earlier[left] as int, model, left));
                        assert(means(before, earlier[right] as int, model, right));
                        assert(node_value(before, earlier[left] as int, under) == query_value(
                            model,
                            left,
                            under,
                        ));
                        assert(node_value(before, earlier[right] as int, under) == query_value(
                            model,
                            right,
                            under,
                        ));
                    },
                    KindModel::Phrase(words) => {
                        if let Kind::Phrase(terms) = kind {
                            assert(words =~= crate::query::texts(terms@));
                            assert(query_value(model, index as int, under) == (forall|k: int|
                                0 <= k < terms@.len() ==> under(
                                    encode_utf8((#[trigger] terms@[k])@),
                                ))) by {
                                if forall|k: int|
                                    0 <= k < terms@.len() ==> under(
                                        encode_utf8((#[trigger] terms@[k])@),
                                    ) {
                                    assert forall|k: int| 0 <= k < words.len() implies under(
                                        #[trigger] words[k],
                                    ) by {
                                        assert(words[k] == encode_utf8(terms@[k]@));
                                    }
                                } else {
                                    let k = choose|k: int|
                                        0 <= k < terms@.len() && !under(
                                            encode_utf8((#[trigger] terms@[k])@),
                                        );
                                    assert(words[k] == encode_utf8(terms@[k]@));
                                }
                            }
                        }
                    },
                    _ => {},
                }
            }
            assert forall|i: int| 0 <= i < index implies (#[trigger] earlier[i]) < nodes@.len()
                && means(nodes@, earlier[i] as int, model, i) by {
                means_kept(before, nodes@, earlier[i] as int, model, i);
            }
        }
        mapped.push(slot);
        index += 1;
    }
}

/// Marks what a root needs.
#[verifier::loop_isolation(false)]
fn mark(nodes: &Vec<Node<'_>>, root: usize, active: &mut Vec<bool>) -> (count: usize)
    requires
        laid_out(nodes@),
        root < nodes@.len(),
        old(active)@.len() == nodes@.len(),
        forall|i: int| 0 <= i < nodes@.len() ==> !#[trigger] old(active)@[i],
    ensures
        final(active)@.len() == nodes@.len(),
        final(active)@[root as int],
        forall|i: int|
            0 <= i < nodes@.len() ==> #[trigger] closed_under(nodes@, final(active)@, i),
        count <= nodes@.len(),
{
    active.set(root, true);
    let mut count: usize = 0;
    let mut index: usize = nodes.len();
    while index > 0
        invariant
            index <= nodes@.len(),
            active@.len() == nodes@.len(),
            active@[root as int],
            count <= nodes@.len() - index,
            forall|i: int|
                index <= i < nodes@.len() ==> #[trigger] closed_under(nodes@, active@, i),
        decreases index,
    {
        index -= 1;
        let ghost before = active@;
        if active[index] {
            if index >= 2 {
                assert(operand(nodes@[index as int], index as int));
            }
            match nodes[index] {
                Node::And(left, right) => {
                    active.set(left, true);
                    active.set(right, true);
                },
                Node::Or(left, right) => {
                    active.set(left, true);
                    active.set(right, true);
                },
                Node::Term { .. } => {
                    count += 1;
                },
                _ => {},
            }
        }
        assert forall|i: int|
            index <= i < nodes@.len() implies #[trigger] closed_under(nodes@, active@, i) by {
            if i > index {
                assert(before[i] == active@[i]);
                assert(closed_under(nodes@, before, i));
            }
        }
    }
    count
}

/// Gives each marked term a cursor.
#[verifier::loop_isolation(false)]
fn assign<'q>(nodes: &mut Vec<Node<'q>>, active: &Vec<bool>, cursors: &mut Vec<Cursor<'q>>) -> (texts: Ghost<
    Seq<Seq<u8>>,
>)
    requires
        laid_out(old(nodes)@),
        active@.len() == old(nodes)@.len(),
        old(cursors)@.len() == 0,
    ensures
        laid_out(final(nodes)@),
        final(nodes)@.len() == old(nodes)@.len(),
        texts@.len() == final(cursors)@.len(),
        forall|c: int|
            0 <= c < texts@.len() ==> node_texts(old(nodes)@).contains(#[trigger] texts@[c]),
        forall|i: int|
            0 <= i < final(nodes)@.len() ==> cursor_given(
                #[trigger] final(nodes)@[i],
                active@[i],
                texts@,
            ) && alike(old(nodes)@[i], final(nodes)@[i]),
        forall|c: int|
            0 <= c < final(cursors)@.len() ==> (#[trigger] final(cursors)@[c]).current is None
                && texts@[c] == text_bytes(final(cursors)@[c].text),
{
    let ghost mut texts: Seq<Seq<u8>> = Seq::empty();
    let ghost before = nodes@;
    let mut index: usize = 0;
    while index < nodes.len()
        invariant
            index <= nodes@.len(),
            nodes@.len() == before.len(),
            laid_out(nodes@),
            texts.len() == cursors@.len(),
            cursors@.len() <= index,
            forall|c: int|
                0 <= c < texts.len() ==> node_texts(before).contains(#[trigger] texts[c]),
            forall|i: int|
                0 <= i < index ==> cursor_given(#[trigger] nodes@[i], active@[i], texts) && alike(
                    before[i],
                    nodes@[i],
                ),
            forall|i: int| index <= i < nodes@.len() ==> #[trigger] nodes@[i] == before[i],
            forall|c: int|
                0 <= c < cursors@.len() ==> (#[trigger] cursors@[c]).current is None && texts[c]
                    == text_bytes(cursors@[c].text),
        decreases nodes@.len() - index,
    {
        let ghost earlier = nodes@;
        let ghost known = texts;
        if let Node::Term { text, .. } = nodes[index] {
            if active[index] {
                nodes.set(index, Node::Term { text, cursor: cursors.len() });
                cursors.push(Cursor { text, current: None, chain: None });
                proof {
                    assert(node_names(before[index as int], text_bytes(text)));
                    texts = texts.push(text_bytes(text));
                }
            }
        }
        proof {
            assert forall|i: int| 0 <= i < index + 1 implies cursor_given(
                #[trigger] nodes@[i],
                active@[i],
                texts,
            ) && alike(before[i], nodes@[i]) by {
                if i < index {
                    assert(nodes@[i] == earlier[i]);
                    assert(cursor_given(earlier[i], active@[i], known));
                }
            }
            assert forall|i: int| 2 <= i < nodes@.len() implies operand(
                #[trigger] nodes@[i],
                i,
            ) by {
                assert(operand(earlier[i], i));
            }
        }
        index += 1;
    }
    Ghost(texts)
}

/// Whether two nodes differ in the cursor at most.
spec fn alike(left: Node<'_>, right: Node<'_>) -> bool {
    match (left, right) {
        (Node::Term { text, .. }, Node::Term { text: other, .. }) => text_bytes(text)
            == text_bytes(other),
        (Node::And(a, b), Node::And(c, d)) => a == c && b == d,
        (Node::Or(a, b), Node::Or(c, d)) => a == c && b == d,
        (Node::Empty, Node::Empty) => true,
        (Node::Universe, Node::Universe) => true,
        _ => false,
    }
}

/// Cursors do not matter to the meaning.
proof fn value_alike(
    before: Seq<Node<'_>>,
    after: Seq<Node<'_>>,
    index: int,
    under: spec_fn(Seq<u8>) -> bool,
)
    requires
        0 <= index < before.len(),
        after.len() == before.len(),
        forall|i: int| 0 <= i < before.len() ==> alike(before[i], #[trigger] after[i]),
    ensures
        node_value(after, index, under) == node_value(before, index, under),
    decreases index,
{
    assert(alike(before[index], after[index]));
    match before[index] {
        Node::And(left, right) => {
            if left < index && right < index {
                value_alike(before, after, left as int, under);
                value_alike(before, after, right as int, under);
            }
        },
        Node::Or(left, right) => {
            if left < index && right < index {
                value_alike(before, after, left as int, under);
                value_alike(before, after, right as int, under);
            }
        },
        _ => {},
    }
}

/// Whether an owner is listed under one of some terms.
pub open spec fn known(
    model: StoreModel,
    meta: Image,
    texts: Set<Seq<u8>>,
    owner: OwnerRef,
) -> bool {
    exists|term: Seq<u8>|
        texts.contains(term) && #[trigger] listed_under(model, meta, owner, term)
}

/// Whether an owner is listed under a term.
pub open spec fn listed_under(model: StoreModel, meta: Image, owner: OwnerRef, term: Seq<u8>) -> bool {
    term_list(model, meta, term)->Some_0.contains(owner)
}

/// The terms that an owner is listed under.
pub open spec fn terms_of(model: StoreModel, meta: Image, owner: OwnerRef) -> spec_fn(Seq<u8>) -> bool {
    |term: Seq<u8>| listed_under(model, meta, owner, term)
}

/// Whether nothing that some terms lead to is damaged, and owners at one place
/// are the same.
#[verifier::opaque]
pub open spec fn undamaged(model: StoreModel, meta: Image, texts: Set<Seq<u8>>) -> bool {
    &&& forall|term: Seq<u8>|
        texts.contains(term) ==> #[trigger] term_list(model, meta, term) is Some
    &&& forall|left: OwnerRef, right: OwnerRef|
        #[trigger] known(model, meta, texts, left) && #[trigger] known(model, meta, texts, right)
            && place(left) == place(right) ==> left == right
}

/// What fewer terms lead to is undamaged too.
pub proof fn undamaged_fewer(
    model: StoreModel,
    meta: Image,
    fewer: Set<Seq<u8>>,
    texts: Set<Seq<u8>>,
)
    requires
        fewer.subset_of(texts),
    ensures
        undamaged(model, meta, texts) ==> undamaged(model, meta, fewer),
        forall|owner: OwnerRef| #[trigger]
            known(model, meta, fewer, owner) ==> known(model, meta, texts, owner),
{
    reveal(undamaged);
    assert forall|owner: OwnerRef| #[trigger] known(model, meta, fewer, owner) implies known(
        model,
        meta,
        texts,
        owner,
    ) by {
        let term = choose|term: Seq<u8>|
            fewer.contains(term) && #[trigger] listed_under(model, meta, owner, term);
        assert(texts.contains(term));
    }
}

/// Whether a condition of a query is on a term.
pub open spec fn kind_names(kind: KindModel, text: Seq<u8>) -> bool {
    match kind {
        KindModel::Term(term) => term == text,
        KindModel::Phrase(words) => words.contains(text),
        _ => false,
    }
}

/// The terms that the conditions of a query are on.
pub open spec fn query_texts(query: QueryModel) -> Set<Seq<u8>> {
    Set::new(
        |text: Seq<u8>|
            exists|i: int| 0 <= i < query.nodes.len() && kind_names(#[trigger] query.nodes[i], text),
    )
}

/// Whether a node is on a term.
spec fn node_names(node: Node<'_>, text: Seq<u8>) -> bool {
    node matches Node::Term { text: term, .. } && text_bytes(term) == text
}

/// The terms that nodes are on.
spec fn node_texts(nodes: Seq<Node<'_>>) -> Set<Seq<u8>> {
    Set::new(
        |text: Seq<u8>|
            exists|i: int| 0 <= i < nodes.len() && node_names(#[trigger] nodes[i], text),
    )
}

/// Whether all terms of nodes are among some terms.
spec fn named(nodes: Seq<Node<'_>>, texts: Set<Seq<u8>>) -> bool {
    forall|i: int|
        0 <= i < nodes.len() ==> (#[trigger] nodes[i] matches Node::Term { text, .. }
            ==> texts.contains(text_bytes(text)))
}

/// Nodes that differ in cursors at most are on the same terms.
proof fn texts_alike(before: Seq<Node<'_>>, after: Seq<Node<'_>>)
    requires
        after.len() == before.len(),
        forall|i: int| 0 <= i < before.len() ==> alike(before[i], #[trigger] after[i]),
    ensures
        node_texts(after) == node_texts(before),
        forall|texts: Set<Seq<u8>>| #[trigger] named(before, texts) ==> named(after, texts),
{
    assert forall|text: Seq<u8>| node_texts(after).contains(text) == node_texts(before).contains(
        text,
    ) by {
        if node_texts(after).contains(text) {
            let i = choose|i: int| 0 <= i < after.len() && node_names(#[trigger] after[i], text);
            assert(alike(before[i], after[i]));
            assert(node_names(before[i], text));
        }
        if node_texts(before).contains(text) {
            let i = choose|i: int| 0 <= i < before.len() && node_names(#[trigger] before[i], text);
            assert(alike(before[i], after[i]));
            assert(node_names(after[i], text));
        }
    }
    assert(node_texts(after) =~= node_texts(before));
    assert forall|texts: Set<Seq<u8>>| #[trigger] named(before, texts) implies named(after, texts) by {
        assert forall|i: int| 0 <= i < after.len() implies (#[trigger] after[i] matches Node::Term {
            text,
            ..
        } ==> texts.contains(text_bytes(text))) by {
            assert(alike(before[i], after[i]));
            assert(before[i] matches Node::Term { text, .. } ==> texts.contains(text_bytes(text)));
        }
    }
}

/// The terms of named nodes are among the names.
proof fn named_texts(nodes: Seq<Node<'_>>, texts: Set<Seq<u8>>)
    requires
        named(nodes, texts),
    ensures
        node_texts(nodes).subset_of(texts),
{
    assert forall|text: Seq<u8>| node_texts(nodes).contains(text) implies texts.contains(text) by {
        let i = choose|i: int| 0 <= i < nodes.len() && node_names(#[trigger] nodes[i], text);
        assert(node_names(nodes[i], text));
    }
}

/// The owners of a term are in ascending order.
pub proof fn term_list_order(model: StoreModel, meta: Image, term: Seq<u8>)
    requires
        term_list(model, meta, term) is Some,
    ensures
        in_order(term_list(model, meta, term)->Some_0),
{
    if let Ok(Some((image, reference))) = model.find_term(meta, term) {
        if let Ok(entry) = image.term(reference) {
            let chain = ChainModel {
                reference,
                block: entry.head,
                tail: entry.tail,
                remaining: model.pages.len() as u32,
                previous: entry.first,
                page: None,
            };
            ahead_order(chain, model);
            let rest = chain.ahead(model)->Some_0;
            let list = seq![entry.first] + rest;
            assert forall|i: int, j: int| 0 <= i < j < list.len() implies place(
                #[trigger] list[i],
            ) < place(#[trigger] list[j]) by {
                assert(list[j] == rest[j - 1]);
                if i > 0 {
                    assert(list[i] == rest[i - 1]);
                    assert(behind(rest[j - 1], rest[i - 1]));
                } else {
                    assert(behind(rest[j - 1], entry.first));
                }
            }
        }
    }
}

/// Whether places strictly increase.
pub open spec fn in_order(list: Seq<OwnerRef>) -> bool {
    forall|i: int, j: int|
        0 <= i < j < list.len() ==> place(#[trigger] list[i]) < place(#[trigger] list[j])
}

/// Dropping twice is dropping for the later bound.
pub proof fn dropped_twice(
    list: Seq<OwnerRef>,
    first: Option<OwnerRef>,
    strict: bool,
    target: Option<OwnerRef>,
    exclusive: bool,
)
    requires
        forall|owner: OwnerRef| #[trigger]
            passes(owner, target, exclusive) ==> passes(owner, first, strict),
    ensures
        dropped(dropped(list, first, strict), target, exclusive) == dropped(
            list,
            target,
            exclusive,
        ),
    decreases list.len(),
{
    if list.len() > 0 && !passes(list[0], first, strict) {
        assert(!passes(list[0], target, exclusive));
        dropped_twice(list.drop_first(), first, strict, target, exclusive);
    }
}

/// What passes stays, behind the first owner that passes.
pub proof fn dropped_keeps(
    list: Seq<OwnerRef>,
    target: Option<OwnerRef>,
    exclusive: bool,
    owner: OwnerRef,
)
    requires
        in_order(list),
    ensures
        ({
            let rest = dropped(list, target, exclusive);
            &&& list.contains(owner) && passes(owner, target, exclusive) ==> rest.len() > 0
                && place(rest[0]) <= place(owner)
            &&& rest.len() > 0 ==> list.contains(rest[0]) && passes(rest[0], target, exclusive)
            &&& forall|i: int| 0 <= i < rest.len() ==> list.contains(#[trigger] rest[i])
        }),
    decreases list.len(),
{
    let rest = dropped(list, target, exclusive);
    if list.len() > 0 {
        if passes(list[0], target, exclusive) {
            assert(rest == list);
            if list.contains(owner) {
                let i = choose|i: int| 0 <= i < list.len() && list[i] == owner;
                if i > 0 {
                    assert(place(list[0]) < place(list[i]));
                }
            }
        } else {
            let less = list.drop_first();
            assert forall|i: int, j: int| 0 <= i < j < less.len() implies place(
                #[trigger] less[i],
            ) < place(#[trigger] less[j]) by {
                assert(place(list[i + 1]) < place(list[j + 1]));
            }
            dropped_keeps(less, target, exclusive, owner);
            if list.contains(owner) && passes(owner, target, exclusive) {
                let i = choose|i: int| 0 <= i < list.len() && list[i] == owner;
                assert(less[i - 1] == owner);
            }
            assert forall|i: int| 0 <= i < rest.len() implies list.contains(
                #[trigger] rest[i],
            ) by {
                assert(less.contains(rest[i]));
                let k = choose|k: int| 0 <= k < less.len() && less[k] == rest[i];
                assert(list[k + 1] == rest[i]);
            }
        }
    }
}

/// The owner that stands behind the other one.
fn later(left: OwnerRef, right: OwnerRef) -> (result: Result<OwnerRef>)
    ensures
        match result {
            Ok(owner) => (owner == left || owner == right) && place(owner) >= place(left) && place(
                owner,
            ) >= place(right) && (place(left) == place(right) ==> left == right),
            Err(_) => place(left) == place(right) && left != right,
        },
{
    match compare(left, right)? {
        Side::Before => Ok(right),
        _ => Ok(left),
    }
}

/// The owner that stands before the other one.
fn earlier(left: OwnerRef, right: OwnerRef) -> (result: Result<OwnerRef>)
    ensures
        match result {
            Ok(owner) => (owner == left || owner == right) && place(owner) <= place(left) && place(
                owner,
            ) <= place(right),
            Err(_) => place(left) == place(right) && left != right,
        },
{
    match compare(left, right)? {
        Side::Behind => Ok(right),
        _ => Ok(left),
    }
}

/// Whether an owner is a lower bound of those that satisfy a node and pass.
#[verifier::opaque]
spec fn bounded(
    nodes: Seq<Node<'_>>,
    index: int,
    bound: Option<OwnerRef>,
    target: Option<OwnerRef>,
    exclusive: bool,
    model: StoreModel,
    meta: Image,
) -> bool {
    &&& forall|owner: OwnerRef|
        #![trigger terms_of(model, meta, owner)]
        node_value(nodes, index, terms_of(model, meta, owner)) && passes(owner, target, exclusive)
            ==> (bound matches Some(bound) && place(bound) <= place(owner))
    &&& bound matches Some(bound) ==> known(model, meta, node_texts(nodes), bound)
    &&& bound matches Some(bound) ==> (target matches Some(target) && !exclusive && place(bound)
        == place(target) ==> node_value(nodes, index, terms_of(model, meta, bound)))
}

impl<'q> Plan<'q> {
    spec fn wf(&self) -> bool {
        &&& laid_out(self.nodes@)
        &&& self.root < self.nodes@.len()
        &&& self.bounds@.len() == self.nodes@.len()
        &&& self.active@.len() == self.nodes@.len()
        &&& self.active@[self.root as int]
        &&& self.texts@.len() == self.cursors@.len()
        &&& forall|c: int|
            0 <= c < self.texts@.len() ==> node_texts(self.nodes@).contains(
                #[trigger] self.texts@[c],
            )
        &&& forall|i: int|
            0 <= i < self.nodes@.len() ==> #[trigger] closed_under(self.nodes@, self.active@, i)
        &&& forall|i: int|
            0 <= i < self.nodes@.len() ==> cursor_given(
                #[trigger] self.nodes@[i],
                self.active@[i],
                self.texts@,
            )
        &&& forall|c: int|
            0 <= c < self.cursors@.len() ==> (#[trigger] self.cursors@[c]).wf() && self.texts@[c]
                == text_bytes(self.cursors@[c].text)
    }

    /// Whether all cursors stand at a bound.
    spec fn stands(
        &self,
        model: StoreModel,
        meta: Image,
        target: Option<OwnerRef>,
        exclusive: bool,
    ) -> bool {
        forall|c: int|
            0 <= c < self.cursors@.len() ==> (#[trigger] self.cursors@[c]).rest(model) == Some(
                dropped(term_list(model, meta, self.texts@[c])->Some_0, target, exclusive),
            )
    }

    /// Whether the pages at hand were read up to the owners at hand.
    spec fn kept_up(&self, model: StoreModel, meta: Image) -> bool {
        forall|c: int|
            0 <= c < self.cursors@.len() ==> (#[trigger] self.cursors@[c]).tracks(model, meta)
    }

    /// Whether the plan stands for a query.
    spec fn stands_for(&self, query: QueryModel) -> bool {
        means(self.nodes@, self.root as int, query, query.root)
    }

    fn build(query: &'q Query, memory_bytes: usize) -> (result: Result<Self>)
        ensures
            match result {
                Ok(plan) => plan.wf() && plan.stands_for(query@) && named(
                    plan.nodes@,
                    query_texts(query@),
                ) && plan.scratch_bytes <= memory_bytes,
                Err(error) => out_of_memory(error) || (error == Error::Limit("query nodes")
                    && plan_room(query@) > usize::MAX),
            },
            plan_too_large(query@, memory_bytes) ==> (result matches Err(error) && error
                == Error::Budget(BudgetError::LimitExceeded)),
    {
        let mut budget: MemoryBudget = MemoryBudget::new(memory_bytes);
        let capacity: usize = capacity_of(query)?;
        proof {
            phrase_room_grows(query@.nodes, 0);
        }
        let nodes: Vec<Node<'q>> = vector(capacity, &mut budget)?;
        let count: usize = query.node_count();
        let (mapped, held): (Vec<usize>, usize) = vector_held(count, &mut budget)?;
        let (nodes, root): (Vec<Node<'q>>, usize) = lowered(query, nodes, mapped);
        let charged: usize = budget.used();
        assert(held * vstd::layout::size_of::<usize>() <= charged);
        give_back::<usize>(held, &mut budget)?;
        let total: usize = nodes.len();
        let active: Vec<bool> = vector(total, &mut budget)?;
        let (active, used): (Vec<bool>, usize) = marked(&nodes, root, active);
        let cursors: Vec<Cursor<'q>> = vector(used, &mut budget)?;
        let bounds: Vec<Option<OwnerRef>> = vector(total, &mut budget)?;
        Ok(Plan::made(query, nodes, root, active, cursors, bounds, budget.remaining()))
    }

    /// The plan of a lowered query.
    fn made(
        query: &'q Query,
        nodes: Vec<Node<'q>>,
        root: usize,
        active: Vec<bool>,
        cursors: Vec<Cursor<'q>>,
        bounds: Vec<Option<OwnerRef>>,
        scratch_bytes: usize,
    ) -> (plan: Self)
        requires
            laid_out(nodes@),
            root < nodes@.len(),
            means(nodes@, root as int, query@, query@.root),
            named(nodes@, query_texts(query@)),
            active@.len() == nodes@.len(),
            active@[root as int],
            forall|i: int| 0 <= i < nodes@.len() ==> #[trigger] closed_under(nodes@, active@, i),
            cursors@.len() == 0,
            bounds@.len() == 0,
        ensures
            plan.wf(),
            plan.stands_for(query@),
            named(plan.nodes@, query_texts(query@)),
            plan.scratch_bytes == scratch_bytes,
    {
        let total: usize = nodes.len();
        let mut nodes: Vec<Node<'q>> = nodes;
        let mut cursors: Vec<Cursor<'q>> = cursors;
        let mut bounds: Vec<Option<OwnerRef>> = bounds;
        let ghost before = nodes@;
        let texts: Ghost<Seq<Seq<u8>>> = assign(&mut nodes, &active, &mut cursors);
        let ghost marks = active@;
        bounds.resize(total, None);
        let plan: Plan<'q> = Plan { nodes, cursors, bounds, root, scratch_bytes, active, texts };
        proof {
            texts_alike(before, plan.nodes@);
            assert forall|under: spec_fn(Seq<u8>) -> bool| #[trigger]
                node_value(plan.nodes@, root as int, under) == query_value(
                    query@,
                    query@.root,
                    under,
                ) by {
                value_alike(before, plan.nodes@, root as int, under);
                assert(node_value(before, root as int, under) == query_value(
                    query@,
                    query@.root,
                    under,
                ));
            }
            assert forall|i: int|
                0 <= i < plan.nodes@.len() implies #[trigger] closed_under(plan.nodes@, plan.active@, i) by {
                assert(closed_under(before, marks, i));
                assert(alike(before[i], plan.nodes@[i]));
            }
        }
        plan
    }
}

/// The conditions of a query and the place of its own one.
fn lowered<'q>(query: &'q Query, nodes: Vec<Node<'q>>, mapped: Vec<usize>) -> (result: (
    Vec<Node<'q>>,
    usize,
))
    requires
        nodes@.len() == 0,
        mapped@.len() == 0,
    ensures
        laid_out(result.0@),
        named(result.0@, query_texts(query@)),
        result.1 < result.0@.len(),
        means(result.0@, result.1 as int, query@, query@.root),
{
    let count: usize = query.node_count();
    let mut nodes: Vec<Node<'q>> = nodes;
    let mut mapped: Vec<usize> = mapped;
    nodes.push(Node::Empty);
    nodes.push(Node::Universe);
    lower(query, &mut nodes, &mut mapped);
    let root: usize = mapped[query.root()];
    discard(mapped);
    (nodes, root)
}

/// Which conditions a root needs, and how many of them are terms.
fn marked(nodes: &Vec<Node<'_>>, root: usize, active: Vec<bool>) -> (result: (Vec<bool>, usize))
    requires
        laid_out(nodes@),
        root < nodes@.len(),
        active@.len() == 0,
    ensures
        result.0@.len() == nodes@.len(),
        result.0@[root as int],
        forall|i: int|
            0 <= i < nodes@.len() ==> #[trigger] closed_under(nodes@, result.0@, i),
        result.1 <= nodes@.len(),
{
    let mut active: Vec<bool> = active;
    active.resize(nodes.len(), false);
    let used: usize = mark(nodes, root, &mut active);
    (active, used)
}

/// Whether the conditions of a query alone take more than a number of bytes.
pub closed spec fn plan_too_large(query: QueryModel, memory_bytes: usize) -> bool {
    plan_room(query) <= usize::MAX && plan_room(query) * vstd::layout::size_of::<Node<'_>>()
        > memory_bytes
}

impl<'q> Plan<'q> {
    /// Finds the chains of the terms.
    #[verifier::loop_isolation(false)]
    fn open<S: PageStore>(&mut self, store: &mut S) -> (result: Result<()>)
        requires
            old(self).wf(),
        ensures
            final(store).host() == old(store).host(),
            final(self).nodes == old(self).nodes,
            final(self).root == old(self).root,
            final(self).scratch_bytes == old(self).scratch_bytes,
            result is Ok ==> final(self).wf(),
            old(store).host().model.load(0, PageKind::Meta) matches Ok(meta) ==> (undamaged(
                old(store).host().model,
                meta,
                node_texts(old(self).nodes@),
            ) ==> match result {
                Ok(_) => final(self).stands(old(store).host().model, meta, None, true),
                Err(_) => !old(store).host().reliable,
            }),
            old(store).host().model.load(0, PageKind::Meta) is Err ==> result is Err,
            result is Ok ==> final(self).kept_up(
                old(store).host().model,
                old(store).host().model.load(0, PageKind::Meta)->Ok_0,
            ),
    {
        let ghost model = store.host().model;
        let meta: Page = load(store, 0, PageKind::Meta)?;
        let ghost sound = undamaged(model, meta@, node_texts(self.nodes@));
        let mut index: usize = 0;
        while index < self.cursors.len()
            invariant
                index <= self.cursors@.len(),
                store.host() == old(store).host(),
                self.nodes == old(self).nodes,
                self.root == old(self).root,
                self.scratch_bytes == old(self).scratch_bytes,
                self.wf(),
                forall|c: int|
                    0 <= c < index ==> (#[trigger] self.cursors@[c]).tracks(model, meta@),
                sound ==> forall|c: int|
                    0 <= c < index ==> (#[trigger] self.cursors@[c]).rest(model) == Some(
                        dropped(term_list(model, meta@, self.texts@[c])->Some_0, None, true),
                    ),
            decreases self.cursors@.len() - index,
        {
            store.interrupt()?;
            let text: &'q str = self.cursors[index].text;
            let ghost wanted = text_bytes(text);
            let ghost before = self.cursors@;
            proof {
                if sound {
                    reveal(undamaged);
                    assert(self.texts@[index as int] == wanted);
                    assert(term_list(model, meta@, wanted) is Some);
                }
            }
            let cursor: Cursor<'q> = open_cursor(store, &meta, text)?;
            self.cursors.set(index, cursor);
            assert forall|c: int| 0 <= c < self.cursors@.len() implies (
            #[trigger] self.cursors@[c]).wf() && self.texts@[c] == text_bytes(
                self.cursors@[c].text,
            ) by {
                assert(before[c].wf());
            }
            proof {
                if sound {
                    assert forall|c: int| 0 <= c < index + 1 implies (
                    #[trigger] self.cursors@[c]).rest(model) == Some(
                        dropped(term_list(model, meta@, self.texts@[c])->Some_0, None, true),
                    ) by {
                        if c < index {
                            assert(self.cursors@[c] == before[c]);
                        } else {
                            assert(self.texts@[c] == text_bytes(before[c].text));
                        }
                    }
                }
            }
            index += 1;
        }
        Ok(())
    }

    /// Advances all cursors to a bound.
    #[verifier::loop_isolation(false)]
    fn advance<S: PageStore>(
        &mut self,
        store: &mut S,
        target: Option<OwnerRef>,
        exclusive: bool,
        first: Ghost<Option<OwnerRef>>,
        strict: Ghost<bool>,
        meta: Ghost<Image>,
    ) -> (result: Result<()>)
        requires
            old(self).wf(),
            forall|owner: OwnerRef| #[trigger]
                passes(owner, target, exclusive) ==> passes(owner, first@, strict@),
        ensures
            final(store).host() == old(store).host(),
            final(self).nodes == old(self).nodes,
            final(self).root == old(self).root,
            final(self).active == old(self).active,
            final(self).texts == old(self).texts,
            final(self).scratch_bytes == old(self).scratch_bytes,
            result is Ok ==> final(self).wf() && final(self).passed(target, exclusive),
            result is Ok && old(self).kept_up(old(store).host().model, meta@) ==> final(self).kept_up(
                old(store).host().model,
                meta@,
            ),
            undamaged(old(store).host().model, meta@, node_texts(old(self).nodes@)) && old(self).stands(
                old(store).host().model,
                meta@,
                first@,
                strict@,
            ) && (target matches Some(owner) ==> known(
                old(store).host().model,
                meta@,
                node_texts(old(self).nodes@),
                owner,
            ))
                ==> match result {
                Ok(_) => final(self).stands(old(store).host().model, meta@, target, exclusive),
                Err(_) => !old(store).host().reliable,
            },
    {
        let ghost model = store.host().model;
        let ghost names = node_texts(self.nodes@);
        let ghost sound = undamaged(model, meta@, names) && self.stands(model, meta@, first@, strict@)
            && (target matches Some(owner) ==> known(model, meta@, names, owner));
        let mut index: usize = 0;
        while index < self.cursors.len()
            invariant
                index <= self.cursors@.len(),
                self.cursors@.len() == old(self).cursors@.len(),
                store.host() == old(store).host(),
                self.nodes == old(self).nodes,
                self.root == old(self).root,
                self.active == old(self).active,
                self.texts == old(self).texts,
                self.bounds == old(self).bounds,
                self.scratch_bytes == old(self).scratch_bytes,
                self.texts@.len() == self.cursors@.len(),
                forall|c: int|
                    0 <= c < self.texts@.len() ==> names.contains(#[trigger] self.texts@[c]),
                forall|c: int|
                    0 <= c < self.cursors@.len() ==> (#[trigger] self.cursors@[c]).wf()
                        && self.texts@[c] == text_bytes(self.cursors@[c].text),
                old(self).kept_up(model, meta@) ==> self.kept_up(model, meta@),
                forall|c: int|
                    0 <= c < index ==> ((#[trigger] self.cursors@[c]).current matches Some(owner)
                        ==> passes(owner, target, exclusive)),
                forall|c: int|
                    index <= c < self.cursors@.len() ==> #[trigger] self.cursors@[c] == old(self).cursors@[c],
                sound ==> forall|c: int|
                    0 <= c < index ==> (#[trigger] self.cursors@[c]).rest(model) == Some(
                        dropped(
                            term_list(model, meta@, self.texts@[c])->Some_0,
                            target,
                            exclusive,
                        ),
                    ),
            decreases self.cursors@.len() - index,
        {
            let ghost before = self.cursors@;
            let ghost list = term_list(model, meta@, self.texts@[index as int])->Some_0;
            proof {
                if sound {
                    reveal(undamaged);
                    assert(old(self).cursors@[index as int].rest(model) == Some(
                        dropped(list, first@, strict@),
                    ));
                    assert(term_list(model, meta@, self.texts@[index as int]) is Some);
                    term_list_order(model, meta@, self.texts@[index as int]);
                    dropped_twice(list, first@, strict@, target, exclusive);
                    let rest = dropped(list, first@, strict@);
                    dropped_keeps(list, first@, strict@, list[0]);
                    if let Some(wanted) = target {
                        assert forall|i: int|
                            0 <= i < rest.len() && place(#[trigger] rest[i]) == place(
                                wanted,
                            ) implies rest[i] == wanted by {
                            assert(list.contains(rest[i]));
                            assert(listed_under(
                                model,
                                meta@,
                                rest[i],
                                self.texts@[index as int],
                            ));
                            assert(known(model, meta@, names, rest[i]));
                        }
                    }
                }
            }
            assert(old(self).kept_up(model, meta@) ==> before[index as int].tracks(model, meta@));
            self.cursors[index].seek(store, target, exclusive)?;
            assert forall|c: int| 0 <= c < self.cursors@.len() implies c == index || (
            #[trigger] self.cursors@[c]) == before[c] by {}
            index += 1;
        }
        Ok(())
    }

    /// Whether the owners at hand pass a bound.
    spec fn passed(&self, target: Option<OwnerRef>, exclusive: bool) -> bool {
        forall|c: int|
            0 <= c < self.cursors@.len() ==> ((#[trigger] self.cursors@[c]).current matches Some(
                owner,
            ) ==> passes(owner, target, exclusive))
    }
}

/// Whether an owner is the next one behind a bound that satisfies the condition.
spec fn is_next(
    nodes: Seq<Node<'_>>,
    root: int,
    value: Option<OwnerRef>,
    target: Option<OwnerRef>,
    exclusive: bool,
    model: StoreModel,
    meta: Image,
) -> bool {
    match value {
        None => forall|owner: OwnerRef|
            #![trigger terms_of(model, meta, owner)]
            passes(owner, target, exclusive) ==> !node_value(
                nodes,
                root,
                terms_of(model, meta, owner),
            ),
        Some(found) => {
            &&& known(model, meta, node_texts(nodes), found)
            &&& node_value(nodes, root, terms_of(model, meta, found))
            &&& forall|owner: OwnerRef|
                #![trigger terms_of(model, meta, owner)]
                passes(owner, target, exclusive) && place(owner) < place(found) ==> !node_value(
                    nodes,
                    root,
                    terms_of(model, meta, owner),
                )
        },
    }
}

/// Bounds are owners of the store, and those at one place are the same.
proof fn bounds_agree(
    nodes: Seq<Node<'_>>,
    left: int,
    right: int,
    one: OwnerRef,
    two: OwnerRef,
    target: Option<OwnerRef>,
    exclusive: bool,
    model: StoreModel,
    meta: Image,
)
    requires
        undamaged(model, meta, node_texts(nodes)),
        bounded(nodes, left, Some(one), target, exclusive, model, meta),
        bounded(nodes, right, Some(two), target, exclusive, model, meta),
    ensures
        place(one) == place(two) ==> one == two,
{
    reveal(bounded);
    reveal(undamaged);
    assert(known(model, meta, node_texts(nodes), one) && known(
        model,
        meta,
        node_texts(nodes),
        two,
    ));
}

/// The bound of a conjunction is the later one of its operands.
proof fn and_bounded(
    nodes: Seq<Node<'_>>,
    index: int,
    left: int,
    right: int,
    one: Option<OwnerRef>,
    two: Option<OwnerRef>,
    met: Option<OwnerRef>,
    target: Option<OwnerRef>,
    exclusive: bool,
    model: StoreModel,
    meta: Image,
)
    requires
        nodes[index] matches Node::And(l, r) && l == left && r == right,
        0 <= left < index,
        0 <= right < index,
        bounded(nodes, left, one, target, exclusive, model, meta),
        bounded(nodes, right, two, target, exclusive, model, meta),
        one matches Some(owner) ==> passes(owner, target, exclusive),
        two matches Some(owner) ==> passes(owner, target, exclusive),
        match (one, two) {
            (Some(one), Some(two)) => met matches Some(owner) && (owner == one || owner == two)
                && place(owner) >= place(one) && place(owner) >= place(two) && (place(one)
                == place(two) ==> one == two),
            _ => met is None,
        },
    ensures
        bounded(nodes, index, met, target, exclusive, model, meta),
{
    reveal(bounded);
}

/// The bound of a disjunction is the earlier one of its operands.
proof fn or_bounded(
    nodes: Seq<Node<'_>>,
    index: int,
    left: int,
    right: int,
    one: Option<OwnerRef>,
    two: Option<OwnerRef>,
    met: Option<OwnerRef>,
    target: Option<OwnerRef>,
    exclusive: bool,
    model: StoreModel,
    meta: Image,
)
    requires
        nodes[index] matches Node::Or(l, r) && l == left && r == right,
        0 <= left < index,
        0 <= right < index,
        bounded(nodes, left, one, target, exclusive, model, meta),
        bounded(nodes, right, two, target, exclusive, model, meta),
        match (one, two) {
            (Some(one), Some(two)) => met matches Some(owner) && (owner == one || owner == two)
                && place(owner) <= place(one) && place(owner) <= place(two),
            (Some(one), None) => met == Some(one),
            (None, other) => met == other,
        },
    ensures
        bounded(nodes, index, met, target, exclusive, model, meta),
{
    reveal(bounded);
}

/// The bound of a conjunction.
fn meet(
    one: Option<OwnerRef>,
    two: Option<OwnerRef>,
    nodes: Ghost<Seq<Node<'_>>>,
    at: Ghost<(int, int, int)>,
    target: Ghost<Option<OwnerRef>>,
    exclusive: Ghost<bool>,
    model: Ghost<StoreModel>,
    meta: Ghost<Image>,
) -> (result: Result<Option<OwnerRef>>)
    requires
        nodes@[at@.0] matches Node::And(l, r) && l == at@.1 && r == at@.2,
        0 <= at@.1 < at@.0,
        0 <= at@.2 < at@.0,
        one matches Some(owner) ==> passes(owner, target@, exclusive@),
        two matches Some(owner) ==> passes(owner, target@, exclusive@),
    ensures
        result matches Ok(Some(owner)) ==> passes(owner, target@, exclusive@),
        undamaged(model@, meta@, node_texts(nodes@)) && bounded(
            nodes@,
            at@.1,
            one,
            target@,
            exclusive@,
            model@,
            meta@,
        ) && bounded(nodes@, at@.2, two, target@, exclusive@, model@, meta@) ==> (result matches Ok(
            met,
        ) && bounded(nodes@, at@.0, met, target@, exclusive@, model@, meta@)),
{
    let ghost sound = undamaged(model@, meta@, node_texts(nodes@)) && bounded(
        nodes@,
        at@.1,
        one,
        target@,
        exclusive@,
        model@,
        meta@,
    ) && bounded(nodes@, at@.2, two, target@, exclusive@, model@, meta@);
    let met: Option<OwnerRef> = match (one, two) {
        (Some(one), Some(two)) => {
            proof {
                if sound {
                    bounds_agree(
                        nodes@,
                        at@.1,
                        at@.2,
                        one,
                        two,
                        target@,
                        exclusive@,
                        model@,
                        meta@,
                    );
                }
            }
            Some(later(one, two)?)
        },
        _ => None,
    };
    proof {
        if sound {
            and_bounded(
                nodes@,
                at@.0,
                at@.1,
                at@.2,
                one,
                two,
                met,
                target@,
                exclusive@,
                model@,
                meta@,
            );
        }
    }
    Ok(met)
}

/// The bound of a disjunction.
fn join(
    one: Option<OwnerRef>,
    two: Option<OwnerRef>,
    nodes: Ghost<Seq<Node<'_>>>,
    at: Ghost<(int, int, int)>,
    target: Ghost<Option<OwnerRef>>,
    exclusive: Ghost<bool>,
    model: Ghost<StoreModel>,
    meta: Ghost<Image>,
) -> (result: Result<Option<OwnerRef>>)
    requires
        nodes@[at@.0] matches Node::Or(l, r) && l == at@.1 && r == at@.2,
        0 <= at@.1 < at@.0,
        0 <= at@.2 < at@.0,
        one matches Some(owner) ==> passes(owner, target@, exclusive@),
        two matches Some(owner) ==> passes(owner, target@, exclusive@),
    ensures
        result matches Ok(Some(owner)) ==> passes(owner, target@, exclusive@),
        undamaged(model@, meta@, node_texts(nodes@)) && bounded(
            nodes@,
            at@.1,
            one,
            target@,
            exclusive@,
            model@,
            meta@,
        ) && bounded(nodes@, at@.2, two, target@, exclusive@, model@, meta@) ==> (result matches Ok(
            met,
        ) && bounded(nodes@, at@.0, met, target@, exclusive@, model@, meta@)),
{
    let ghost sound = undamaged(model@, meta@, node_texts(nodes@)) && bounded(
        nodes@,
        at@.1,
        one,
        target@,
        exclusive@,
        model@,
        meta@,
    ) && bounded(nodes@, at@.2, two, target@, exclusive@, model@, meta@);
    let met: Option<OwnerRef> = match (one, two) {
        (Some(one), Some(two)) => {
            proof {
                if sound {
                    bounds_agree(
                        nodes@,
                        at@.1,
                        at@.2,
                        one,
                        two,
                        target@,
                        exclusive@,
                        model@,
                        meta@,
                    );
                }
            }
            Some(earlier(one, two)?)
        },
        (Some(one), None) => Some(one),
        (None, other) => other,
    };
    proof {
        if sound {
            or_bounded(
                nodes@,
                at@.0,
                at@.1,
                at@.2,
                one,
                two,
                met,
                target@,
                exclusive@,
                model@,
                meta@,
            );
        }
    }
    Ok(met)
}

impl<'q> Plan<'q> {
    /// The bound of a term: the owner at hand.
    proof fn term_bounded(
        &self,
        index: int,
        target: Option<OwnerRef>,
        exclusive: bool,
        model: StoreModel,
        meta: Image,
    )
        requires
            self.wf(),
            undamaged(model, meta, node_texts(self.nodes@)),
            self.stands(model, meta, target, exclusive),
            target matches Some(owner) ==> known(model, meta, node_texts(self.nodes@), owner),
            0 <= index < self.nodes@.len(),
            self.active@[index],
            self.nodes@[index] is Term,
        ensures
            ({
                let cursor = self.nodes@[index]->Term_cursor;
                cursor < self.cursors@.len() && bounded(
                    self.nodes@,
                    index,
                    self.cursors@[cursor as int].current,
                    target,
                    exclusive,
                    model,
                    meta,
                )
            }),
    {
        reveal(bounded);
        assert(cursor_given(self.nodes@[index], self.active@[index], self.texts@));
        let cursor = self.nodes@[index]->Term_cursor as int;
        let text = self.texts@[cursor];
        let list = term_list(model, meta, text)->Some_0;
        reveal(undamaged);
        assert(node_texts(self.nodes@).contains(text));
        assert(term_list(model, meta, text) is Some);
        term_list_order(model, meta, text);
        let rest = dropped(list, target, exclusive);
        let bound = self.cursors@[cursor].current;
        assert(self.cursors@[cursor].wf());
        assert(self.cursors@[cursor].rest(model) == Some(rest));
        if rest.len() > 0 {
            assert(bound == Some(rest[0]));
        } else {
            assert(bound is None);
        }
        assert forall|owner: OwnerRef|
            #![trigger terms_of(model, meta, owner)]
            node_value(self.nodes@, index, terms_of(model, meta, owner)) && passes(
                owner,
                target,
                exclusive,
            ) implies bound matches Some(bound) && place(bound) <= place(owner) by {
            assert(listed_under(model, meta, owner, text));
            dropped_keeps(list, target, exclusive, owner);
        }
        if rest.len() > 0 {
            dropped_keeps(list, target, exclusive, rest[0]);
            assert(listed_under(model, meta, rest[0], text));
            assert(node_value(self.nodes@, index, terms_of(model, meta, rest[0])));
        }
    }

    /// Lower bounds of what satisfies the nodes, from the owners at hand.
    #[verifier::loop_isolation(false)]
    fn estimate(
        &mut self,
        target: Option<OwnerRef>,
        exclusive: bool,
        model: Ghost<StoreModel>,
        meta: Ghost<Image>,
    ) -> (result: Result<Option<OwnerRef>>)
        requires
            old(self).wf(),
            old(self).root >= 2,
            old(self).passed(target, exclusive),
        ensures
            final(self).nodes == old(self).nodes,
            final(self).root == old(self).root,
            final(self).active == old(self).active,
            final(self).texts == old(self).texts,
            final(self).cursors == old(self).cursors,
            final(self).scratch_bytes == old(self).scratch_bytes,
            result is Ok ==> final(self).wf(),
            result matches Ok(Some(owner)) ==> passes(owner, target, exclusive),
            undamaged(model@, meta@, node_texts(old(self).nodes@)) && old(self).stands(model@, meta@, target, exclusive) && (
            target matches Some(owner) ==> known(model@, meta@, node_texts(old(self).nodes@), owner)) ==> (result matches Ok(
                value,
            ) && bounded(
                old(self).nodes@,
                old(self).root as int,
                value,
                target,
                exclusive,
                model@,
                meta@,
            )),
    {
        let ghost sound = undamaged(model@, meta@, node_texts(self.nodes@)) && self.stands(
            model@,
            meta@,
            target,
            exclusive,
        ) && (target matches Some(owner) ==> known(model@, meta@, node_texts(old(self).nodes@), owner));
        let ghost nodes = self.nodes@;
        let total: usize = self.nodes.len();
        let mut index: usize = 2;
        while index <= self.root
            invariant
                2 <= index <= self.root + 1,
                total == self.nodes@.len(),
                self.root == old(self).root,
                self.nodes == old(self).nodes,
                self.active == old(self).active,
                self.texts == old(self).texts,
                self.cursors == old(self).cursors,
                self.scratch_bytes == old(self).scratch_bytes,
                self.wf(),
                forall|i: int|
                    2 <= i < index ==> (#[trigger] self.bounds@[i] matches Some(owner) ==> passes(
                        owner,
                        target,
                        exclusive,
                    )),
                sound ==> forall|i: int|
                    2 <= i < index && self.active@[i] ==> bounded(
                        nodes,
                        i,
                        #[trigger] self.bounds@[i],
                        target,
                        exclusive,
                        model@,
                        meta@,
                    ),
            decreases self.root + 1 - index,
        {
            assert(operand(nodes[index as int], index as int));
            assert(closed_under(nodes, self.active@, index as int));
            let ghost before = self.bounds@;
            if !self.active[index] {
                self.bounds.set(index, None);
                index += 1;
                continue;
            }
            let bound: Option<OwnerRef> = match self.nodes[index] {
                Node::Term { cursor, .. } => {
                    proof {
                        if sound {
                            old(self).term_bounded(index as int, target, exclusive, model@, meta@);
                        }
                    }
                    if cursor < self.cursors.len() {
                        self.cursors[cursor].current
                    } else {
                        None
                    }
                },
                Node::And(left, right) => meet(
                    self.bounds[left],
                    self.bounds[right],
                    Ghost(nodes),
                    Ghost((index as int, left as int, right as int)),
                    Ghost(target),
                    Ghost(exclusive),
                    model,
                    meta,
                )?,
                Node::Or(left, right) => join(
                    self.bounds[left],
                    self.bounds[right],
                    Ghost(nodes),
                    Ghost((index as int, left as int, right as int)),
                    Ghost(target),
                    Ghost(exclusive),
                    model,
                    meta,
                )?,
                _ => {
                    return Err(Error::InvalidState);
                },
            };
            self.bounds.set(index, bound);
            index += 1;
        }
        Ok(self.bounds[self.root])
    }
}

impl<'q> Plan<'q> {
    /// The next owner behind a bound that satisfies the condition.
    #[verifier::loop_isolation(false)]
    fn seek<S: PageStore>(
        &mut self,
        store: &mut S,
        previous: Option<OwnerRef>,
        meta: Ghost<Image>,
    ) -> (result: Result<Option<OwnerRef>>)
        requires
            old(self).wf(),
            old(self).root >= 2,
        ensures
            final(store).host() == old(store).host(),
            final(self).nodes == old(self).nodes,
            final(self).root == old(self).root,
            final(self).scratch_bytes == old(self).scratch_bytes,
            result is Ok ==> final(self).wf(),
            final(self).texts == old(self).texts,
            result is Ok && old(self).kept_up(old(store).host().model, meta@) ==> final(self).kept_up(
                old(store).host().model,
                meta@,
            ),
            result matches Ok(Some(owner)) ==> passes(owner, previous, true),
            undamaged(old(store).host().model, meta@, node_texts(old(self).nodes@)) && old(self).placed(
                old(store).host().model,
                meta@,
                previous,
            ) && (previous matches Some(owner) ==> known(
                old(store).host().model,
                meta@,
                node_texts(old(self).nodes@),
                owner,
            ))
                ==> match result {
                Ok(value) => is_next(
                    old(self).nodes@,
                    old(self).root as int,
                    value,
                    previous,
                    true,
                    old(store).host().model,
                    meta@,
                ) && (value is Some ==> final(self).placed(old(store).host().model, meta@, value)),
                Err(_) => !old(store).host().reliable,
            },
    {
        let ghost model = store.host().model;
        let ghost nodes = self.nodes@;
        let ghost names = node_texts(nodes);
        let ghost sound = undamaged(model, meta@, names) && self.placed(model, meta@, previous) && (
        previous matches Some(owner) ==> known(model, meta@, names, owner));
        let ghost mut first: Option<OwnerRef> = previous;
        let ghost mut strict = previous is None;
        let mut target: Option<OwnerRef> = previous;
        let mut exclusive: bool = true;
        loop
            invariant
                store.host() == old(store).host(),
                self.nodes == old(self).nodes,
                self.root == old(self).root,
                self.scratch_bytes == old(self).scratch_bytes,
                self.wf(),
                self.texts == old(self).texts,
                old(self).kept_up(model, meta@) ==> self.kept_up(model, meta@),
                exclusive ==> target == previous,
                !exclusive ==> (target matches Some(owner) && passes(owner, previous, true)),
                forall|owner: OwnerRef| #[trigger]
                    passes(owner, target, exclusive) ==> passes(owner, first, strict),
                sound ==> self.stands(model, meta@, first, strict),
                sound ==> (target matches Some(owner) ==> known(model, meta@, names, owner)),
                sound ==> forall|owner: OwnerRef|
                    #![trigger terms_of(model, meta@, owner)]
                    passes(owner, previous, true) && !passes(owner, target, exclusive)
                        ==> !node_value(nodes, self.root as int, terms_of(model, meta@, owner)),
            decreases
                    if exclusive {
                        0x1_0000_0000_0001
                    } else {
                        0x1_0000_0000_0000 - place(target->Some_0)
                    },
        {
            store.interrupt()?;
            self.advance(store, target, exclusive, Ghost(first), Ghost(strict), meta)?;
            let bound: Option<OwnerRef> = self.estimate(target, exclusive, Ghost(model), meta)?;
            let owner: OwnerRef = match bound {
                None => {
                    proof {
                        if sound {
                            reveal(bounded);
                            assert forall|owner: OwnerRef|
                                #![trigger terms_of(model, meta@, owner)]
                                passes(owner, previous, true) implies !node_value(
                                nodes,
                                self.root as int,
                                terms_of(model, meta@, owner),
                            ) by {}
                        }
                    }
                    return Ok(None);
                },
                Some(owner) => owner,
            };
            proof {
                if sound {
                    reveal(bounded);
                }
            }
            if !exclusive {
                if let Some(wanted) = target {
                    if owner == wanted {
                        return Ok(Some(owner));
                    }
                    if owner.page == wanted.page && owner.slot == wanted.slot {
                        proof {
                            if sound {
                                reveal(undamaged);
                                assert(known(model, meta@, names, owner) && known(model, meta@, names, wanted));
                            }
                        }
                        return Err(Error::InvalidState);
                    }
                }
            }
            proof {
                if sound {
                    assert forall|other: OwnerRef|
                        #![trigger terms_of(model, meta@, other)]
                        passes(other, previous, true) && !passes(
                            other,
                            Some(owner),
                            false,
                        ) implies !node_value(
                        nodes,
                        self.root as int,
                        terms_of(model, meta@, other),
                    ) by {
                        if passes(other, target, exclusive) && node_value(
                            nodes,
                            self.root as int,
                            terms_of(model, meta@, other),
                        ) {
                            assert(place(owner) <= place(other));
                        }
                    }
                }
                first = target;
                strict = exclusive;
            }
            target = Some(owner);
            exclusive = false;
        }
    }

    /// Whether the cursors stand at an owner that was found, or at the start.
    spec fn placed(&self, model: StoreModel, meta: Image, found: Option<OwnerRef>) -> bool {
        self.stands(model, meta, found, found is None)
    }
}

impl<'q> Plan<'q> {
    /// What the first direct page that stands at an owner names of it.
    #[verifier::loop_isolation(false)]
    fn direct(
        &self,
        owner: OwnerRef,
        layout: HeapLayout,
        model: Ghost<StoreModel>,
        meta: Ghost<Image>,
    ) -> (result: Result<Option<Option<RootTid>>>)
        requires
            layout == model@.layout,
            self.wf(),
            self.kept_up(model@, meta@),
        ensures
            result is Ok,
            result matches Ok(Some(root)) ==> directly_named(
                model@,
                meta@,
                node_texts(self.nodes@),
                owner,
                root,
            ),
    {
        let mut index: usize = 0;
        while index < self.cursors.len()
            invariant
                index <= self.cursors@.len(),
            decreases self.cursors@.len() - index,
        {
            assert(self.cursors@[index as int].tracks(model@, meta@));
            let stands: bool = match self.cursors[index].current {
                Some(current) => current == owner,
                None => false,
            };
            if stands {
                let direct: Option<Option<RootTid>> = self.cursors[index].direct(
                    layout,
                    model,
                    meta,
                )?;
                if let Some(root) = direct {
                    proof {
                        let cursor = self.cursors@[index as int];
                        let text = text_bytes(cursor.text);
                        assert(self.texts@[index as int] == text);
                        assert(node_texts(self.nodes@).contains(text));
                        let reference = term_reference(model@, meta@, text);
                        let (block, slot) = choose|block: u32, slot: int| #[trigger]
                            direct_record(model@, reference, block, slot, owner, root);
                        assert(direct_record(model@, reference, block, slot, owner, root));
                    }
                    return Ok(Some(root));
                }
            }
            index += 1;
        }
        Ok(None)
    }
}

/// Finds the chain of a term.
pub(crate) fn open_cursor<'q, S: PageStore>(store: &mut S, meta: &Page, text: &'q str) -> (result: Result<
    Cursor<'q>,
>)
    ensures
        final(store).host() == old(store).host(),
        match result {
            Ok(cursor) => {
                &&& cursor.wf()
                &&& cursor.text == text
                &&& cursor.tracks(old(store).host().model, meta@)
                &&& term_list(old(store).host().model, meta@, text_bytes(text)) is Some
                    ==> cursor.rest(old(store).host().model) == term_list(
                    old(store).host().model,
                    meta@,
                    text_bytes(text),
                )
            },
            Err(_) => old(store).host().reliable ==> term_list(
                old(store).host().model,
                meta@,
                text_bytes(text),
            ) is None,
        },
{
    let (dictionary, reference): (Page, TermRef) = match find_term(store, meta, text)? {
        Some(found) => found,
        None => {
            return Ok(Cursor { text, current: None, chain: None });
        },
    };
    let entry: Term<'_> = dictionary.term(reference)?;
    let (first, head, tail): (OwnerRef, u32, u32) = (entry.first, entry.head, entry.tail);
    assert(entry@ == dictionary@.term(reference)->Ok_0);
    let remaining: u32 = store.blocks()?;
    Ok(
        Cursor {
            text,
            current: Some(first),
            chain: Some(
                Chain { reference, block: head, tail, remaining, previous: first, page: None },
            ),
        },
    )
}

/// The room that the phrases among the first nodes of a query may need.
pub open spec fn phrase_room(nodes: Seq<KindModel>) -> int
    decreases nodes.len(),
{
    if nodes.len() == 0 {
        0
    } else {
        phrase_room(nodes.drop_last()) + match nodes.last() {
            KindModel::Phrase(terms) => 2 * terms.len(),
            _ => 0,
        }
    }
}

/// The room that the conditions of a query may need.
pub open spec fn plan_room(query: QueryModel) -> int {
    query.nodes.len() + 2 + phrase_room(query.nodes)
}

proof fn phrase_room_grows(nodes: Seq<KindModel>, index: int)
    requires
        0 <= index <= nodes.len(),
    ensures
        0 <= phrase_room(nodes.take(index)) <= phrase_room(nodes),
    decreases nodes.len(),
{
    if index < nodes.len() {
        phrase_room_grows(nodes.drop_last(), index);
        assert(nodes.drop_last().take(index) =~= nodes.take(index));
    } else {
        assert(nodes.take(index) =~= nodes);
        if nodes.len() > 0 {
            phrase_room_grows(nodes.drop_last(), nodes.len() - 1);
            assert(nodes.drop_last().take(nodes.len() - 1) =~= nodes.drop_last());
        }
    }
}

/// The room that the conditions of a query may need.
fn capacity_of(query: &Query) -> (result: Result<usize>)
    ensures
        if plan_room(query@) > usize::MAX {
            result == Err::<usize, Error>(Error::Limit("query nodes"))
        } else {
            result matches Ok(capacity) && capacity == plan_room(query@)
        },
{
    let count: usize = query.node_count();
    proof {
        phrase_room_grows(query@.nodes, 0);
    }
    let mut capacity: usize = match count.checked_add(2) {
        Some(capacity) => capacity,
        None => {
            return Err(Error::Limit("query nodes"));
        },
    };
    let mut index: usize = 0;
    assert(query@.nodes.take(0) =~= Seq::empty());
    while index < count
        invariant
            count == query@.nodes.len(),
            index <= count,
            capacity == count + 2 + phrase_room(query@.nodes.take(index as int)),
        decreases count - index,
    {
        proof {
            assert(query@.nodes.take(index + 1).drop_last() =~= query@.nodes.take(index as int));
            phrase_room_grows(query@.nodes, index + 1);
        }
        if let Kind::Phrase(terms) = &query.node(index).kind {
            capacity = match terms.len().checked_mul(2) {
                Some(extra) => match capacity.checked_add(extra) {
                    Some(capacity) => capacity,
                    None => {
                        return Err(Error::Limit("query nodes"));
                    },
                },
                None => {
                    return Err(Error::Limit("query nodes"));
                },
            };
        }
        index += 1;
    }
    assert(query@.nodes.take(index as int) =~= query@.nodes);
    Ok(capacity)
}

/// The coordinates of the live records of a direct page, from a slot on.
pub open spec fn direct_walk<T: RootItem>(image: Image, slot: int, layout: HeapLayout) -> Walk<T>
    decreases 65536 - slot,
{
    match image.posting_count() {
        Err(error) => Walk::failed(error),
        Ok(count) => if slot >= count {
            Walk::nothing()
        } else {
            match image.direct_root(slot as u16, layout) {
                Err(error) => Walk::failed(error),
                Ok(None) => direct_walk(image, slot + 1, layout),
                Ok(Some(root)) => Walk::one(T::of(root, false)).and(
                    direct_walk(image, slot + 1, layout),
                ),
            }
        },
    }
}

/// The last owner among outcomes.
pub open spec fn last_met(outcomes: Seq<Result<OwnerRef>>, previous: OwnerRef) -> OwnerRef
    decreases outcomes.len(),
{
    if outcomes.len() == 0 {
        previous
    } else {
        match outcomes[0] {
            Err(_) => previous,
            Ok(owner) => last_met(outcomes.drop_first(), owner),
        }
    }
}

impl StoreModel {
    /// The root of a searchable owner, proved to satisfy the predicate.
    pub open spec fn proved_walk<T: RootItem>(self, reference: OwnerRef) -> Walk<T> {
        match self.resolved(reference) {
            Err(error) => Walk::failed(error),
            Ok(None) => Walk::nothing(),
            Ok(Some(root)) => Walk::one(T::of(root, false)),
        }
    }

    /// The roots of the owners of a page, each behind the one before.
    pub open spec fn ordered_roots<T: RootItem>(
        self,
        outcomes: Seq<Result<OwnerRef>>,
        previous: OwnerRef,
    ) -> Walk<T>
        decreases outcomes.len(),
    {
        if outcomes.len() == 0 {
            Walk::nothing()
        } else {
            match outcomes[0] {
                Err(error) => Walk::failed(error),
                Ok(owner) => if !behind(owner, previous) {
                    Walk::failed(Error::InvalidState)
                } else {
                    self.proved_walk::<T>(owner).and(
                        self.ordered_roots(outcomes.drop_first(), owner),
                    )
                },
            }
        }
    }

    /// The roots of a posting page, and the owner met last.
    pub open spec fn page_roots<T: RootItem>(self, image: Image, previous: OwnerRef) -> (Walk<T>, OwnerRef) {
        if image.kind == PageKind::DirectPostings {
            match image.direct_endpoints() {
                Err(error) => (Walk::failed(error), previous),
                Ok((first, last)) => if !behind(first, previous) {
                    (Walk::failed(Error::InvalidState), previous)
                } else {
                    (direct_walk(image, 0, self.layout), last)
                },
            }
        } else {
            match image.posting_stream() {
                Err(error) => (Walk::failed(error), previous),
                Ok(stream) => (
                    self.ordered_roots(stream.outcomes(), previous),
                    last_met(stream.outcomes(), previous),
                ),
            }
        }
    }

    /// The roots on a posting chain of at most `remaining` pages.
    pub open spec fn proved_chain<T: RootItem>(
        self,
        term: TermRef,
        block: u32,
        tail: u32,
        remaining: u32,
        previous: OwnerRef,
    ) -> Walk<T>
        decreases remaining, 1int,
    {
        match self.load_posting(block, term) {
            Err(error) => Walk::failed(error),
            Ok(image) => {
                let (page, last) = self.page_roots::<T>(image, previous);
                page.and(self.behind_page(image, term, tail, remaining, last))
            },
        }
    }

    /// The roots on a posting chain behind a page.
    pub open spec fn behind_page<T: RootItem>(
        self,
        image: Image,
        term: TermRef,
        tail: u32,
        remaining: u32,
        last: OwnerRef,
    ) -> Walk<T>
        decreases remaining, 0int,
    {
        match posting_next_of(image, tail, remaining) {
            Err(error) => Walk::failed(error),
            Ok(None) => Walk::nothing(),
            Ok(Some(next)) => if remaining > 0 {
                self.proved_chain(term, next, tail, (remaining - 1) as u32, last)
            } else {
                Walk::nothing()
            },
        }
    }

    /// The roots of the searchable owners of a dictionary entry.
    pub open spec fn entry_roots<T: RootItem>(self, entry: TermModel) -> Walk<T> {
        self.proved_walk::<T>(entry.first).and(
            if entry.head == NO_BLOCK {
                Walk::nothing()
            } else {
                self.proved_chain(
                    entry.reference,
                    entry.head,
                    entry.tail,
                    self.pages.len() as u32,
                    entry.first,
                )
            },
        )
    }

    /// The roots of the searchable owners of a term.
    pub open spec fn single_term<T: RootItem>(self, text: Seq<u8>) -> Walk<T> {
        match self.load(0, PageKind::Meta) {
            Err(error) => Walk::failed(error),
            Ok(meta) => match self.find_term(meta, text) {
                Err(error) => Walk::failed(error),
                Ok(None) => Walk::nothing(),
                Ok(Some((image, reference))) => match image.term(reference) {
                    Err(error) => Walk::failed(error),
                    Ok(entry) => self.entry_roots(entry),
                },
            },
        }
    }
}

/// Hands over the live records of a direct page.
#[verifier::loop_isolation(false)]
fn scan_direct<T: RootItem, E: Sink<T>>(
    page: &Page,
    layout: HeapLayout,
    emit: &mut E,
    count: &mut u64,
) -> (result: Result<()>)
    ensures
        final(emit).accepting() == old(emit).accepting(),
        handed(
            direct_walk::<T>(page@, 0, layout),
            old(emit).received(),
            final(emit).received(),
            (*old(count) as int, *final(count) as int),
            result,
            old(emit).accepting(),
            Error::Limit("candidate count"),
        ),
{
    let ghost before = emit.received();
    let ghost base = *count as int;
    let ghost total = direct_walk::<T>(page@, 0, layout);
    let ghost mut met: Seq<T> = Seq::empty();
    assert(total =~= total.after(met));
    assert(before =~= before + met);
    assert(reached(total, before, emit.received(), *count - base, met, total));
    let slots: u16 = page.posting_count()?;
    let mut slot: u16 = 0;
    while slot < slots
        invariant
            slot <= slots,
            emit.accepting() == old(emit).accepting(),
            reached(
                total,
                before,
                emit.received(),
                *count - base,
                met,
                direct_walk::<T>(page@, slot as int, layout),
            ),
        decreases slots - slot,
    {
        if let Some(root) = page.direct_root(slot, layout)? {
            let ghost now = emit.received();
            let ghost counted = *count - base;
            let ghost item = T::of(root, false);
            let ghost more = direct_walk::<T>(page@, slot + 1, layout);
            proof {
                refused_partly(total, before, now, counted, met, item, more);
            }
            send(emit, T::new(root, false), count, "candidate count")?;
            proof {
                reached_next(total, before, now, counted, met, item, more);
                met = met.push(item);
            }
        }
        slot += 1;
    }
    Ok(())
}

/// Hands over the root behind a reference, if its owner is searchable.
fn scan_proved<S: PageStore, T: RootItem, E: Sink<T>>(
    store: &mut S,
    cache: &mut Option<Page>,
    reference: OwnerRef,
    emit: &mut E,
    count: &mut u64,
) -> (result: Result<()>)
    requires
        cached(*old(cache), old(store).host().model),
    ensures
        final(store).host() == old(store).host(),
        cached(*final(cache), old(store).host().model),
        final(emit).accepting() == old(emit).accepting(),
        handed(
            old(store).host().model.proved_walk::<T>(reference),
            old(emit).received(),
            final(emit).received(),
            (*old(count) as int, *final(count) as int),
            result,
            old(store).host().reliable && old(emit).accepting(),
            Error::Limit("candidate count"),
        ),
{
    let ghost before = emit.received();
    let ghost walk = store.host().model.proved_walk::<T>(reference);
    assert(before =~= before + walk.items.take(0));
    assert(before =~= before + Seq::<T>::empty());
    let found: Option<RootTid> = resolve(store, cache, reference)?;
    if let Some(root) = found {
        let ghost item = T::of(root, false);
        assert(before.push(item) =~= before + seq![item]);
        assert(walk.items.take(1) =~= walk.items);
        send(emit, T::new(root, false), count, "candidate count")?;
    }
    Ok(())
}

/// Hands over the roots of a posting page.
#[verifier::loop_isolation(false)]
fn scan_ordered<S: PageStore, T: RootItem, E: Sink<T>>(
    store: &mut S,
    cache: &mut Option<Page>,
    page: &Page,
    previous: &mut OwnerRef,
    emit: &mut E,
    count: &mut u64,
) -> (result: Result<()>)
    requires
        cached(*old(cache), old(store).host().model),
    ensures
        final(store).host() == old(store).host(),
        cached(*final(cache), old(store).host().model),
        final(emit).accepting() == old(emit).accepting(),
        ({
            let (walk, last) = old(store).host().model.page_roots::<T>(page@, *old(previous));
            &&& handed(
                walk,
                old(emit).received(),
                final(emit).received(),
                (*old(count) as int, *final(count) as int),
                result,
                old(store).host().reliable && old(emit).accepting(),
                Error::Limit("candidate count"),
            )
            &&& result is Ok ==> *final(previous) == last
        }),
{
    let ghost model = store.host().model;
    let ghost before = emit.received();
    let ghost base = *count as int;
    let ghost (total, end) = model.page_roots::<T>(page@, *previous);
    let ghost mut met: Seq<T> = Seq::empty();
    assert(total =~= total.after(met));
    assert(before =~= before + met);
    assert(reached(total, before, emit.received(), *count - base, met, total));
    if page.kind() == PageKind::DirectPostings {
        let (first, last): (OwnerRef, OwnerRef) = page.direct_endpoints()?;
        if first.page < previous.page || (first.page == previous.page && first.slot
            <= previous.slot) || first.incarnation.get() <= previous.incarnation.get() {
            return Err(Error::InvalidState);
        }
        *previous = last;
        return scan_direct(page, store.layout(), emit, count);
    }
    let mut references: Postings<'_> = page.posting_refs()?;
    loop
        invariant
            store.host() == old(store).host(),
            cached(*cache, model),
            emit.accepting() == old(emit).accepting(),
            total.end is Ok ==> end == last_met(references@, *previous),
            reached(
                total,
                before,
                emit.received(),
                *count - base,
                met,
                model.ordered_roots::<T>(references@, *previous),
            ),
        decreases references@.len(),
    {
        let owner: OwnerRef = match references.next() {
            None => {
                return Ok(());
            },
            Some(owner) => owner?,
        };
        if owner.page < previous.page || (owner.page == previous.page && owner.slot
            <= previous.slot) || owner.incarnation.get() <= previous.incarnation.get() {
            return Err(Error::InvalidState);
        }
        *previous = owner;
        let ghost now = emit.received();
        let ghost counted = *count - base;
        let ghost part = model.proved_walk::<T>(owner);
        let ghost rest = model.ordered_roots::<T>(references@, owner);
        let outcome: Result<()> = scan_proved(store, cache, owner, emit, count);
        proof {
            assert(part.items.take(part.items.len() as int) =~= part.items);
            reached_part(total, before, now, counted, met, part, rest, emit.received());
            met = met + part.items;
        }
        outcome?;
    }
}

/// Hands over the roots of a dictionary entry. Direct pages already carry
/// checked roots; mutable pages still resolve owners. The caller retains the
/// structural barrier and supplies a complete term predicate.
#[verifier::loop_isolation(false)]
pub(crate) fn scan_term_entry<S: PageStore, T: RootItem, E: Sink<T>>(
    store: &mut S,
    term: &Term<'_>,
    emit: &mut E,
) -> (result: Result<u64>)
    ensures
        final(store).host() == old(store).host(),
        final(emit).accepting() == old(emit).accepting(),
        delivered(
            old(store).host().model.entry_roots::<T>(term@),
            old(emit).received(),
            final(emit).received(),
            result,
            old(store).host().reliable && old(emit).accepting(),
            Error::Limit("candidate count"),
        ),
{
    let reference: TermRef = term.reference;
    let ghost model = store.host().model;
    let ghost before = emit.received();
    let ghost total = model.entry_roots::<T>(term@);
    let ghost mut met: Seq<T> = Seq::empty();
    assert(total =~= total.after(met));
    assert(before =~= before + met);
    let mut count: u64 = 0;
    assert(reached(total, before, emit.received(), count as int, met, total));
    let mut cache: Option<Page> = None;
    let ghost rest = if term.head == NO_BLOCK {
        Walk::nothing()
    } else {
        model.proved_chain::<T>(
            reference,
            term.head,
            term.tail,
            model.pages.len() as u32,
            term.first,
        )
    };
    let ghost part = model.proved_walk::<T>(term.first);
    let outcome: Result<()> = scan_proved(store, &mut cache, term.first, emit, &mut count);
    proof {
        assert(part.items.take(part.items.len() as int) =~= part.items);
        reached_part(total, before, before, 0, met, part, rest, emit.received());
        met = met + part.items;
    }
    outcome?;
    if term.head == NO_BLOCK {
        return Ok(count);
    }
    let mut block: u32 = term.head;
    let mut remaining: u32 = store.blocks()?;
    let mut previous: OwnerRef = term.first;
    loop
        invariant
            store.host() == old(store).host(),
            cached(cache, model),
            emit.accepting() == old(emit).accepting(),
            reached(
                total,
                before,
                emit.received(),
                count as int,
                met,
                model.proved_chain::<T>(reference, block, term.tail, remaining, previous),
            ),
        decreases remaining,
    {
        let page: Page = load_posting(store, block, reference)?;
        let ghost (part, last) = model.page_roots::<T>(page@, previous);
        let ghost rest = model.behind_page::<T>(page@, reference, term.tail, remaining, last);
        let ghost now = emit.received();
        let ghost counted = count as int;
        let outcome: Result<()> = scan_ordered(
            store,
            &mut cache,
            &page,
            &mut previous,
            emit,
            &mut count,
        );
        proof {
            assert(part.items.take(part.items.len() as int) =~= part.items);
            reached_part(total, before, now, counted, met, part, rest, emit.received());
            met = met + part.items;
        }
        outcome?;
        match posting_next(&page, term.tail, &mut remaining)? {
            Some(next) => {
                block = next;
            },
            None => {
                return Ok(count);
            },
        }
    }
}

/// Hands over the roots of a term.
fn scan_single_term<S: PageStore, T: RootItem, E: Sink<T>>(
    store: &mut S,
    text: &str,
    emit: &mut E,
) -> (result: Result<u64>)
    ensures
        final(store).host() == old(store).host(),
        delivered(
            old(store).host().model.single_term::<T>(text_bytes(text)),
            old(emit).received(),
            final(emit).received(),
            result,
            old(store).host().reliable && old(emit).accepting(),
            Error::Limit("candidate count"),
        ),
{
    let ghost before = emit.received();
    let ghost total = store.host().model.single_term::<T>(text_bytes(text));
    assert(before =~= before + Seq::<T>::empty());
    assert(before =~= before + total.items.take(0));
    let meta: Page = load(store, 0, PageKind::Meta)?;
    let (dictionary, reference): (Page, TermRef) = match find_term(store, &meta, text)? {
        Some(found) => found,
        None => {
            return Ok(0);
        },
    };
    let entry: Term<'_> = dictionary.term(reference)?;
    assert(entry@ == dictionary@.term(reference)->Ok_0);
    scan_term_entry(store, &entry, emit)
}

/// What is handed over of some owners, where of each something or nothing is.
pub open spec fn flat<T>(items: Seq<Option<T>>) -> Seq<T>
    decreases items.len(),
{
    if items.len() == 0 {
        Seq::empty()
    } else {
        match items.last() {
            Some(item) => flat(items.drop_last()).push(item),
            None => flat(items.drop_last()),
        }
    }
}

/// Whether owners are all those that satisfy the necessary condition of a
/// query, by place.
pub open spec fn selected(
    model: StoreModel,
    meta: Image,
    query: QueryModel,
    owners: Seq<OwnerRef>,
) -> bool {
    &&& in_order(owners)
    &&& forall|owner: OwnerRef|
        #![trigger terms_of(model, meta, owner)]
        owners.contains(owner) == query_value(query, query.root, terms_of(model, meta, owner))
}

/// Whether a query needs the heap tuples: it is more than terms and their
/// combinations.
pub open spec fn rechecked(query: QueryModel) -> bool {
    exists|i: int| 0 <= i < query.nodes.len() && !positive(#[trigger] query.nodes[i])
}

/// Whether a query is one phrase that positions can decide.
pub open spec fn single_phrase(query: QueryModel) -> bool {
    query.nodes.len() == 1 && (query.nodes[query.root] matches KindModel::Phrase(terms)
        && terms.len() <= 64)
}

/// What is handed over of an owner.
pub open spec fn shown<T: RootItem>(
    model: StoreModel,
    query: QueryModel,
    phrase_positions: bool,
    room: usize,
    owner: OwnerRef,
    item: Option<T>,
) -> bool {
    if phrase_positions && single_phrase(query) {
        phrase_shown(model, query.nodes[query.root]->Phrase_0, room, owner, item)
    } else {
        exists|root: Option<RootTid>| #[trigger]
            root_shown(model, query, owner, root) && item == match root {
                Some(root) => Some(T::of(root, rechecked(query))),
                None => None,
            }
    }
}

/// Whether a root is what is shown of an owner: that of its record, unless a
/// direct page of one of the terms at hand names it.
pub open spec fn root_shown(
    model: StoreModel,
    query: QueryModel,
    owner: OwnerRef,
    root: Option<RootTid>,
) -> bool {
    ||| model.resolved(owner) == Ok::<Option<RootTid>, Error>(root)
    ||| directly_named(
        model,
        model.load(0, PageKind::Meta)->Ok_0,
        query_texts(query),
        owner,
        root,
    )
}

/// More terms name no less.
proof fn named_more(
    model: StoreModel,
    meta: Image,
    fewer: Set<Seq<u8>>,
    texts: Set<Seq<u8>>,
    owner: OwnerRef,
    root: Option<RootTid>,
)
    requires
        fewer.subset_of(texts),
        directly_named(model, meta, fewer, owner, root),
    ensures
        directly_named(model, meta, texts, owner, root),
{
    let (text, block, slot) = choose|text: Seq<u8>, block: u32, slot: int|
        fewer.contains(text) && #[trigger] direct_record(
            model,
            term_reference(model, meta, text),
            block,
            slot,
            owner,
            root,
        );
    assert(texts.contains(text));
    assert(direct_record(model, term_reference(model, meta, text), block, slot, owner, root));
}

/// Whether the payload of an owner is too large to be read in some room.
pub open spec fn beyond_room(owner: OwnerModel, room: usize) -> bool {
    ||| room < vstd::layout::size_of::<Page>()
    ||| owner.data_bytes > room - vstd::layout::size_of::<Page>()
    ||| owner.data_bytes > MAX_DOCUMENT_BYTES
}

/// Whether the first fragment of an owner's payload leaves a phrase undecided.
pub open spec fn first_undecided(
    model: StoreModel,
    owner: OwnerModel,
    terms: Seq<Seq<u8>>,
) -> bool {
    first_fragment(model, owner) matches Some(bytes) && prefix_told(
        bytes,
        owner.data_bytes as int,
        prefix_streams(bytes, owner.data_bytes as int, owner.tokens, owner.terms, terms),
        Ok(None),
    )
}

/// What is handed over of an owner where its payload may decide a phrase: the
/// root without a recheck where the phrase is present, nothing where it is
/// absent or the owner is not searchable. The root keeps its recheck where the
/// payload is too large for the room. It may keep it where the first fragment
/// leaves the phrase undecided, for want of memory for the whole payload.
pub open spec fn phrase_shown<T: RootItem>(
    model: StoreModel,
    terms: Seq<Seq<u8>>,
    room: usize,
    owner: OwnerRef,
    item: Option<T>,
) -> bool {
    match model.owner_of(owner) {
        Err(_) => false,
        Ok(found) => if !searchable(found) {
            item is None
        } else if found.inline.len() == 0 && beyond_room(found, room) {
            item == Some(T::of(found.root, true))
        } else {
            ||| found.inline.len() == 0 && first_undecided(model, found, terms) && item == Some(
                T::of(found.root, true),
            )
            ||| exists|bytes: Seq<u8>, present: bool| #[trigger]
                payload_told(model, found, terms, bytes, present) && item == if present {
                    Some(T::of(found.root, false))
                } else {
                    None
                }
        },
    }
}

/// Whether part of an owner's payload tells whether a phrase is present.
pub open spec fn payload_told(
    model: StoreModel,
    owner: OwnerModel,
    terms: Seq<Seq<u8>>,
    bytes: Seq<u8>,
    present: bool,
) -> bool {
    let total = if owner.inline.len() > 0 {
        owner.inline.len() as int
    } else {
        owner.data_bytes as int
    };
    &&& payload_part(model, owner, bytes)
    &&& prefix_told(
        bytes,
        total,
        prefix_streams(bytes, total, owner.tokens, owner.terms, terms),
        Ok(Some(present)),
    )
}

/// Whether an owner cannot be shown for a phrase: it is not where it should be,
/// its payload is not whole, or part of the payload is damaged or does not
/// decide the phrase.
pub open spec fn phrase_unshown(
    model: StoreModel,
    terms: Seq<Seq<u8>>,
    owner: OwnerRef,
    error: Error,
) -> bool {
    match model.owner_of(owner) {
        Err(fault) => fault == error,
        Ok(found) => searchable(found) && {
            ||| found.inline.len() == 0 && first_fragment(model, found) is None
            ||| found.inline.len() == 0 && fragments(
                model,
                found,
                found.data_head,
                0,
                model.pages.len() as u32,
            ) is None
            ||| exists|bytes: Seq<u8>| #[trigger]
                payload_part(model, found, bytes) && part_undecided(found, terms, bytes, error)
        },
    }
}

/// Whether part of a payload is damaged, or does not decide a phrase.
pub open spec fn part_undecided(
    owner: OwnerModel,
    terms: Seq<Seq<u8>>,
    bytes: Seq<u8>,
    error: Error,
) -> bool {
    let total = if owner.inline.len() > 0 {
        owner.inline.len() as int
    } else {
        owner.data_bytes as int
    };
    let streams = prefix_streams(bytes, total, owner.tokens, owner.terms, terms);
    ||| prefix_told(bytes, total, streams, Err(error))
    ||| error == Error::InvalidState && prefix_told(bytes, total, streams, Ok(None))
    ||| error == Error::InvalidDocument && total > MAX_DOCUMENT_BYTES
}

/// Whether bytes are those of an owner's payload: inline, of its first fragment
/// or of all its fragments.
pub open spec fn payload_part(model: StoreModel, owner: OwnerModel, bytes: Seq<u8>) -> bool {
    if owner.inline.len() > 0 {
        bytes == owner.inline
    } else {
        ||| first_fragment(model, owner) == Some(bytes)
        ||| fragments(
            model,
            owner,
            owner.data_head,
            0,
            model.pages.len() as u32,
        ) == Some(bytes)
    }
}

/// The bytes of an owner's first fragment.
pub open spec fn first_fragment(model: StoreModel, owner: OwnerModel) -> Option<Seq<u8>> {
    match model.load(owner.data_head, PageKind::Fragment) {
        Err(_) => None,
        Ok(image) => match image.fragment_data() {
            Err(_) => None,
            Ok((reference, at, bytes)) => if reference == owner.reference && at == 0 && bytes.len()
                <= owner.data_bytes {
                Some(bytes)
            } else {
                None
            },
        },
    }
}

/// The bytes of an owner's fragments from a block on, which stand at an offset.
pub open spec fn fragments(
    model: StoreModel,
    owner: OwnerModel,
    block: u32,
    offset: int,
    remaining: u32,
) -> Option<Seq<u8>>
    decreases remaining,
{
    if block == NO_BLOCK {
        if offset == owner.data_bytes {
            Some(Seq::empty())
        } else {
            None
        }
    } else if remaining == 0 || offset == owner.data_bytes {
        None
    } else {
        match model.load(block, PageKind::Fragment) {
            Err(_) => None,
            Ok(image) => match (image.fragment_data(), image.next()) {
                (Ok((reference, at, bytes)), Ok(next)) => if reference == owner.reference && at
                    == offset && offset + bytes.len() <= owner.data_bytes {
                    match fragments(
                        model,
                        owner,
                        next,
                        offset + bytes.len(),
                        (remaining - 1) as u32,
                    ) {
                        Some(rest) => Some(bytes + rest),
                        None => None,
                    }
                } else {
                    None
                },
                _ => None,
            },
        }
    }
}

/// Whether what was handed over is the answer of a query's conditions: what is
/// shown of the owners that satisfy them.
pub open spec fn streamed<T: RootItem>(
    model: StoreModel,
    meta: Image,
    query: QueryModel,
    phrase_positions: bool,
    room: usize,
    before: Seq<T>,
    now: Seq<T>,
) -> bool {
    exists|owners: Seq<OwnerRef>, items: Seq<Option<T>>|
        #![trigger listing(model, query, phrase_positions, room, owners, items)]
        selected(model, meta, query, owners) && listing(
            model,
            query,
            phrase_positions,
            room,
            owners,
            items,
        ) && now == before + flat(items)
}

/// Whether the conditions of a query hold of everything.
pub open spec fn universal(query: QueryModel) -> bool {
    forall|under: spec_fn(Seq<u8>) -> bool| #[trigger] query_value(query, query.root, under)
}

/// Whether items are what is handed over of owners.
pub open spec fn listing<T: RootItem>(
    model: StoreModel,
    query: QueryModel,
    phrase_positions: bool,
    room: usize,
    owners: Seq<OwnerRef>,
    items: Seq<Option<T>>,
) -> bool {
    &&& items.len() == owners.len()
    &&& forall|i: int|
        0 <= i < owners.len() ==> shown(
            model,
            query,
            phrase_positions,
            room,
            #[trigger] owners[i],
            items[i],
        )
}

/// Collects the fragments of an owner.
#[verifier::loop_isolation(false)]
pub(crate) fn read_fragments<S: PageStore>(store: &mut S, owner: &Owner<'_>, bytes: &mut Scratch) -> (result:
    Result<()>)
    requires
        old(bytes)@.bytes.len() == 0,
        old(bytes)@.held >= owner.data_bytes,
    ensures
        final(bytes)@.held == old(bytes)@.held,
        result is Ok ==> final(bytes)@.bytes.len() == owner.data_bytes,
        final(store).host() == old(store).host(),
        result is Err ==> !old(store).host().reliable || fragments(
            old(store).host().model,
            owner@,
            owner.data_head,
            0,
            old(store).host().model.pages.len() as u32,
        ) is None,
        result is Ok ==> fragments(
            old(store).host().model,
            owner@,
            owner.data_head,
            0,
            old(store).host().model.pages.len() as u32,
        ) == Some(final(bytes)@.bytes),
{
    let ghost model = store.host().model;
    let ghost whole = fragments(model, owner@, owner.data_head, 0, model.pages.len() as u32);
    let mut block: u32 = owner.data_head;
    let mut remaining: u32 = store.blocks()?;
    let total: usize = owner.data_bytes as usize;
    proof {
        if whole is Some {
            assert(bytes@.bytes + whole->Some_0 =~= whole->Some_0);
        }
    }
    while block != NO_BLOCK
        invariant
            store.host() == old(store).host(),
            bytes@.held == old(bytes)@.held,
            bytes@.bytes.len() <= total,
            match fragments(model, owner@, block, bytes@.bytes.len() as int, remaining) {
                Some(rest) => whole == Some(bytes@.bytes + rest),
                None => whole is None,
            },
        decreases remaining,
    {
        if remaining == 0 {
            return Err(Error::InvalidState);
        }
        remaining = remaining - 1;
        if bytes.bytes().len() == total {
            return Err(Error::InvalidState);
        }
        let page: Page = load(store, block, PageKind::Fragment)?;
        let (reference, current, payload): (OwnerRef, u32, &[u8]) = page.fragment_data()?;
        if reference != owner.reference || current as usize != bytes.bytes().len() || payload.len() > total
            - bytes.bytes().len() {
            return Err(Error::InvalidState);
        }
        let ghost before = bytes@.bytes;
        bytes.append(payload);
        assert(bytes@.bytes =~= before + payload@);
        let next: u32 = page.next()?;
        proof {
            if let Some(rest) = fragments(model, owner@, next, bytes@.bytes.len() as int, remaining) {
                assert(before + (payload@ + rest) =~= bytes@.bytes + rest);
            }
        }
        block = next;
    }
    if bytes.bytes().len() != total {
        return Err(Error::InvalidState);
    }
    assert(bytes@.bytes + Seq::<u8>::empty() =~= bytes@.bytes);
    Ok(())
}

/// What is handed over of an owner, where its payload may decide the phrase.
/// Payloads larger than the budget keep the recheck of the heap tuple.
fn resolve_phrase<S: PageStore, T: RootItem>(
    store: &mut S,
    cache: &mut Option<Page>,
    reference: OwnerRef,
    terms: &Vec<String>,
    memory_bytes: usize,
) -> (result: Result<Option<T>>)
    requires
        cached(*old(cache), old(store).host().model),
        0 < terms@.len() <= 64,
    ensures
        final(store).host() == old(store).host(),
        cached(*final(cache), old(store).host().model),
        result matches Err(error) ==> !old(store).host().reliable || phrase_unshown(
            old(store).host().model,
            crate::query::texts(terms@),
            reference,
            error,
        ),
        result matches Ok(item) ==> phrase_shown(
            old(store).host().model,
            crate::query::texts(terms@),
            memory_bytes,
            reference,
            item,
        ),
{
    let ghost model = store.host().model;
    let ghost phrase = crate::query::texts(terms@);
    assert(phrase =~= wanted_bytes(terms@));
    let reload: bool = match cache {
        Some(page) => if page.block() == reference.page {
            reference.slot >= page.owner_count()?
        } else {
            true
        },
        None => true,
    };
    if reload {
        *cache = Some(load(store, reference.page, PageKind::Owners)?);
    }
    let page: &Page = match cache {
        Some(page) => page,
        None => {
            return Err(Error::InvalidState);
        },
    };
    let owner: Owner<'_> = page.owner(reference.slot, store.layout())?;
    assert(owner@ == page@.owner(reference.slot, model.layout)->Ok_0);
    if owner.reference != reference {
        return Err(Error::InvalidState);
    }
    assert(model.owner_of(reference) == Ok::<OwnerModel, Error>(owner@));
    if !owner.live || owner.publication != Publication::Published {
        return Ok(None);
    }
    if owner.inline.len() > 0 {
        assert(payload_part(model, owner@, owner.inline@));
        return match crate::mutable::phrase_prefix::matches(
            owner.inline,
            owner.inline.len(),
            owner.tokens,
            owner.terms,
            terms.as_slice(),
        )? {
            None => Err(Error::InvalidState),
            Some(present) => {
                assert(payload_told(model, owner@, phrase, owner.inline@, present));
                Ok(
                    if present {
                        Some(T::new(owner.root, false))
                    } else {
                        None
                    },
                )
            },
        };
    }
    let total: usize = owner.data_bytes as usize;
    let page_bytes: usize = size_of::<Page>();
    if memory_bytes < page_bytes || total > memory_bytes - page_bytes || total > MAX_DOCUMENT_BYTES {
        return Ok(Some(T::new(owner.root, true)));
    }
    let first: Page = load(store, owner.data_head, PageKind::Fragment)?;
    let (identity, start, payload): (OwnerRef, u32, &[u8]) = first.fragment_data()?;
    if identity != reference || start != 0 || payload.len() > total {
        return Err(Error::InvalidState);
    }
    assert(first_fragment(model, owner@) == Some(payload@));
    assert(payload_part(model, owner@, payload@));
    if let Some(present) = crate::mutable::phrase_prefix::matches(payload, total, owner.tokens, owner.terms, terms.as_slice())? {
        assert(payload_told(model, owner@, phrase, payload@, present));
        return Ok(
            if present {
                Some(T::new(owner.root, false))
            } else {
                None
            },
        );
    }
    let mut bytes: Scratch = Scratch::new();
    if !bytes.grow(total, memory_bytes - page_bytes) {
        return Ok(Some(T::new(owner.root, true)));
    }
    read_fragments(store, &owner, &mut bytes)?;
    assert(payload_part(model, owner@, bytes@.bytes));
    match crate::mutable::phrase_prefix::matches(bytes.bytes(), total, owner.tokens, owner.terms, terms.as_slice())? {
        None => Err(Error::InvalidState),
        Some(present) => {
            assert(payload_told(model, owner@, phrase, bytes@.bytes, present));
            Ok(
                if present {
                    Some(T::new(owner.root, false))
                } else {
                    None
                },
            )
        },
    }
}

/// The owner found last.
spec fn last_found(owners: Seq<OwnerRef>) -> Option<OwnerRef> {
    if owners.len() == 0 {
        None
    } else {
        Some(owners.last())
    }
}

/// Whether owners are all those up to the last one that satisfy the condition.
spec fn so_far(
    model: StoreModel,
    meta: Image,
    nodes: Seq<Node<'_>>,
    root: int,
    owners: Seq<OwnerRef>,
) -> bool {
    &&& in_order(owners)
    &&& forall|i: int|
        0 <= i < owners.len() ==> known(
            model,
            meta,
            node_texts(nodes),
            #[trigger] owners[i],
        ) && node_value(
            nodes,
            root,
            terms_of(model, meta, owners[i]),
        )
    &&& forall|owner: OwnerRef|
        #![trigger terms_of(model, meta, owner)]
        owners.len() > 0 && node_value(nodes, root, terms_of(model, meta, owner)) && place(owner)
            <= place(owners.last()) ==> owners.contains(owner)
}

/// An owner that satisfies a condition on terms is listed under one.
proof fn value_known(nodes: Seq<Node<'_>>, index: int, model: StoreModel, meta: Image, owner: OwnerRef)
    requires
        laid_out(nodes),
        2 <= index < nodes.len(),
        node_value(nodes, index, terms_of(model, meta, owner)),
    ensures
        known(model, meta, node_texts(nodes), owner),
    decreases index,
{
    assert(operand(nodes[index], index));
    match nodes[index] {
        Node::Term { text, .. } => {
            assert(node_names(nodes[index], text_bytes(text)));
            assert(listed_under(model, meta, owner, text_bytes(text)));
        },
        Node::And(left, _) => {
            value_known(nodes, left as int, model, meta, owner);
        },
        Node::Or(left, right) => {
            if node_value(nodes, left as int, terms_of(model, meta, owner)) {
                value_known(nodes, left as int, model, meta, owner);
            } else {
                value_known(nodes, right as int, model, meta, owner);
            }
        },
        _ => {},
    }
}

/// The next owner that satisfies the condition comes behind those before.
proof fn selected_next(
    model: StoreModel,
    meta: Image,
    nodes: Seq<Node<'_>>,
    root: int,
    owners: Seq<OwnerRef>,
    found: OwnerRef,
)
    requires
        undamaged(model, meta, node_texts(nodes)),
        laid_out(nodes),
        2 <= root < nodes.len(),
        so_far(model, meta, nodes, root, owners),
        is_next(nodes, root, Some(found), last_found(owners), true, model, meta),
        passes(found, last_found(owners), true),
    ensures
        so_far(model, meta, nodes, root, owners.push(found)),
{
    reveal(undamaged);
    let all = owners.push(found);
    assert forall|i: int, j: int| 0 <= i < j < all.len() implies place(#[trigger] all[i]) < place(
        #[trigger] all[j],
    ) by {
        if j == owners.len() && i < owners.len() - 1 {
            assert(place(owners[i]) < place(owners.last()));
        }
    }
    assert forall|i: int| 0 <= i < all.len() implies known(model, meta, node_texts(nodes), #[trigger] all[i])
        && node_value(nodes, root, terms_of(model, meta, all[i])) by {
        if i < owners.len() {
            assert(known(model, meta, node_texts(nodes), owners[i]));
        }
    }
    assert forall|owner: OwnerRef|
        #![trigger terms_of(model, meta, owner)]
        node_value(nodes, root, terms_of(model, meta, owner)) && place(owner) <= place(
            all.last(),
        ) implies all.contains(owner) by {
        value_known(nodes, root, model, meta, owner);
        if owners.len() > 0 && place(owner) <= place(owners.last()) {
            assert(owners.contains(owner));
            let i = choose|i: int| 0 <= i < owners.len() && owners[i] == owner;
            assert(all[i] == owner);
        } else {
            assert(passes(owner, last_found(owners), true));
            assert(place(owner) == place(found));
            assert(known(model, meta, node_texts(nodes), owner) && known(model, meta, node_texts(nodes), found));
            assert(all[owners.len() as int] == owner);
        }
    }
}

/// Where nothing follows, all owners that satisfy the condition were found.
proof fn selected_all(
    model: StoreModel,
    meta: Image,
    plan: Plan<'_>,
    query: QueryModel,
    owners: Seq<OwnerRef>,
)
    requires
        plan.stands_for(query),
        so_far(model, meta, plan.nodes@, plan.root as int, owners),
        is_next(plan.nodes@, plan.root as int, None, last_found(owners), true, model, meta),
    ensures
        selected(model, meta, query, owners),
{
    let nodes = plan.nodes@;
    let root = plan.root as int;
    assert forall|owner: OwnerRef|
        #![trigger terms_of(model, meta, owner)]
        owners.contains(owner) == query_value(
            query,
            query.root,
            terms_of(model, meta, owner),
        ) by {
        assert(node_value(nodes, root, terms_of(model, meta, owner)) == query_value(
            query,
            query.root,
            terms_of(model, meta, owner),
        ));
        if owners.contains(owner) {
            let i = choose|i: int| 0 <= i < owners.len() && owners[i] == owner;
            assert(known(model, meta, node_texts(nodes), owners[i]));
        } else if node_value(nodes, root, terms_of(model, meta, owner)) {
            assert(passes(owner, last_found(owners), true));
        }
    }
}

/// Whether a query needs the heap tuples.
#[verifier::loop_isolation(false)]
fn needs_recheck(query: &Query) -> (needed: bool)
    ensures
        needed == rechecked(query@),
{
    let count: usize = query.node_count();
    let mut index: usize = 0;
    while index < count
        invariant
            index <= count,
            forall|i: int| 0 <= i < index ==> positive(#[trigger] query@.nodes[i]),
        decreases count - index,
    {
        let plain: bool = match &query.node(index).kind {
            Kind::Nothing => true,
            Kind::Term(_) => true,
            Kind::And(_, _) => true,
            Kind::Or(_, _) => true,
            _ => false,
        };
        assert(plain == positive(query@.nodes[index as int]));
        if !plain {
            return true;
        }
        index += 1;
    }
    false
}

/// The owners on an undamaged chain can be resolved.
proof fn ahead_resolved(chain: ChainModel, model: StoreModel)
    requires
        chain.ahead(model) is Some,
    ensures
        forall|i: int|
            0 <= i < chain.ahead(model)->Some_0.len() ==> model.resolved(
                #[trigger] chain.ahead(model)->Some_0[i],
            ) is Ok,
    decreases
            chain.remaining,
            if chain.page is None {
                1int
            } else {
                0int
            },
{
    match chain.page {
        None => {
            if chain.block != NO_BLOCK {
                let page = resumed_page(
                    model.load_posting(chain.block, chain.reference)->Ok_0,
                )->Ok_0;
                ahead_resolved(ChainModel { page: Some(page), ..chain }, model);
            }
        },
        Some(page) => {
            reveal(page_true);
            let list = listed(page.pending, chain.previous)->Some_0;
            let next = chain.left(last_of(list, chain.previous))->Some_0;
            ahead_resolved(next, model);
            let rest = next.ahead(model)->Some_0;
            let all = chain.ahead(model)->Some_0;
            assert forall|i: int| 0 <= i < all.len() implies model.resolved(
                #[trigger] all[i],
            ) is Ok by {
                if i < list.len() {
                    assert(all[i] == list[i]);
                } else {
                    assert(all[i] == rest[i - list.len()]);
                }
            }
        },
    }
}

/// Owners that are listed under terms can be resolved.
pub proof fn known_resolved(
    model: StoreModel,
    meta: Image,
    texts: Set<Seq<u8>>,
    owner: OwnerRef,
)
    requires
        undamaged(model, meta, texts),
        known(model, meta, texts, owner),
    ensures
        model.resolved(owner) is Ok,
{
    reveal(undamaged);
    let term = choose|term: Seq<u8>|
        texts.contains(term) && #[trigger] listed_under(model, meta, owner, term);
    let list = term_list(model, meta, term)->Some_0;
    assert(term_list(model, meta, term) is Some);
    let i = choose|i: int| 0 <= i < list.len() && list[i] == owner;
    if let Ok(Some((image, reference))) = model.find_term(meta, term) {
        if let Ok(entry) = image.term(reference) {
            let chain = ChainModel {
                reference,
                block: entry.head,
                tail: entry.tail,
                remaining: model.pages.len() as u32,
                previous: entry.first,
                page: None,
            };
            ahead_resolved(chain, model);
            let rest = chain.ahead(model)->Some_0;
            if i > 0 {
                assert(list[i] == rest[i - 1]);
            }
        }
    }
}

/// What was handed over so far of the owners found so far.
#[verifier::opaque]
spec fn progress<T: RootItem>(
    model: StoreModel,
    query: QueryModel,
    phrase_positions: bool,
    room: usize,
    before: Seq<T>,
    now: Seq<T>,
    count: int,
    owners: Seq<OwnerRef>,
    items: Seq<Option<T>>,
) -> bool {
    &&& listing(model, query, phrase_positions, room, owners, items)
    &&& now == before + flat(items)
    &&& count == now.len() - before.len()
}

proof fn progress_next<T: RootItem>(
    model: StoreModel,
    query: QueryModel,
    phrase_positions: bool,
    room: usize,
    before: Seq<T>,
    now: Seq<T>,
    count: int,
    owners: Seq<OwnerRef>,
    items: Seq<Option<T>>,
    owner: OwnerRef,
    item: Option<T>,
)
    requires
        progress(model, query, phrase_positions, room, before, now, count, owners, items),
        shown(model, query, phrase_positions, room, owner, item),
    ensures
        match item {
            Some(value) => progress(
                model,
                query,
                phrase_positions,
                room,
                before,
                now.push(value),
                count + 1,
                owners.push(owner),
                items.push(item),
            ),
            None => progress(
                model,
                query,
                phrase_positions,
                room,
                before,
                now,
                count,
                owners.push(owner),
                items.push(item),
            ),
        },
        before.is_prefix_of(now),
{
    reveal(progress);
    let all = owners.push(owner);
    let more = items.push(item);
    assert(more.drop_last() =~= items);
    assert forall|i: int| 0 <= i < all.len() implies shown(
        model,
        query,
        phrase_positions,
        room,
        #[trigger] all[i],
        more[i],
    ) by {
        if i < owners.len() {
            assert(shown(model, query, phrase_positions, room, owners[i], items[i]));
        }
    }
    if let Some(value) = item {
        assert(before + flat(items).push(value) =~= (before + flat(items)).push(value));
    }
}

/// The phrase of a query that positions can decide.
fn exact_phrase(query: &Query, phrase_positions: bool) -> (terms: Option<&Vec<String>>)
    ensures
        match terms {
            Some(terms) => phrase_positions && single_phrase(query@)
                && query@.nodes[query@.root]->Phrase_0 == crate::query::texts(terms@)
                && 0 < terms@.len() <= 64,
            None => !(phrase_positions && single_phrase(query@)),
        },
{
    let root: usize = query.root();
    if phrase_positions && query.node_count() == 1 {
        if let Kind::Phrase(terms) = &query.node(root).kind {
            if terms.len() <= 64 {
                return Some(terms);
            }
        }
    }
    None
}

/// Hands over what satisfies an opened plan.
#[verifier::loop_isolation(false)]
fn stream_plan<S: PageStore, T: RootItem, E: Sink<T>>(
    store: &mut S,
    plan: &mut Plan<'_>,
    query: &Query,
    phrase_positions: bool,
    emit: &mut E,
    meta: Ghost<Image>,
) -> (result: Result<u64>)
    requires
        old(plan).wf(),
        old(plan).root >= 2,
        old(plan).stands_for(query@),
        named(old(plan).nodes@, query_texts(query@)),
        meta@ == old(store).host().model.load(0, PageKind::Meta)->Ok_0,
        old(plan).kept_up(old(store).host().model, meta@),
        undamaged(
            old(store).host().model,
            meta@,
            node_texts(old(plan).nodes@),
        ) ==> old(plan).stands(
            old(store).host().model,
            meta@,
            None,
            true,
        ),
    ensures
        final(store).host() == old(store).host(),
        final(emit).accepting() == old(emit).accepting(),
        old(emit).received().is_prefix_of(final(emit).received()),
        match result {
            Ok(count) => {
                &&& count == final(emit).received().len() - old(emit).received().len()
                &&& undamaged(
            old(store).host().model,
            meta@,
            node_texts(old(plan).nodes@),
        ) ==> streamed(
                    old(store).host().model,
                    meta@,
                    query@,
                    phrase_positions,
                    old(plan).scratch_bytes,
                    old(emit).received(),
                    final(emit).received(),
                )
            },
            Err(error) => undamaged(
            old(store).host().model,
            meta@,
            node_texts(old(plan).nodes@),
        ) && old(store).host().reliable
                && old(emit).accepting() ==> {
                ||| error == Error::Limit("candidate count") && final(emit).received().len() - old(emit).received().len() >= u64::MAX
                ||| phrase_positions && single_phrase(query@) && some_unshown(
                    old(store).host().model,
                    meta@,
                    node_texts(old(plan).nodes@),
                    query@.nodes[query@.root]->Phrase_0,
                    error,
                )
            },
        },
{
    let ghost model = store.host().model;
    let ghost names = node_texts(plan.nodes@);
    let ghost sound = undamaged(model, meta@, names);
    let ghost before = emit.received();
    let ghost room = plan.scratch_bytes;
    let ghost mut owners: Seq<OwnerRef> = Seq::empty();
    let ghost mut items: Seq<Option<T>> = Seq::empty();
    let recheck: bool = needs_recheck(query);
    let phrase: Option<&Vec<String>> = exact_phrase(query, phrase_positions);
    let mut cache: Option<Page> = None;
    let mut previous: Option<OwnerRef> = None;
    let mut count: u64 = 0;
    proof {
        reveal(progress);
        assert(before + flat(items) =~= before);
    }
    loop
        invariant
            store.host() == old(store).host(),
            emit.accepting() == old(emit).accepting(),
            cached(cache, model),
            plan.wf(),
            plan.root >= 2,
            plan.stands_for(query@),
            plan.nodes == old(plan).nodes,
            plan.root == old(plan).root,
            plan.scratch_bytes == room,
            plan.kept_up(model, meta@),
            previous == last_found(owners),
            before.is_prefix_of(emit.received()),
            progress(
                model,
                query@,
                phrase_positions,
                room,
                before,
                emit.received(),
                count as int,
                owners,
                items,
            ),
            sound ==> plan.placed(model, meta@, previous) && so_far(
                model,
                meta@,
                plan.nodes@,
                plan.root as int,
                owners,
            ),
        decreases
                if previous is None {
                    0x1_0000_0000_0001
                } else {
                    0x1_0000_0000_0000 - place(previous->Some_0)
                },
    {
        proof {
            if sound && owners.len() > 0 {
                assert(known(model, meta@, names, owners[owners.len() - 1]));
            }
        }
        let owner: OwnerRef = match plan.seek(store, previous, meta)? {
            None => {
                proof {
                    reveal(progress);
                    if sound {
                        selected_all(model, meta@, *plan, query@, owners);
                        assert(listing(model, query@, phrase_positions, room, owners, items));
                    }
                }
                return Ok(count);
            },
            Some(owner) => owner,
        };
        proof {
            if sound {
                selected_next(
                    model,
                    meta@,
                    plan.nodes@,
                    plan.root as int,
                    owners,
                    owner,
                );
                known_resolved(model, meta@, names, owner);
            }
        }
        let item: Option<T> = match phrase {
            Some(terms) => match resolve_phrase(
                store,
                &mut cache,
                owner,
                terms,
                plan.scratch_bytes,
            ) {
                Ok(item) => item,
                Err(error) => {
                    assert(sound ==> known(model, meta@, names, owner));
                    return Err(error);
                },
            },
            None => {
                let direct: Option<Option<RootTid>> = plan.direct(
                    owner,
                    store.layout(),
                    Ghost(model),
                    meta,
                )?;
                let root: Option<RootTid> = match direct {
                    Some(root) => {
                        proof {
                            named_texts(plan.nodes@, query_texts(query@));
                            named_more(model, meta@, names, query_texts(query@), owner, root);
                        }
                        root
                    },
                    None => resolve(store, &mut cache, owner)?,
                };
                assert(root_shown(model, query@, owner, root));
                match root {
                    Some(root) => Some(T::new(root, recheck)),
                    None => None,
                }
            },
        };
        let ghost now = emit.received();
        proof {
            progress_next(
                model,
                query@,
                phrase_positions,
                room,
                before,
                now,
                count as int,
                owners,
                items,
                owner,
                item,
            );
            owners = owners.push(owner);
            items = items.push(item);
        }
        if let Some(value) = item {
            emit.emit(value)?;
            assert(before.is_prefix_of(now.push(value)));
            match count.checked_add(1) {
                Some(next) => {
                    count = next;
                },
                None => {
                    reveal(progress);
                    return Err(Error::Limit("candidate count"));
                },
            }
        }
        previous = Some(owner);
    }
}

/// Whether the scan of a cover ends in an error: something on its way is
/// damaged, or it is too long to be counted.
pub open spec fn cover_fails<T: RootItem>(
    model: StoreModel,
    plan: CandidatePlan<'_>,
    error: Error,
) -> bool {
    let walk = model.plan_walk::<T>(plan);
    ||| walk.end == Err::<(), Error>(error)
    ||| error == Error::Limit("candidate count") && walk.items.len() > u64::MAX
}

/// What a scan of the conditions of a query comes to.
#[verifier::opaque]
pub open spec fn planned_scan<T: RootItem>(
    model: StoreModel,
    query: QueryModel,
    phrase_positions: bool,
    room: usize,
    before: Seq<T>,
    now: Seq<T>,
    result: Result<u64>,
    certain: bool,
) -> bool {
    &&& before.is_prefix_of(now)
    &&& if universal(query) {
        covered_by(model, CandidatePlan::Universe, before, now, result, certain)
    } else {
        match result {
            Ok(count) => {
                &&& count == now.len() - before.len()
                &&& model.load(0, PageKind::Meta) matches Ok(meta) ==> (undamaged(
                    model,
                    meta,
                    query_texts(query),
                )
                    ==> streamed(model, meta, query, phrase_positions, room, before, now))
            },
            Err(error) => certain && (model.load(0, PageKind::Meta) matches Ok(meta) && undamaged(
                model,
                meta,
                query_texts(query),
            )) ==> {
                ||| error == Error::Limit("candidate count") && now.len() - before.len() >= u64::MAX
                ||| phrase_positions && single_phrase(query) && some_unshown(
                    model,
                    model.load(0, PageKind::Meta)->Ok_0,
                    query_texts(query),
                    query.nodes[query.root]->Phrase_0,
                    error,
                )
            },
        }
    }
}

/// What a scan of a cover comes to.
pub open spec fn covered_by<T: RootItem>(
    model: StoreModel,
    plan: CandidatePlan<'_>,
    before: Seq<T>,
    now: Seq<T>,
    result: Result<u64>,
    certain: bool,
) -> bool {
    match result {
        Ok(count) => count == now.len() - before.len() && now == before + model.plan_walk::<T>(
            plan,
        ).items && model.plan_walk::<T>(plan).end is Ok,
        Err(error) => certain ==> cover_fails::<T>(model, plan, error),
    }
}

/// What a scan of some cover of a query comes to: that of the cover, or nothing
/// was handed over for want of memory or because the query has too many terms.
#[verifier::opaque]
pub open spec fn covered_scan<T: RootItem>(
    model: StoreModel,
    query: QueryModel,
    before: Seq<T>,
    now: Seq<T>,
    result: Result<u64>,
    certain: bool,
) -> bool {
    &&& before.is_prefix_of(now)
    &&& {
        ||| exists|plan: CandidatePlan<'_>|
            plan.is_cover(query) && #[trigger] covered_by(model, plan, before, now, result, certain)
        ||| now == before && (result matches Err(error) && (out_of_memory(error) || (error
            == Error::Limit("candidate covers") && !query.countable())))
    }
}

/// What a scan of a query that is no single term comes to: that of its conditions,
/// in the room that their plan leaves of the budget, or that of a cover where their plan does not fit the budget, or nothing was
/// handed over because the plan was refused.
#[verifier::opaque]
pub open spec fn scanned<T: RootItem>(
    model: StoreModel,
    query: QueryModel,
    memory_bytes: usize,
    phrase_positions: bool,
    before: Seq<T>,
    now: Seq<T>,
    result: Result<u64>,
    certain: bool,
) -> bool {
    ||| exists|room: usize|
        room <= memory_bytes && #[trigger] planned_scan(
            model,
            query,
            phrase_positions,
            room,
            before,
            now,
            result,
            certain,
        )
    ||| covered_scan(model, query, before, now, result, certain)
    ||| now == before && (result matches Err(error) && (error == Error::Allocation || (error
        == Error::Limit("query nodes") && plan_room(query) > usize::MAX)))
}

/// A scan that succeeded, or that nothing failed under, is certain.
pub(crate) proof fn certain_scan<T: RootItem>(
    model: StoreModel,
    query: QueryModel,
    memory_bytes: usize,
    phrase_positions: bool,
    before: Seq<T>,
    now: Seq<T>,
    result: Result<u64>,
    certain: bool,
)
    requires
        scanned(model, query, memory_bytes, phrase_positions, before, now, result, certain),
        certain || result is Ok,
    ensures
        scanned(model, query, memory_bytes, phrase_positions, before, now, result, true),
{
    if !certain {
        reveal(scanned);
        if exists|room: usize|
            room <= memory_bytes && #[trigger] planned_scan(
                model,
                query,
                phrase_positions,
                room,
                before,
                now,
                result,
                certain,
            ) {
            let room = choose|room: usize|
                room <= memory_bytes && #[trigger] planned_scan(
                    model,
                    query,
                    phrase_positions,
                    room,
                    before,
                    now,
                    result,
                    certain,
                );
            reveal(planned_scan);
            assert(planned_scan(
                model,
                query,
                phrase_positions,
                room,
                before,
                now,
                result,
                true,
            ));
        } else {
            reveal(covered_scan);
            if exists|plan: CandidatePlan<'_>|
                plan.is_cover(query) && #[trigger] covered_by(
                    model,
                    plan,
                    before,
                    now,
                    result,
                    certain,
                ) {
                let plan = choose|plan: CandidatePlan<'_>|
                    plan.is_cover(query) && #[trigger] covered_by(
                        model,
                        plan,
                        before,
                        now,
                        result,
                        certain,
                    );
                assert(covered_by(model, plan, before, now, result, true));
            }
        }
    }
}

/// What a scan of a query comes to: that of a single term, or that of its
/// conditions. A plan that cannot fit the budget makes it that of a cover, and
/// where not even the cover can fit, nothing is handed over.
pub open spec fn query_told<T: RootItem>(
    model: StoreModel,
    query: QueryModel,
    memory_bytes: usize,
    phrase_positions: bool,
    before: Seq<T>,
    now: Seq<T>,
    result: Result<u64>,
    certain: bool,
) -> bool {
    match query.nodes[query.root] {
        KindModel::Term(term) => delivered(
            model.single_term::<T>(term),
            before,
            now,
            result,
            certain,
            Error::Limit("candidate count"),
        ),
        _ => {
            &&& scanned(
                model,
                query,
                memory_bytes,
                phrase_positions,
                before,
                now,
                result,
                certain,
            )
            &&& plan_too_large(query, memory_bytes) ==> covered_scan(
                model,
                query,
                before,
                now,
                result,
                certain,
            )
            &&& plan_too_large(query, memory_bytes) && query.nodes.len()
                * vstd::layout::size_of::<usize>() > memory_bytes ==> result == Err::<u64, Error>(
                Error::Budget(BudgetError::LimitExceeded),
            ) && now == before
        },
    }
}

/// Whether an owner under one of some terms cannot be shown for a phrase.
pub open spec fn some_unshown(
    model: StoreModel,
    meta: Image,
    texts: Set<Seq<u8>>,
    terms: Seq<Seq<u8>>,
    error: Error,
) -> bool {
    exists|owner: OwnerRef| #[trigger]
        known(model, meta, texts, owner) && phrase_unshown(model, terms, owner, error)
}

/// Streams roots with the predicate recheck obligation of the executed plan, and
/// optionally proves a single phrase from a complete indexed positional payload.
/// Payloads larger than the scan budget retain the heap predicate recheck.
///
/// A false flag proves only positive term/AND/OR membership for this query,
/// after published-owner and incarnation validation. It never proves visibility.
/// Approximate operators and every budget fallback emit with recheck required.
///
/// # Errors
/// Rejects encountered corruption, invalid owner order, host failures and budgets
/// too small for even the fallback. No fallback is attempted after any emission.
pub fn scan_query_with_options<S: PageStore, T: RootItem, E: Sink<T>>(
    store: &mut S,
    query: &Query,
    memory_bytes: usize,
    phrase_positions: bool,
    emit: &mut E,
) -> (result: Result<u64>)
    ensures
        final(store).host() == old(store).host(),
        query_told(
            old(store).host().model,
            query@,
            memory_bytes,
            phrase_positions,
            old(emit).received(),
            final(emit).received(),
            result,
            old(store).host().reliable && old(emit).accepting(),
        ),
{
    let root: usize = query.root();
    if let Kind::Term(text) = &query.node(root).kind {
        return scan_single_term(store, text.as_str(), emit);
    }
    reveal(scanned);
    let built: Result<Plan<'_>> = Plan::build(query, memory_bytes);
    scan_lowered(store, query, built, memory_bytes, phrase_positions, emit)
}

/// Scans the conditions of a query whose plan was built, or a cover where the
/// plan does not fit the budget.
fn scan_lowered<'q, S: PageStore, T: RootItem, E: Sink<T>>(
    store: &mut S,
    query: &'q Query,
    built: Result<Plan<'q>>,
    memory_bytes: usize,
    phrase_positions: bool,
    emit: &mut E,
) -> (result: Result<u64>)
    requires
        built matches Ok(plan) ==> plan.wf() && plan.stands_for(query@) && named(
            plan.nodes@,
            query_texts(query@),
        ),
    ensures
        final(store).host() == old(store).host(),
        match built {
            Ok(plan) => planned_scan(
                old(store).host().model,
                query@,
                phrase_positions,
                plan.scratch_bytes,
                old(emit).received(),
                final(emit).received(),
                result,
                old(store).host().reliable && old(emit).accepting(),
            ),
            Err(Error::Budget(_)) => {
                &&& covered_scan(
                    old(store).host().model,
                    query@,
                    old(emit).received(),
                    final(emit).received(),
                    result,
                    old(store).host().reliable && old(emit).accepting(),
                )
                &&& query@.nodes.len() * vstd::layout::size_of::<usize>() > memory_bytes ==> result
                    == Err::<u64, Error>(Error::Budget(BudgetError::LimitExceeded))
                    && final(emit).received() == old(emit).received()
            },
            Err(error) => result == Err::<u64, Error>(error) && final(emit).received()
                == old(emit).received(),
        },
{
    let ghost model = store.host().model;
    let ghost before = emit.received();
    let mut plan: Plan<'q> = match built {
        Ok(plan) => plan,
        Err(Error::Budget(_)) => {
            return scan_covered(store, query, memory_bytes, emit);
        },
        Err(error) => {
            return Err(error);
        },
    };
    if plan.root == EMPTY {
        proof {
            empty_plan(plan, query@);
            nothing_scanned::<T>(model, query@, phrase_positions, plan.scratch_bytes, before);
        }
        return Ok(0);
    }
    if plan.root == UNIVERSE {
        proof {
            universal_plan(plan, query@);
        }
        return scan_all(store, query, emit, phrase_positions, Ghost(plan.scratch_bytes));
    }
    scan_planned(store, query, &mut plan, phrase_positions, emit)
}

/// Scans a cover of a query.
fn scan_covered<S: PageStore, T: RootItem, E: Sink<T>>(
    store: &mut S,
    query: &Query,
    memory_bytes: usize,
    emit: &mut E,
) -> (result: Result<u64>)
    ensures
        final(store).host() == old(store).host(),
        covered_scan(
            old(store).host().model,
            query@,
            old(emit).received(),
            final(emit).received(),
            result,
            old(store).host().reliable && old(emit).accepting(),
        ),
        query@.nodes.len() * vstd::layout::size_of::<usize>() > memory_bytes ==> result == Err::<
            u64,
            Error,
        >(Error::Budget(BudgetError::LimitExceeded)) && final(emit).received()
            == old(emit).received(),
{
    reveal(covered_scan);
    let cover: CandidatePlan<'_> = match CandidatePlan::build(query, memory_bytes) {
        Ok(cover) => cover,
        Err(error) => {
            return Err(error);
        },
    };
    scan_cover(store, &cover, emit)
}

/// Nothing satisfies a query whose plan is empty.
proof fn empty_plan(plan: Plan<'_>, query: QueryModel)
    requires
        plan.wf(),
        plan.stands_for(query),
        plan.root == EMPTY,
    ensures
        forall|under: spec_fn(Seq<u8>) -> bool| !#[trigger] query_value(query, query.root, under),
{
    assert forall|under: spec_fn(Seq<u8>) -> bool| !#[trigger]
        query_value(query, query.root, under) by {
        assert(!node_value(plan.nodes@, 0, under));
    }
}

/// Everything satisfies a query whose plan is everything.
proof fn universal_plan(plan: Plan<'_>, query: QueryModel)
    requires
        plan.wf(),
        plan.stands_for(query),
        plan.root == UNIVERSE,
    ensures
        forall|under: spec_fn(Seq<u8>) -> bool| #[trigger] query_value(query, query.root, under),
{
    assert forall|under: spec_fn(Seq<u8>) -> bool| #[trigger]
        query_value(query, query.root, under) by {
        assert(node_value(plan.nodes@, 1, under));
    }
}

/// A proper condition does not hold of an owner under no term.
proof fn nothing_under(nodes: Seq<Node<'_>>, index: int)
    requires
        laid_out(nodes),
        2 <= index < nodes.len(),
    ensures
        !node_value(nodes, index, |term: Seq<u8>| false),
    decreases index,
{
    assert(operand(nodes[index], index));
    match nodes[index] {
        Node::And(left, right) => {
            nothing_under(nodes, left as int);
        },
        Node::Or(left, right) => {
            nothing_under(nodes, left as int);
            nothing_under(nodes, right as int);
        },
        _ => {},
    }
}

/// A query whose plan is neither empty nor everything does not hold of everything.
proof fn proper_plan(plan: Plan<'_>, query: QueryModel)
    requires
        plan.wf(),
        plan.stands_for(query),
        plan.root >= 2,
    ensures
        !universal(query),
{
    let nowhere = |term: Seq<u8>| false;
    nothing_under(plan.nodes@, plan.root as int);
    assert(node_value(plan.nodes@, plan.root as int, nowhere) == query_value(
        query,
        query.root,
        nowhere,
    ));
}

/// A query that nothing satisfies is answered by nothing.
proof fn nothing_scanned<T: RootItem>(
    model: StoreModel,
    query: QueryModel,
    phrase_positions: bool,
    room: usize,
    before: Seq<T>,
)
    requires
        forall|under: spec_fn(Seq<u8>) -> bool| !#[trigger] query_value(query, query.root, under),
    ensures
        planned_scan(model, query, phrase_positions, room, before, before, Ok(0), true),
        planned_scan(model, query, phrase_positions, room, before, before, Ok(0), false),
{
    reveal(planned_scan);
    let nowhere = |term: Seq<u8>| false;
    assert(!query_value(query, query.root, nowhere));
    let owners = Seq::<OwnerRef>::empty();
    let items = Seq::<Option<T>>::empty();
    assert(before =~= before + flat(items));
    if let Ok(meta) = model.load(0, PageKind::Meta) {
        assert(listing(model, query, phrase_positions, room, owners, items));
        assert(selected(model, meta, query, owners));
        assert(streamed(model, meta, query, phrase_positions, room, before, before));
    }
}

/// Hands over what satisfies a plan that is neither empty nor everything.
fn scan_planned<'q, S: PageStore, T: RootItem, E: Sink<T>>(
    store: &mut S,
    query: &'q Query,
    plan: &mut Plan<'q>,
    phrase_positions: bool,
    emit: &mut E,
) -> (result: Result<u64>)
    requires
        old(plan).wf(),
        old(plan).root >= 2,
        old(plan).stands_for(query@),
        named(old(plan).nodes@, query_texts(query@)),
    ensures
        final(store).host() == old(store).host(),
        planned_scan(
            old(store).host().model,
            query@,
            phrase_positions,
            old(plan).scratch_bytes,
            old(emit).received(),
            final(emit).received(),
            result,
            old(store).host().reliable && old(emit).accepting(),
        ),
{
    let ghost model = store.host().model;
    let ghost meta = model.load(0, PageKind::Meta)->Ok_0;
    reveal(planned_scan);
    proof {
        proper_plan(*plan, query@);
        named_texts(plan.nodes@, query_texts(query@));
        undamaged_fewer(model, meta, node_texts(plan.nodes@), query_texts(query@));
    }
    plan.open(store)?;
    stream_plan(store, plan, query, phrase_positions, emit, Ghost(meta))
}

/// Hands over all searchable owners.
fn scan_all<S: PageStore, T: RootItem, E: Sink<T>>(
    store: &mut S,
    query: &Query,
    emit: &mut E,
    phrase_positions: bool,
    room: Ghost<usize>,
) -> (result: Result<u64>)
    requires
        universal(query@),
    ensures
        final(store).host() == old(store).host(),
        planned_scan(
            old(store).host().model,
            query@,
            phrase_positions,
            room@,
            old(emit).received(),
            final(emit).received(),
            result,
            old(store).host().reliable && old(emit).accepting(),
        ),
{
    let plan: CandidatePlan<'_> = CandidatePlan::Universe;
    let ghost walk = store.host().model.plan_walk::<T>(plan);
    let result: Result<u64> = scan(store, &plan, emit);
    proof {
        reveal(planned_scan);
        if let Err(error) = result {
            assert(partly(walk, old(emit).received(), emit.received()));
        }
    }
    result
}

/// Hands over a cover.
fn scan_cover<S: PageStore, T: RootItem, E: Sink<T>>(
    store: &mut S,
    plan: &CandidatePlan<'_>,
    emit: &mut E,
) -> (result: Result<u64>)
    ensures
        final(store).host() == old(store).host(),
        old(emit).received().is_prefix_of(final(emit).received()),
        covered_by(
            old(store).host().model,
            *plan,
            old(emit).received(),
            final(emit).received(),
            result,
            old(store).host().reliable && old(emit).accepting(),
        ),
{
    let ghost walk = store.host().model.plan_walk::<T>(*plan);
    let result: Result<u64> = scan(store, plan, emit);
    proof {
        if let Err(error) = result {
            assert(partly(walk, old(emit).received(), emit.received()));
        }
    }
    result
}

/// Streams roots with the predicate recheck obligation of the executed plan.
///
/// # Errors
/// Has the same bounded-work and structural-barrier contract as `scan_query`.
pub fn scan_query_with_recheck<S: PageStore, E: Sink<Found>>(
    store: &mut S,
    query: &Query,
    memory_bytes: usize,
    emit: &mut E,
) -> (result: Result<u64>)
    ensures
        final(store).host() == old(store).host(),
        query_told(
            old(store).host().model,
            query@,
            memory_bytes,
            false,
            old(emit).received(),
            final(emit).received(),
            result,
            old(store).host().reliable && old(emit).accepting(),
        ),
{
    scan_query_with_options(store, query, memory_bytes, false, emit)
}

/// Streams Boolean necessary conditions with bounded private posting cursors.
///
/// AND intersects, OR unions, and phrases intersect their required terms. Prefix
/// and NOT operands conservatively cover the universe. The host must hold the
/// shared structural barrier throughout this call and recheck every heap tuple.
/// The memory budget excludes the borrowed query, fixed page scratch and host
/// bitmap. A cursor-budget failure uses a cover of terms, never truncation.
/// Returned accounting is not a snapshot-visible count; the host deduplicates TIDs.
///
/// # Errors
/// Rejects encountered corruption, invalid owner order, host failures and budgets
/// too small for even the fallback. No fallback is attempted after any emission.
pub fn scan_query<S: PageStore, E: Sink<RootTid>>(
    store: &mut S,
    query: &Query,
    memory_bytes: usize,
    emit: &mut E,
) -> (result: Result<u64>)
    ensures
        final(store).host() == old(store).host(),
        query_told(
            old(store).host().model,
            query@,
            memory_bytes,
            false,
            old(emit).received(),
            final(emit).received(),
            result,
            old(store).host().reliable && old(emit).accepting(),
        ),
{
    scan_query_with_options(store, query, memory_bytes, false, emit)
}

} // verus!
