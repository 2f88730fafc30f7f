//! Lazy term-addressable suffixes over canonical posting chains.

use crate::error::{Error, Result};
use crate::identity::group_identity;
use crate::mutable::page::model::Image;
use crate::mutable::page::postings::{resumed_page, PostingCursor};
use crate::mutable::page::{
    OwnedPostings, OwnerRef, Page, PageKind, Postings, Term, TermRef, NO_BLOCK,
};
use crate::mutable::store::{
    answers, load_posting, posting_next, posting_next_of, PageStore, StoreModel,
};
use vstd::prelude::*;

verus! {

broadcast use group_identity;

/// How one owner stands to another.
#[derive(Clone, Copy, Debug, Eq, PartialEq, Structural)]
pub enum Order {
    Before,
    Same,
    Behind,
}

/// The order of two numbers.
pub open spec fn number_order(left: int, right: int) -> Order {
    if left < right {
        Order::Before
    } else if left == right {
        Order::Same
    } else {
        Order::Behind
    }
}

/// The order of two owners: coordinates and never-reused incarnations agree.
pub open spec fn owner_order(left: OwnerRef, right: OwnerRef) -> Result<Order> {
    let place = number_order(
        left.page * 0x1_0000 + left.slot,
        right.page * 0x1_0000 + right.slot,
    );
    if place != number_order(left.incarnation.get() as int, right.incarnation.get() as int) {
        Err(Error::InvalidState)
    } else {
        Ok(place)
    }
}

pub(crate) fn ordered(left: OwnerRef, right: OwnerRef) -> (result: Result<Order>)
    ensures
        result == owner_order(left, right),
{
    let place: Order = if left.page < right.page || (left.page == right.page && left.slot
        < right.slot) {
        Order::Before
    } else if left.page == right.page && left.slot == right.slot {
        Order::Same
    } else {
        Order::Behind
    };
    let age: Order = if left.incarnation.get() < right.incarnation.get() {
        Order::Before
    } else if left.incarnation.get() == right.incarnation.get() {
        Order::Same
    } else {
        Order::Behind
    };
    if place != age {
        return Err(Error::InvalidState);
    }
    Ok(place)
}

/// Dictionary values, copied while their checked private page is alive.
#[derive(Clone, Copy, Debug, Eq, PartialEq, Structural)]
pub struct SuffixTerm {
    pub reference: TermRef,
    pub first: OwnerRef,
    pub head: u32,
    pub tail: u32,
}

impl SuffixTerm {
    pub fn of(term: &Term<'_>) -> (entry: Self)
        ensures
            entry == (SuffixTerm {
                reference: term.reference,
                first: term.first,
                head: term.head,
                tail: term.tail,
            }),
    {
        SuffixTerm {
            reference: term.reference,
            first: term.first,
            head: term.head,
            tail: term.tail,
        }
    }
}

/// A term's owners behind a cutoff, read on demand.
pub struct SuffixCursor {
    entry: Option<SuffixTerm>,
    after: Option<OwnerRef>,
    current: Option<OwnerRef>,
    previous: Option<OwnerRef>,
    block: u32,
    remaining: u32,
    page: Option<OwnedPostings>,
    opened: bool,
}

/// How far a suffix was read.
#[verifier::ext_equal]
pub struct SuffixModel {
    pub entry: Option<SuffixTerm>,
    pub after: Option<OwnerRef>,
    pub current: Option<OwnerRef>,
    pub previous: Option<OwnerRef>,
    pub block: u32,
    pub remaining: u32,
    pub page: Option<PostingCursor>,
    pub opened: bool,
}

impl View for SuffixCursor {
    type V = SuffixModel;

    closed spec fn view(&self) -> SuffixModel {
        SuffixModel {
            entry: self.entry,
            after: self.after,
            current: self.current,
            previous: self.previous,
            block: self.block,
            remaining: self.remaining,
            page: match self.page {
                Some(page) => Some(page@),
                None => None,
            },
            opened: self.opened,
        }
    }
}

impl SuffixModel {
    /// How many outcomes of the page at hand are to come.
    pub open spec fn pending(self) -> int {
        match self.page {
            Some(page) => page.pending.len() as int,
            None => 0,
        }
    }

    /// Whether less is left to read than in another state.
    pub open spec fn shorter(self, other: SuffixModel) -> bool {
        self.remaining < other.remaining || (self.remaining == other.remaining && self.page is Some
            && (other.page is None || self.pending() < other.pending()))
    }

    /// The state behind the page at hand.
    pub open spec fn page_left(self) -> Result<SuffixModel> {
        match posting_next_of(
            self.page->Some_0.image,
            self.entry->Some_0.tail,
            self.remaining,
        ) {
            Err(error) => Err(error),
            Ok(next) => Ok(
                SuffixModel {
                    block: match next {
                        Some(next) => next,
                        None => NO_BLOCK,
                    },
                    remaining: (self.remaining - 1) as u32,
                    page: None,
                    ..self
                },
            ),
        }
    }

    /// Whether the page at hand ends before the target, by its stored endpoints;
    /// its last owner then.
    pub open spec fn page_passed(self, target: OwnerRef, exclusive: bool) -> Result<
        Option<OwnerRef>,
    > {
        let image = self.page->Some_0.image;
        if image.kind != PageKind::DirectPostings {
            Ok(None)
        } else {
            match image.direct_endpoints() {
                Err(error) => Err(error),
                Ok((_, last)) => match owner_order(last, target) {
                    Err(error) => Err(error),
                    Ok(order) => if order == Order::Before || (exclusive && order == Order::Same) {
                        match self.previous {
                            None => Err(Error::InvalidState),
                            Some(previous) => match owner_order(previous, last) {
                                Err(error) => Err(error),
                                Ok(order) => if order == Order::Behind {
                                    Err(Error::InvalidState)
                                } else {
                                    Ok(Some(last))
                                },
                            },
                        }
                    } else {
                        Ok(None)
                    },
                },
            }
        }
    }

    /// The next owner of the page at hand, which stands behind the previous one.
    pub open spec fn taken(self) -> Result<(OwnerRef, SuffixModel)> {
        let page = self.page->Some_0;
        match page.pending[0] {
            Err(error) => Err(error),
            Ok(owner) => match self.previous {
                None => Err(Error::InvalidState),
                Some(previous) => match owner_order(previous, owner) {
                    Err(error) => Err(error),
                    Ok(order) => if order != Order::Before {
                        Err(Error::InvalidState)
                    } else {
                        Ok(
                            (
                                owner,
                                SuffixModel {
                                    previous: Some(owner),
                                    page: Some(
                                        PostingCursor {
                                            remaining: (page.remaining - 1) as nat,
                                            pending: page.pending.drop_first(),
                                            ..page
                                        },
                                    ),
                                    ..self
                                },
                            ),
                        )
                    },
                },
            },
        }
    }

    /// The next owner of the chain and the state behind it. Pages that end
    /// before the target are skipped by their endpoints.
    pub open spec fn advanced(self, model: StoreModel, target: OwnerRef, exclusive: bool) -> Result<
        (Option<OwnerRef>, SuffixModel),
    >
        decreases
                self.remaining,
                if self.page is None {
                    1int
                } else {
                    0int
                },
    {
        match self.page {
            None => if self.block == NO_BLOCK {
                Ok((None, self))
            } else {
                match model.load_posting(self.block, self.entry->Some_0.reference) {
                    Err(error) => Err(error),
                    Ok(image) => match resumed_page(image) {
                        Err(error) => Err(error),
                        Ok(page) => (SuffixModel { page: Some(page), ..self }).advanced(
                            model,
                            target,
                            exclusive,
                        ),
                    },
                }
            },
            Some(page) => match self.page_passed(target, exclusive) {
                Err(error) => Err(error),
                Ok(Some(last)) => match (SuffixModel { previous: Some(last), ..self }).page_left() {
                    Err(error) => Err(error),
                    Ok(rest) => if self.remaining > 0 {
                        rest.advanced(model, target, exclusive)
                    } else {
                        Err(Error::InvalidState)
                    },
                },
                Ok(None) => if page.pending.len() > 0 {
                    match self.taken() {
                        Err(error) => Err(error),
                        Ok((owner, rest)) => Ok((Some(owner), rest)),
                    }
                } else {
                    match self.page_left() {
                        Err(error) => Err(error),
                        Ok(rest) => if self.remaining > 0 {
                            rest.advanced(model, target, exclusive)
                        } else {
                            Err(Error::InvalidState)
                        },
                    }
                },
            },
        }
    }

    /// Advancing to the first owner at or behind the target; behind it where
    /// the target itself is excluded.
    pub open spec fn sought(self, model: StoreModel, target: Option<OwnerRef>, exclusive: bool) -> Result<
        SuffixModel,
    >
        decreases
                self.remaining,
                if self.page is None {
                    1int
                } else {
                    0int
                },
                self.pending(),
    {
        match (self.current, target) {
            (Some(current), Some(wanted)) => match owner_order(current, wanted) {
                Err(error) => Err(error),
                Ok(order) => if order == Order::Behind || (order == Order::Same && !exclusive) {
                    Ok(self)
                } else {
                    match self.advanced(model, wanted, exclusive) {
                        Err(error) => Err(error),
                        Ok((current, rest)) => {
                            let next = SuffixModel { current, ..rest };
                            if current is Some && next.shorter(self) {
                                next.sought(model, target, exclusive)
                            } else {
                                Ok(next)
                            }
                        },
                    }
                },
            },
            _ => Ok(self),
        }
    }
}

impl SuffixModel {
    /// The chain from its head on, with the term's first owner at hand.
    pub open spec fn at_first(self, entry: SuffixTerm, model: StoreModel) -> Result<SuffixModel> {
        (SuffixModel { current: Some(entry.first), previous: Some(entry.first), ..self }).sought(
            model,
            self.after,
            true,
        )
    }

    /// Opening a term whose first owner does not stand behind the cutoff: the
    /// tail page tells whether anything does, and whether only it does.
    pub open spec fn opened_at_tail(
        self,
        entry: SuffixTerm,
        after: OwnerRef,
        model: StoreModel,
    ) -> Result<SuffixModel> {
        if entry.tail == NO_BLOCK {
            Ok(self)
        } else {
            match model.load_posting(entry.tail, entry.reference) {
                Err(error) => Err(error),
                Ok(image) => match page_endpoints(image) {
                    Err(error) => Err(error),
                    Ok(None) => self.at_first(entry, model),
                    Ok(Some((first, last))) => match owner_order(entry.first, first) {
                        Err(error) => Err(error),
                        Ok(order) => if order != Order::Before {
                            Err(Error::InvalidState)
                        } else {
                            match owner_order(last, after) {
                                Err(error) => Err(error),
                                Ok(order) => if order != Order::Behind {
                                    Ok(SuffixModel { block: NO_BLOCK, ..self })
                                } else {
                                    self.opened_on_tail(entry, first, after, image, model)
                                },
                            }
                        },
                    },
                },
            }
        }
    }

    /// Opening on a tail page that reaches behind the cutoff. All predecessors
    /// are old only where this page straddles the cutoff.
    pub open spec fn opened_on_tail(
        self,
        entry: SuffixTerm,
        first: OwnerRef,
        after: OwnerRef,
        image: Image,
        model: StoreModel,
    ) -> Result<SuffixModel> {
        let straddles = if entry.head == entry.tail {
            Ok(true)
        } else {
            match owner_order(first, after) {
                Err(error) => Err(error),
                Ok(order) => Ok(order != Order::Behind),
            }
        };
        match straddles {
            Err(error) => Err(error),
            Ok(false) => self.at_first(entry, model),
            Ok(true) => match resumed_page(image) {
                Err(error) => Err(error),
                Ok(page) => (SuffixModel {
                    block: entry.tail,
                    page: Some(page),
                    ..self
                }).at_first(entry, model),
            },
        }
    }

    /// The suffix when it is read for the first time.
    pub open spec fn opened_in(self, model: StoreModel) -> Result<SuffixModel> {
        match self.entry {
            None => Ok(SuffixModel { opened: true, ..self }),
            Some(entry) => {
                let start = SuffixModel {
                    opened: true,
                    remaining: model.pages.len() as u32,
                    block: entry.head,
                    ..self
                };
                match self.after {
                    None => start.at_first(entry, model),
                    Some(after) => match owner_order(entry.first, after) {
                        Err(error) => Err(error),
                        Ok(order) => if order == Order::Behind {
                            start.at_first(entry, model)
                        } else {
                            start.opened_at_tail(entry, after, model)
                        },
                    },
                }
            },
        }
    }

    /// The state that a seek leaves; its current owner is the answer, and
    /// stands behind the cutoff.
    pub open spec fn seek(self, model: StoreModel, target: Option<OwnerRef>, exclusive: bool) -> Result<
        SuffixModel,
    > {
        let start = if self.opened {
            Ok(self)
        } else {
            self.opened_in(model)
        };
        match start {
            Err(error) => Err(error),
            Ok(start) => match start.sought(model, target, exclusive) {
                Err(error) => Err(error),
                Ok(state) => match (state.current, self.after) {
                    (Some(owner), Some(after)) => match owner_order(owner, after) {
                        Err(error) => Err(error),
                        Ok(order) => if order != Order::Behind {
                            Err(Error::InvalidState)
                        } else {
                            Ok(state)
                        },
                    },
                    _ => Ok(state),
                },
            },
        }
    }
}

/// The first and the last owner of a posting page.
pub open spec fn page_endpoints(image: Image) -> Result<Option<(OwnerRef, OwnerRef)>> {
    if image.kind == PageKind::DirectPostings {
        match image.direct_endpoints() {
            Err(error) => Err(error),
            Ok(ends) => Ok(Some(ends)),
        }
    } else {
        match image.posting_stream() {
            Err(error) => Err(error),
            Ok(stream) => {
                let outcomes = stream.outcomes();
                if outcomes.len() == 0 {
                    Ok(None)
                } else {
                    match outcomes[0] {
                        Err(error) => Err(error),
                        Ok(first) => match last_outcome(outcomes.drop_first(), first) {
                            Err(error) => Err(error),
                            Ok(last) => Ok(Some((first, last))),
                        },
                    }
                }
            },
        }
    }
}

/// The last of the outcomes, or the first failure.
pub open spec fn last_outcome(outcomes: Seq<Result<OwnerRef>>, last: OwnerRef) -> Result<OwnerRef>
    decreases outcomes.len(),
{
    if outcomes.len() == 0 {
        Ok(last)
    } else {
        match outcomes[0] {
            Err(error) => Err(error),
            Ok(owner) => last_outcome(outcomes.drop_first(), owner),
        }
    }
}

/// Advancing leaves less to read.
proof fn advancing_shortens(state: SuffixModel, model: StoreModel, target: OwnerRef, exclusive: bool)
    ensures
        state.advanced(model, target, exclusive) matches Ok((Some(_), rest)) ==> rest.shorter(
            state,
        ),
    decreases
            state.remaining,
            if state.page is None {
                1int
            } else {
                0int
            },
{
    match state.page {
        None => {
            if state.block != NO_BLOCK {
                if let Ok(image) = model.load_posting(
                    state.block,
                    state.entry->Some_0.reference,
                ) {
                    if let Ok(page) = resumed_page(image) {
                        advancing_shortens(
                            SuffixModel { page: Some(page), ..state },
                            model,
                            target,
                            exclusive,
                        );
                    }
                }
            }
        },
        Some(page) => {
            if let Ok(passed) = state.page_passed(target, exclusive) {
                let from = match passed {
                    Some(last) => SuffixModel { previous: Some(last), ..state },
                    None => state,
                };
                if passed is Some || page.pending.len() == 0 {
                    if let Ok(rest) = from.page_left() {
                        if state.remaining > 0 {
                            advancing_shortens(rest, model, target, exclusive);
                        }
                    }
                }
            }
        },
    }
}

/// Direct pages expose endpoints; other codecs use one bounded, checked page walk.
#[verifier::loop_isolation(false)]
fn endpoints(page: &Page) -> (result: Result<Option<(OwnerRef, OwnerRef)>>)
    ensures
        result == page_endpoints(page@),
{
    if page.kind() == PageKind::DirectPostings {
        return Ok(Some(page.direct_endpoints()?));
    }
    let mut owners: Postings<'_> = page.posting_refs()?;
    let first: OwnerRef = match owners.next() {
        None => {
            return Ok(None);
        },
        Some(owner) => owner?,
    };
    let mut last: OwnerRef = first;
    let ghost total = last_outcome(owners@, first);
    loop
        invariant
            total == last_outcome(owners@, last),
        decreases owners@.len(),
    {
        match owners.next() {
            None => {
                return Ok(Some((first, last)));
            },
            Some(owner) => {
                last = owner?;
            },
        }
    }
}

impl SuffixCursor {
    pub fn new(entry: Option<SuffixTerm>, after: Option<OwnerRef>) -> (cursor: Self)
        ensures
            cursor@ == (SuffixModel {
                entry,
                after,
                current: None,
                previous: None,
                block: NO_BLOCK,
                remaining: 0,
                page: None,
                opened: false,
            }),
    {
        SuffixCursor {
            entry,
            after,
            current: None,
            previous: None,
            block: NO_BLOCK,
            remaining: 0,
            page: None,
            opened: false,
        }
    }

    /// Leaves the page at hand.
    fn leave_page(&mut self) -> (result: Result<()>)
        requires
            old(self)@.page is Some,
            old(self)@.entry is Some,
        ensures
            final(self)@.entry == old(self)@.entry,
            final(self)@.after == old(self)@.after,
            final(self)@.opened == old(self)@.opened,
            match old(self)@.page_left() {
                Ok(state) => result is Ok && final(self)@ == state && old(self)@.remaining > 0,
                Err(error) => result == Err::<(), Error>(error),
            },
    {
        let tail: u32 = match self.entry {
            Some(entry) => entry.tail,
            None => NO_BLOCK,
        };
        let next: Option<u32> = match &self.page {
            Some(page) => posting_next(page.page(), tail, &mut self.remaining)?,
            None => None,
        };
        self.block = match next {
            Some(next) => next,
            None => NO_BLOCK,
        };
        self.page = None;
        Ok(())
    }

    /// Takes the next owner of the page at hand; `None` at its end.
    fn take(&mut self) -> (result: Result<Option<OwnerRef>>)
        requires
            old(self)@.page is Some,
        ensures
            final(self)@.entry == old(self)@.entry,
            final(self)@.after == old(self)@.after,
            final(self)@.opened == old(self)@.opened,
            if old(self)@.page->Some_0.pending.len() == 0 {
                result == Ok::<Option<OwnerRef>, Error>(None) && final(self)@ == old(self)@
            } else {
                match old(self)@.taken() {
                    Ok((owner, state)) => result == Ok::<Option<OwnerRef>, Error>(Some(owner))
                        && final(self)@ == state,
                    Err(error) => result == Err::<Option<OwnerRef>, Error>(error),
                }
            },
    {
        let ghost before = self@;
        let next: Option<Result<OwnerRef>> = match &mut self.page {
            Some(page) => page.next(),
            None => None,
        };
        match next {
            Some(owner) => {
                let owner: OwnerRef = owner?;
                match self.previous {
                    None => {
                        return Err(Error::InvalidState);
                    },
                    Some(previous) => {
                        if ordered(previous, owner)? != Order::Before {
                            return Err(Error::InvalidState);
                        }
                    },
                }
                self.previous = Some(owner);
                assert(self@ =~= before.taken()->Ok_0.1);
                Ok(Some(owner))
            },
            None => {
                assert(self@ =~= before);
                Ok(None)
            },
        }
    }

    /// The last owner of the page at hand, where the page ends before the target.
    fn passed(&self, target: OwnerRef, exclusive: bool) -> (result: Result<Option<OwnerRef>>)
        requires
            self@.page is Some,
        ensures
            result == self@.page_passed(target, exclusive),
    {
        match &self.page {
            None => Ok(None),
            Some(page) => {
                if page.page().kind() != PageKind::DirectPostings {
                    return Ok(None);
                }
                let (_, last): (OwnerRef, OwnerRef) = page.page().direct_endpoints()?;
                let order: Order = ordered(last, target)?;
                if order == Order::Before || (exclusive && order == Order::Same) {
                    match self.previous {
                        None => Err(Error::InvalidState),
                        Some(previous) => {
                            if ordered(previous, last)? == Order::Behind {
                                return Err(Error::InvalidState);
                            }
                            Ok(Some(last))
                        },
                    }
                } else {
                    Ok(None)
                }
            },
        }
    }

    #[verifier::loop_isolation(false)]
    fn advance<S: PageStore>(&mut self, store: &mut S, target: OwnerRef, exclusive: bool) -> (result:
        Result<Option<OwnerRef>>)
        requires
            old(self)@.entry is Some,
        ensures
            final(self)@.entry == old(self)@.entry,
            final(self)@.after == old(self)@.after,
            final(self)@.opened == old(self)@.opened,
            answers(
                old(store).host(),
                final(store).host(),
                match result {
                    Ok(owner) => Ok((owner, final(self)@)),
                    Err(error) => Err(error),
                },
                old(self)@.advanced(old(store).host().model, target, exclusive),
            ),
    {
        let ghost model = store.host().model;
        let ghost total = self@.advanced(model, target, exclusive);
        let reference: TermRef = match self.entry {
            Some(entry) => entry.reference,
            None => {
                return Err(Error::InvalidState);
            },
        };
        loop
            invariant
                store.host() == old(store).host(),
                self@.entry == old(self)@.entry,
                self@.after == old(self)@.after,
                self@.opened == old(self)@.opened,
                total == self@.advanced(model, target, exclusive),
            decreases self.remaining, if self.page is None { 1int } else { 0int },
        {
            if self.page.is_some() {
                if let Some(last) = self.passed(target, exclusive)? {
                    self.previous = Some(last);
                    self.leave_page()?;
                    continue;
                }
                match self.take()? {
                    Some(owner) => {
                        return Ok(Some(owner));
                    },
                    None => {
                        self.leave_page()?;
                    },
                }
            } else {
                if self.block == NO_BLOCK {
                    return Ok(None);
                }
                let page: Page = load_posting(store, self.block, reference)?;
                self.page = Some(OwnedPostings::new(page)?);
            }
        }
    }
}

impl SuffixCursor {
    /// Whether an unread suffix holds nothing yet, and owners come from a term.
    pub open spec fn wf(self) -> bool {
        self@.current is Some ==> self@.entry is Some
    }

    #[verifier::loop_isolation(false)]
    fn seek_open<S: PageStore>(
        &mut self,
        store: &mut S,
        target: Option<OwnerRef>,
        exclusive: bool,
    ) -> (result: Result<()>)
        requires
            old(self).wf(),
        ensures
            final(self)@.entry == old(self)@.entry,
            final(self)@.after == old(self)@.after,
            final(self)@.opened == old(self)@.opened,
            result is Ok ==> final(self).wf(),
            answers(
                old(store).host(),
                final(store).host(),
                match result {
                    Ok(_) => Ok(final(self)@),
                    Err(error) => Err(error),
                },
                old(self)@.sought(old(store).host().model, target, exclusive),
            ),
    {
        let wanted: OwnerRef = match target {
            Some(wanted) => wanted,
            None => {
                return Ok(());
            },
        };
        let ghost model = store.host().model;
        let ghost total = self@.sought(model, target, exclusive);
        loop
            invariant
                self.wf(),
                store.host() == old(store).host(),
                self@.entry == old(self)@.entry,
                self@.after == old(self)@.after,
                self@.opened == old(self)@.opened,
                total == self@.sought(model, target, exclusive),
            decreases
                    self.remaining,
                    if self.page is None {
                        1int
                    } else {
                        0int
                    },
                    self@.pending(),
        {
            let current: OwnerRef = match self.current {
                Some(current) => current,
                None => {
                    return Ok(());
                },
            };
            let order: Order = ordered(current, wanted)?;
            if order == Order::Behind || (order == Order::Same && !exclusive) {
                return Ok(());
            }
            proof {
                advancing_shortens(self@, model, wanted, exclusive);
            }
            let next: Option<OwnerRef> = self.advance(store, wanted, exclusive)?;
            self.current = next;
            if next.is_none() {
                return Ok(());
            }
        }
    }

    /// Reads on from the term's first owner.
    fn open_at_first<S: PageStore>(&mut self, store: &mut S, entry: SuffixTerm) -> (result: Result<()>)
        requires
            old(self)@.entry == Some(entry),
        ensures
            final(self)@.entry == old(self)@.entry,
            final(self)@.after == old(self)@.after,
            final(self)@.opened == old(self)@.opened,
            result is Ok ==> final(self).wf(),
            answers(
                old(store).host(),
                final(store).host(),
                match result {
                    Ok(_) => Ok(final(self)@),
                    Err(error) => Err(error),
                },
                old(self)@.at_first(entry, old(store).host().model),
            ),
    {
        self.current = Some(entry.first);
        self.previous = Some(entry.first);
        let after: Option<OwnerRef> = self.after;
        self.seek_open(store, after, true)
    }

    fn open_at_tail<S: PageStore>(&mut self, store: &mut S, entry: SuffixTerm, after: OwnerRef) -> (result:
        Result<()>)
        requires
            old(self)@.entry == Some(entry),
            old(self)@.current is None,
        ensures
            final(self)@.entry == old(self)@.entry,
            final(self)@.after == old(self)@.after,
            final(self)@.opened == old(self)@.opened,
            result is Ok ==> final(self).wf(),
            answers(
                old(store).host(),
                final(store).host(),
                match result {
                    Ok(_) => Ok(final(self)@),
                    Err(error) => Err(error),
                },
                old(self)@.opened_at_tail(entry, after, old(store).host().model),
            ),
    {
        if entry.tail == NO_BLOCK {
            return Ok(());
        }
        let tail: Page = load_posting(store, entry.tail, entry.reference)?;
        if let Some((first, last)) = endpoints(&tail)? {
            if ordered(entry.first, first)? != Order::Before {
                return Err(Error::InvalidState);
            }
            if ordered(last, after)? != Order::Behind {
                self.block = NO_BLOCK;
                return Ok(());
            }
            // all predecessors are old only when this page straddles the cutoff.
            if entry.head == entry.tail || ordered(first, after)? != Order::Behind {
                self.block = entry.tail;
                self.page = Some(OwnedPostings::new(tail)?);
            }
            // a wholly newer tail can have newer predecessors; retain the head walk.
        }
        self.open_at_first(store, entry)
    }

    fn open<S: PageStore>(&mut self, store: &mut S) -> (result: Result<()>)
        requires
            old(self).wf(),
            !old(self)@.opened,
            old(self)@.current is None,
        ensures
            final(self)@.entry == old(self)@.entry,
            final(self)@.after == old(self)@.after,
            result is Ok ==> final(self)@.opened,
            result is Ok ==> final(self).wf(),
            answers(
                old(store).host(),
                final(store).host(),
                match result {
                    Ok(_) => Ok(final(self)@),
                    Err(error) => Err(error),
                },
                old(self)@.opened_in(old(store).host().model),
            ),
    {
        self.opened = true;
        let entry: SuffixTerm = match self.entry {
            Some(entry) => entry,
            None => {
                return Ok(());
            },
        };
        self.remaining = store.blocks()?;
        self.block = entry.head;
        if let Some(after) = self.after {
            if ordered(entry.first, after)? != Order::Behind {
                return self.open_at_tail(store, entry, after);
            }
        }
        self.open_at_first(store, entry)
    }

    /// Finds the first owner at or behind the target; behind it where the
    /// target itself is excluded. Without a target the current owner is given.
    ///
    /// # Errors
    /// Rejects owners out of order or not behind the cutoff, damaged chains
    /// and host failures.
    pub fn seek<S: PageStore>(
        &mut self,
        store: &mut S,
        target: Option<OwnerRef>,
        exclusive: bool,
    ) -> (result: Result<Option<OwnerRef>>)
        requires
            old(self).wf(),
            !old(self)@.opened ==> old(self)@.current is None,
        ensures
            result is Ok ==> final(self).wf() && final(self)@.opened,
            result matches Ok(owner) ==> owner == final(self)@.current,
            answers(
                old(store).host(),
                final(store).host(),
                match result {
                    Ok(_) => Ok(final(self)@),
                    Err(error) => Err(error),
                },
                old(self)@.seek(old(store).host().model, target, exclusive),
            ),
    {
        let ghost model = store.host().model;
        if !self.opened {
            self.open(store)?;
        }
        self.seek_open(store, target, exclusive)?;
        if let Some(owner) = self.current {
            if let Some(after) = self.after {
                if ordered(owner, after)? != Order::Behind {
                    return Err(Error::InvalidState);
                }
            }
        }
        Ok(self.current)
    }
}

} // verus!
