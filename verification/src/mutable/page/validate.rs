//! Validation of whole pages.

use super::model::{
    postings_checked, terms_checked, Owner, OwnerRef, PageKind, TermRef, BUCKETS, HEADER,
    OWNER_BYTES, OWNER_HEADER, POSTING_HEADER,
};
use super::{block_valid, corrupt, Page, Postings, Terms};
use crate::analysis::PROFILE_ID;
use crate::codec::bytes::group_bytes;
use crate::error::{Error, Result};
use crate::identity::{group_identity, HeapLayout};
use crate::mutable::document::MAX_DOCUMENT_BYTES;
use vstd::prelude::*;

verus! {

broadcast use {group_bytes, group_identity};

impl Page {
    /// Validates every used byte and local record boundary before traversal.
    pub fn validate(&self, layout: HeapLayout) -> (result: Result<()>)
        ensures
            result == self@.check(layout),
    {
        if self.kind() == PageKind::Zero {
            return Ok(());
        }
        self.check_next()?;
        if (self.block() == 0) != (self.kind() == PageKind::Meta) {
            return Err(corrupt(8));
        }
        let len: usize = self.bytes().len();
        match self.kind() {
            PageKind::Zero => Ok(()),
            PageKind::Meta => self.validate_meta(layout),
            PageKind::Grouped => self.validate_grouped(),
            PageKind::Owners => self.validate_owners(layout),
            PageKind::Dictionary => self.validate_terms(),
            PageKind::Postings => self.validate_postings(layout),
            PageKind::SealedPostings => self.validate_postings(layout),
            PageKind::DirectPostings => self.validate_postings(layout),
            PageKind::DocumentDirectory => {
                self.document_directory_data()?;
                Ok(())
            },
            PageKind::Fragment => {
                let (_, offset, payload): (OwnerRef, u32, &[u8]) = self.fragment_data()?;
                if payload.len() == 0 || payload.len() > MAX_DOCUMENT_BYTES || offset as usize
                    > MAX_DOCUMENT_BYTES - payload.len() {
                    return Err(corrupt(32));
                }
                Ok(())
            },
            PageKind::Free => {
                if len != HEADER {
                    return Err(corrupt(HEADER));
                }
                Ok(())
            },
        }
    }

    #[verifier::loop_isolation(false)]
    fn validate_meta(&self, layout: HeapLayout) -> (result: Result<()>)
        requires
            self@.kind == PageKind::Meta,
        ensures
            result == self@.check_meta(layout),
    {
        let len: usize = self.bytes().len();
        if !(len == 4160 || len == 4232 || len == 5664) {
            return Err(corrupt(16));
        }
        if self.u32(16)? != PROFILE_ID || self.u32(20)? != 8192 || self.u16(24)?
            != layout.max_offset() || self.u16(26)? as usize != BUCKETS || self.u32(28)? != 0
            || self.u64(32)? == 0 {
            return Err(corrupt(16));
        }
        self.owner_chain()?;
        self.free_head()?;
        self.rewrite_journal()?;
        self.grouped_state()?;
        let mut bucket: usize = 0;
        while bucket < BUCKETS
            invariant
                bucket <= BUCKETS,
                self@.check_buckets(0) == self@.check_buckets(bucket as int),
            decreases BUCKETS - bucket,
        {
            self.bucket(bucket)?;
            bucket += 1;
        }
        Ok(())
    }

    #[verifier::loop_isolation(false)]
    fn validate_owners(&self, layout: HeapLayout) -> (result: Result<()>)
        requires
            self@.kind == PageKind::Owners,
        ensures
            result == (match self@.owner_count() {
                Err(error) => Err(error),
                Ok(count) => self@.check_owners(0, 20 + count * 40, layout),
            }),
    {
        let count: u16 = self.owner_count()?;
        let len: usize = self.bytes().len();
        let mut payload: usize = OWNER_HEADER + count as usize * OWNER_BYTES;
        let mut slot: u16 = 0;
        while slot < count
            invariant
                slot <= count,
                payload <= 20 + count * 40 + slot * 0x1_0000,
                self@.check_owners(0, 20 + count * 40, layout) == self@.check_owners(
                    slot as int,
                    payload as int,
                    layout,
                ),
            decreases count - slot,
        {
            let owner: Owner<'_> = self.owner(slot, layout)?;
            if owner.inline.len() != 0 {
                let at: usize = OWNER_HEADER + slot as usize * OWNER_BYTES + 32;
                if self.u16(at)? as usize != payload {
                    return Err(corrupt(at));
                }
                payload = payload + owner.inline.len();
            }
            slot += 1;
        }
        if payload != len {
            return Err(corrupt(payload));
        }
        Ok(())
    }

    #[verifier::loop_isolation(false)]
    fn validate_terms(&self) -> (result: Result<()>)
        requires
            self@.kind == PageKind::Dictionary,
        ensures
            result == terms_checked(self@.terms()->Ok_0, 0),
    {
        let mut terms: Terms<'_> = self.terms()?;
        let ghost outcomes = terms@;
        let ghost mut index: int = 0;
        assert(outcomes.skip(0) =~= outcomes);
        loop
            invariant
                0 <= index <= outcomes.len(),
                terms@ == outcomes.skip(index),
                terms_checked(outcomes, 0) == terms_checked(outcomes, index),
            decreases terms@.len(),
        {
            proof {
                if index < outcomes.len() {
                    assert(terms@[0] == outcomes[index]);
                    assert(terms@.drop_first() =~= outcomes.skip(index + 1));
                }
            }
            match terms.next() {
                None => {
                    return Ok(());
                },
                Some(Err(error)) => {
                    return Err(error);
                },
                Some(Ok(_)) => {
                    proof {
                        index = index + 1;
                    }
                },
            }
        }
    }

    #[verifier::loop_isolation(false)]
    fn validate_postings(&self, layout: HeapLayout) -> (result: Result<()>)
        ensures
            result == self@.check_postings(layout),
    {
        let term: TermRef = self.posting_term()?;
        if !block_valid(term.page) || (term.offset as usize) < HEADER {
            return Err(corrupt(16));
        }
        let mut postings: Postings<'_> = self.posting_refs()?;
        let ghost outcomes = postings@;
        let ghost mut index: int = 0;
        let mut first: Option<OwnerRef> = None;
        let mut previous: Option<OwnerRef> = None;
        let mut more: bool = true;
        assert(outcomes.skip(0) =~= outcomes);
        while more
            invariant
                0 <= index <= outcomes.len(),
                postings@ == outcomes.skip(index),
                index == 0 ==> first is None && previous is None,
                index > 0 ==> first is Some && previous is Some && outcomes[0] == Ok::<
                    OwnerRef,
                    Error,
                >(first->Some_0) && outcomes[index - 1] == Ok::<OwnerRef, Error>(previous->Some_0),
                postings_checked(outcomes, 0, None) == postings_checked(outcomes, index, previous),
                !more ==> index == outcomes.len(),
            decreases postings@.len(), (if more { 1int } else { 0int }),
        {
            proof {
                if index < outcomes.len() {
                    assert(postings@[0] == outcomes[index]);
                    assert(postings@.drop_first() =~= outcomes.skip(index + 1));
                }
            }
            match postings.next() {
                None => {
                    more = false;
                },
                Some(Err(error)) => {
                    return Err(error);
                },
                Some(Ok(reference)) => {
                    if let Some(earlier) = previous {
                        let later: bool = reference.page > earlier.page || (reference.page
                            == earlier.page && reference.slot > earlier.slot);
                        if !later || reference.incarnation.get() <= earlier.incarnation.get() {
                            return Err(corrupt(POSTING_HEADER));
                        }
                    }
                    if first.is_none() {
                        first = Some(reference);
                    }
                    previous = Some(reference);
                    proof {
                        index = index + 1;
                    }
                },
            }
        }
        if self.kind() == PageKind::DirectPostings {
            let (header_first, header_last): (OwnerRef, OwnerRef) = self.direct_endpoints()?;
            match (first, previous) {
                (Some(one), Some(other)) => {
                    if one != header_first || other != header_last {
                        return Err(corrupt(POSTING_HEADER));
                    }
                },
                _ => {
                    return Err(corrupt(POSTING_HEADER));
                },
            }
            let count: u16 = self.u16(22)?;
            let mut slot: u16 = 0;
            while slot < count
                invariant
                    slot <= count,
                    self@.check_roots(0, layout) == self@.check_roots(slot as int, layout),
                decreases count - slot,
            {
                self.direct_root(slot, layout)?;
                slot += 1;
            }
        }
        Ok(())
    }
}

} // verus!
