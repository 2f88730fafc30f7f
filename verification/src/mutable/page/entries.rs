//! Dictionary entries of a page.

use super::model::{
    corrupted, is_posting_pair, term_at, term_bucket, term_code, term_found, term_hash,
    term_outcomes, Image, OwnerRef, PageKind, Term, TermModel, TermRef, BUCKETS, CAPACITY,
    DICTIONARY_ENTRY, HEADER, NO_BLOCK, OWNER_SLOTS,
};
use super::{block_valid, corrupt, posting_pair_valid, Page};
use crate::codec::bytes::{group_bytes, u16_array, u32_array, u32_bytes, Reader};
use crate::error::{lift, Error, Result};
use crate::identity::group_identity;
use crate::mutable::document::MAX_TERM_BYTES;
use crate::text::{text_bytes, utf8};
use vstd::prelude::*;

verus! {

broadcast use {group_bytes, group_identity};

/// Stable bucket routing only; exact byte equality always resolves collisions.
#[verifier::loop_isolation(false)]
pub fn bucket_for(term: &str) -> (bucket: usize)
    ensures
        bucket == term_bucket(text_bytes(term)),
        bucket < BUCKETS,
{
    let bytes: &[u8] = term.as_bytes();
    let mut hash: u64 = 0xcbf2_9ce4_8422_2325;
    let mut i: usize = 0;
    assert(bytes@.take(0) =~= Seq::<u8>::empty());
    while i < bytes.len()
        invariant
            i <= bytes@.len(),
            hash == term_hash(bytes@.take(i as int)),
        decreases bytes@.len() - i,
    {
        assert(bytes@.take(i + 1).drop_last() =~= bytes@.take(i as int));
        hash = (hash ^ bytes[i] as u64).wrapping_mul(0x100_0000_01b3);
        i += 1;
    }
    assert(bytes@.take(i as int) =~= bytes@);
    (hash % 512) as usize
}

/// An iterator over dictionary entries that stops at the first failure.
pub struct Terms<'a> {
    page: u32,
    reader: Reader<'a>,
    failed: bool,
}

impl<'a> View for Terms<'a> {
    type V = Seq<Result<TermModel>>;

    /// The outcomes still to come.
    closed spec fn view(&self) -> Seq<Result<TermModel>> {
        if self.failed {
            Seq::empty()
        } else {
            term_outcomes(self.page, self.reader.source(), self.reader.offset() as int)
        }
    }
}

/// An outcome of iteration with its entry as a model.
pub open spec fn term_outcome(outcome: Result<Term<'_>>) -> Result<TermModel> {
    match outcome {
        Ok(term) => Ok(term@),
        Err(error) => Err(error),
    }
}

impl<'a> Terms<'a> {
    #[verifier::type_invariant]
    closed spec fn inv(self) -> bool {
        self.reader.source().len() + HEADER <= CAPACITY
    }

    /// Yields the next entry, or the failure that ends the iteration.
    pub fn next(&mut self) -> (item: Option<Result<Term<'a>>>)
        ensures
            if old(self)@.len() == 0 {
                item is None && final(self)@ == old(self)@
            } else {
                item matches Some(outcome) && term_outcome(outcome) == old(self)@[0] && final(self)@ == old(self)@.drop_first()
            },
    {
        proof {
            use_type_invariant(&*self);
        }
        if self.failed || self.reader.remaining() == 0 {
            return None;
        }
        let mut reader: Reader<'a> = self.reader;
        let result: Result<Term<'a>> = read_term(self.page, &mut reader);
        let failed: bool = match result {
            Ok(_) => false,
            Err(_) => true,
        };
        *self = Terms { page: self.page, reader, failed };
        assert(self@ =~= old(self)@.drop_first());
        Some(result)
    }
}

fn read_term<'a>(page: u32, reader: &mut Reader<'a>) -> (result: Result<Term<'a>>)
    requires
        old(reader).source().len() + HEADER <= CAPACITY,
    ensures
        final(reader).source() == old(reader).source(),
        match term_at(page, old(reader).source(), old(reader).offset() as int) {
            Ok((model, end)) => result matches Ok(term) && term@ == model && final(reader).offset() == end && end > old(reader).offset(),
            Err(error) => result matches Err(e) && e == error,
        },
{
    let offset: usize = reader.offset() + HEADER;
    let len: usize = lift(reader.u16())? as usize;
    if len == 0 || len > MAX_TERM_BYTES {
        return Err(corrupt(offset));
    }
    if lift(reader.u16())? != 0 {
        return Err(corrupt(offset));
    }
    let head: u32 = lift(reader.u32())?;
    let tail: u32 = lift(reader.u32())?;
    let first: OwnerRef = OwnerRef::read(reader)?;
    if !posting_pair_valid(head, tail) {
        return Err(corrupt(offset + 4));
    }
    if lift(reader.u32())? != 0 {
        return Err(corrupt(offset + 4));
    }
    let slice: &'a [u8] = lift(reader.take(len))?;
    let term: &'a str = match utf8(slice) {
        Some(term) => term,
        None => {
            return Err(corrupt(offset + DICTIONARY_ENTRY));
        },
    };
    Ok(Term { reference: TermRef { page, offset: offset as u16 }, term, first, head, tail })
}

proof fn terms_found_inside(
    page: u32,
    entries: Seq<u8>,
    at: int,
    outcomes: Seq<Result<TermModel>>,
    index: int,
    reference: TermRef,
)
    requires
        0 <= at,
        0 <= index <= outcomes.len(),
        outcomes.skip(index) == term_outcomes(page, entries, at),
        entries.len() + HEADER <= CAPACITY,
        term_found(outcomes, index, reference) is Ok,
    ensures
        16 <= reference.offset,
        reference.offset + 16 < entries.len(),
    decreases outcomes.len() - index,
{
    if index < outcomes.len() {
        assert(outcomes.skip(index)[0] == outcomes[index]);
        let (term, end) = term_at(page, entries, at)->Ok_0;
        if term.reference != reference {
            assert(outcomes.skip(index + 1) =~= outcomes.skip(index).drop_first());
            assert(outcomes.skip(index).drop_first() =~= term_outcomes(page, entries, end));
            terms_found_inside(page, entries, end, outcomes, index + 1, reference);
        }
    }
}

impl Page {
    pub fn terms(&self) -> (result: Result<Terms<'_>>)
        ensures
            match self@.terms() {
                Ok(outcomes) => result matches Ok(terms) && terms@ == outcomes,
                Err(error) => result matches Err(e) && e == error,
            },
    {
        self.require(PageKind::Dictionary)?;
        let bytes: &[u8] = self.bytes();
        let entries: &[u8] = &bytes[HEADER..bytes.len()];
        Ok(Terms { page: self.block(), reader: Reader::new(entries), failed: false })
    }

    /// Returns None without mutation when this page is full.
    pub fn append_term(&mut self, term: &str, first: OwnerRef) -> (result: Result<Option<TermRef>>)
        ensures
            ({
                let text = text_bytes(term);
                let used = old(self)@.bytes.len();
                if old(self)@.kind != PageKind::Dictionary {
                    result == Err::<Option<TermRef>, Error>(corrupted(6)) && final(self)@ == old(self)@
                } else if text.len() == 0 || text.len() > MAX_TERM_BYTES {
                    result == Err::<Option<TermRef>, Error>(Error::InvalidDocument) && final(self)@
                        == old(self)@
                } else if used + 32 + text.len() > CAPACITY {
                    result == Ok::<Option<TermRef>, Error>(None) && final(self)@ == old(self)@
                } else if !first.valid() {
                    result == Err::<Option<TermRef>, Error>(corrupted(12)) && final(self)@ == old(self)@
                } else {
                    result == Ok::<Option<TermRef>, Error>(
                        Some(TermRef { page: old(self)@.block, offset: used as u16 }),
                    ) && final(self)@ == (Image {
                        bytes: old(self)@.bytes + term_code(text, first),
                        ..old(self)@
                    })
                }
            }),
    {
        self.require(PageKind::Dictionary)?;
        let text: &[u8] = term.as_bytes();
        if text.len() == 0 || text.len() > MAX_TERM_BYTES {
            return Err(Error::InvalidDocument);
        }
        let used: usize = self.bytes().len();
        if used + DICTIONARY_ENTRY + text.len() > CAPACITY {
            return Ok(None);
        }
        if !block_valid(first.page) || first.slot as usize >= OWNER_SLOTS {
            return Err(corrupt(12));
        }
        let reference: TermRef = TermRef { page: self.block(), offset: used as u16 };
        let ghost before = self@.bytes;
        let length: [u8; 2] = u16_array(text.len() as u16);
        self.extend(&length);
        let reserved: [u8; 2] = u16_array(0);
        self.extend(&reserved);
        let none: [u8; 4] = u32_array(NO_BLOCK);
        self.extend(&none);
        self.extend(&none);
        let owner: [u8; 16] = first.array();
        self.extend(&owner);
        let zero: [u8; 4] = u32_array(0);
        self.extend(&zero);
        self.extend(text);
        assert(self@.bytes =~= before + term_code(text@, first));
        Ok(Some(reference))
    }

    #[verifier::loop_isolation(false)]
    pub fn term(&self, reference: TermRef) -> (result: Result<Term<'_>>)
        ensures
            match self@.term(reference) {
                Ok(model) => result matches Ok(term) && term@ == model,
                Err(error) => result matches Err(e) && e == error,
            },
    {
        if reference.page != self.block() {
            return Err(corrupt(8));
        }
        let mut terms: Terms<'_> = self.terms()?;
        let ghost outcomes = terms@;
        let ghost mut index: int = 0;
        assert(outcomes.skip(0) =~= outcomes);
        loop
            invariant
                0 <= index <= outcomes.len(),
                terms@ == outcomes.skip(index),
                term_found(outcomes, 0, reference) == term_found(outcomes, index, reference),
            decreases terms@.len(),
        {
            proof {
                if index < outcomes.len() {
                    assert(terms@[0] == outcomes[index]);
                    assert(terms@.drop_first() =~= outcomes.skip(index + 1));
                }
            }
            match terms.next() {
                None => {
                    return Err(corrupt(reference.offset as usize));
                },
                Some(Err(error)) => {
                    return Err(error);
                },
                Some(Ok(term)) => {
                    if term.reference == reference {
                        return Ok(term);
                    }
                    proof {
                        index = index + 1;
                    }
                },
            }
        }
    }

    pub fn set_posting_chain(&mut self, term: TermRef, head: u32, tail: u32) -> (result: Result<()>)
        ensures
            match old(self)@.term(term) {
                Err(error) => result == Err::<(), Error>(error) && final(self)@ == old(self)@,
                Ok(_) => if !is_posting_pair(head, tail) {
                    result == Err::<(), Error>(corrupted(term.offset as int)) && final(self)@
                        == old(self)@
                } else {
                    result is Ok && final(self)@ == old(self)@.patched(
                        term.offset + 4,
                        u32_bytes(head),
                    ).patched(term.offset + 8, u32_bytes(tail))
                },
            },
    {
        self.term(term)?;
        if !posting_pair_valid(head, tail) {
            return Err(corrupt(term.offset as usize));
        }
        let used: usize = self.bytes().len();
        proof {
            let outcomes = self@.terms()->Ok_0;
            assert(outcomes.skip(0) =~= outcomes);
            terms_found_inside(self@.block, self@.entries(), 0, outcomes, 0, term);
        }
        self.put_u32(term.offset as usize + 4, head)?;
        self.put_u32(term.offset as usize + 8, tail)
    }
}

} // verus!
