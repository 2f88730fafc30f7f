//! Readers that fetch extents of an immutable byte string.

use crate::error::{Error, Result};
use vstd::prelude::*;

verus! {

/// A byte string that is fetched piece by piece, with the help of a context.
/// An implementation fills the exact range from an immutable source or fails.
pub trait ByteSource<C> {
    /// What a context stands for.
    type Origin;

    /// What fetching leaves as it is.
    spec fn origin(context: C) -> Self::Origin;

    /// Whether the context is the one that the source was made for.
    spec fn valid(&self, context: C) -> bool;

    /// The whole byte string.
    spec fn content(&self, context: C) -> Seq<u8>;

    /// Whether no extent of the byte string is refused.
    spec fn reliable(&self, context: C) -> bool;

    /// The extents that were asked for so far: where each starts and its length.
    spec fn asked(&self, context: C) -> Seq<(int, int)>;

    /// The error that the latest request was refused with.
    spec fn refusal(&self, context: C) -> Option<Error>;

    /// Fills `output` with the bytes from `offset` on.
    fn fetch(&mut self, context: &mut C, offset: usize, output: &mut [u8]) -> (result: Result<()>)
        requires
            old(self).valid(*old(context)),
        ensures
            final(self).asked(*final(context)) == old(self).asked(*old(context)).push(
                (offset as int, old(output)@.len() as int),
            ),
            final(self).refusal(*final(context)) == result.err(),
            final(self).valid(*final(context)),
            final(self).content(*final(context)) == old(self).content(*old(context)),
            final(self).reliable(*final(context)) == old(self).reliable(*old(context)),
            Self::origin(*final(context)) == Self::origin(*old(context)),
            final(output)@.len() == old(output)@.len(),
            result is Ok ==> offset + old(output)@.len() <= old(self).content(*old(context)).len()
                && final(output)@ == old(self).content(*old(context)).subrange(
                offset as int,
                offset + old(output)@.len(),
            ),
            old(self).reliable(*old(context)) && offset + old(output)@.len() <= old(self).content(
                *old(context),
            ).len() ==> result is Ok,
    ;
}

/// Whether all extents lie inside a byte string.
pub open spec fn all_inside(asked: Seq<(int, int)>, length: int) -> bool {
    forall|i: int| 0 <= i < asked.len() ==> extent_inside(#[trigger] asked[i], length)
}

pub open spec fn extent_inside(extent: (int, int), length: int) -> bool {
    0 <= extent.0 && 0 <= extent.1 && extent.0 + extent.1 <= length
}

/// Fetching left the byte string and its context as they were.
pub open spec fn same_bytes_behind<C, S: ByteSource<C>>(before: (S, C), after: (S, C)) -> bool {
    &&& after.0.valid(after.1)
    &&& after.0.content(after.1) == before.0.content(before.1)
    &&& after.0.reliable(after.1) == before.0.reliable(before.1)
    &&& S::origin(after.1) == S::origin(before.1)
}

/// Fetching left the byte string and its context as they were, and asked for
/// nothing outside the byte string.
pub open spec fn undisturbed<C, S: ByteSource<C>>(before: (S, C), after: (S, C)) -> bool {
    &&& same_bytes_behind(before, after)
    &&& all_inside(before.0.asked(before.1), before.0.content(before.1).len() as int) ==> all_inside(
        after.0.asked(after.1),
        before.0.content(before.1).len() as int,
    )
}

/// Bytes in memory.
pub struct Bytes<'a> {
    bytes: &'a [u8],
    asked: Ghost<Seq<(int, int)>>,
    refusal: Ghost<Option<Error>>,
}

impl<'a> Bytes<'a> {
    /// The bytes themselves.
    pub closed spec fn whole(&self) -> Seq<u8> {
        self.bytes@
    }

    pub fn new(bytes: &'a [u8]) -> (source: Self)
        ensures
            source.whole() == bytes@,
            source.asked(()).len() == 0,
    {
        Bytes { bytes, asked: Ghost(Seq::empty()), refusal: Ghost(None) }
    }
}

impl<'a> ByteSource<()> for Bytes<'a> {
    type Origin = ();

    open spec fn origin(context: ()) -> () {
        ()
    }

    open spec fn valid(&self, context: ()) -> bool {
        true
    }

    open spec fn content(&self, context: ()) -> Seq<u8> {
        self.whole()
    }

    open spec fn reliable(&self, context: ()) -> bool {
        true
    }

    closed spec fn asked(&self, context: ()) -> Seq<(int, int)> {
        self.asked@
    }

    closed spec fn refusal(&self, context: ()) -> Option<Error> {
        self.refusal@
    }

    fn fetch(&mut self, _context: &mut (), offset: usize, output: &mut [u8]) -> (result: Result<()>) {
        let length: usize = output.len();
        let size: usize = self.bytes.len();
        self.asked = Ghost(self.asked@.push((offset as int, length as int)));
        if offset > size || length > size - offset {
            self.refusal = Ghost(Some(Error::InvalidDocument));
            return Err(Error::InvalidDocument);
        }
        self.refusal = Ghost(None);
        let mut i: usize = 0;
        while i < length
            invariant
                i <= length,
                length == output@.len(),
                output@.len() == old(output)@.len(),
                offset + length <= size,
                size == self.bytes@.len(),
                self.bytes == old(self).bytes,
                self.refusal@ is None,
                self.asked@ == old(self).asked@.push((offset as int, length as int)),
                forall|j: int| 0 <= j < i ==> output@[j] == self.bytes@[offset + j],
            decreases length - i,
        {
            output[i] = self.bytes[offset + i];
            i += 1;
        }
        assert(output@ =~= self.bytes@.subrange(offset as int, offset + length));
        Ok(())
    }
}

} // verus!
