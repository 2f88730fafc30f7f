//! Versioned document position views; complete readers validate both encodings.

use crate::codec;
use crate::codec::bytes::{extent, group_bytes, le_u32, Reader};
use crate::codec::position_blocks::{
    iteration_yields_positions, opened_blocks, outcomes, IterState, PositionBlockIter,
    PositionBlocks,
};
use crate::codec::positions::{parsed, PositionIter, Positions};
use crate::error::{lift, Error, Result};
use crate::mutable::document::MAX_DOCUMENT_TOKENS;
use vstd::prelude::*;

verus! {

broadcast use group_bytes;

/// Positions of a term in a document, in one of two encodings.
#[derive(Clone, Copy, Debug)]
pub enum DocumentPositions<'a> {
    Deltas(Positions<'a>),
    Blocks(PositionBlocks<'a>),
}

/// The positions that bytes encode, or why they encode none.
pub open spec fn positions_stored(bytes: Seq<u8>, blocked: bool) -> Result<Seq<u32>> {
    if blocked {
        match opened_blocks(bytes, MAX_DOCUMENT_TOKENS) {
            Err(error) => Err(Error::Codec(error)),
            Ok(view) => match view.check_from(0) {
                Err(error) => Err(Error::Codec(error)),
                Ok(_) => Ok(view.positions_from(0)),
            },
        }
    } else {
        match parsed(bytes, MAX_DOCUMENT_TOKENS) {
            Err(error) => Err(Error::Codec(error)),
            Ok(positions) => Ok(positions),
        }
    }
}

/// The number of positions that bytes announce.
pub open spec fn positions_announced(bytes: Seq<u8>, blocked: bool, tokens: u32) -> Result<u32> {
    let announced = if blocked {
        match opened_blocks(bytes, tokens) {
            Err(error) => Err(Error::Codec(error)),
            Ok(view) => Ok(view.directory.count),
        }
    } else {
        match extent(bytes, 0, 4) {
            Err(error) => Err(Error::Codec(error)),
            Ok(_) => if le_u32(bytes, 0) > bytes.len() - 4 {
                Err(Error::InvalidDocument)
            } else {
                Ok(le_u32(bytes, 0))
            },
        }
    };
    match announced {
        Err(error) => Err(error),
        Ok(count) => if count == 0 || count > tokens {
            Err(Error::InvalidDocument)
        } else {
            Ok(count)
        },
    }
}

impl<'a> DocumentPositions<'a> {
    /// What iteration yields.
    pub open spec fn outcomes(self) -> Seq<codec::Result<u32>> {
        match self {
            DocumentPositions::Deltas(view) => view@.map_values(
                |position: u32| Ok::<u32, codec::Error>(position),
            ),
            DocumentPositions::Blocks(view) => outcomes(IterState::start(view@)),
        }
    }

    pub open spec fn announced(self) -> int {
        match self {
            DocumentPositions::Deltas(view) => view@.len() as int,
            DocumentPositions::Blocks(view) => view@.directory.count as int,
        }
    }

    /// Validates every position.
    pub fn parse(bytes: &'a [u8], blocked: bool) -> (result: Result<Self>)
        ensures
            match positions_stored(bytes@, blocked) {
                Ok(positions) => result matches Ok(view) && view.outcomes() == positions.map_values(
                    |position: u32| Ok::<u32, codec::Error>(position),
                ) && view is Blocks == blocked,
                Err(error) => result matches Err(e) && e == error,
            },
    {
        if blocked {
            let view: PositionBlocks<'a> = lift(PositionBlocks::open(bytes, MAX_DOCUMENT_TOKENS))?;
            lift(view.validate_all())?;
            let blocks: usize = view.blocks();
            proof {
                iteration_yields_positions(view@);
            }
            Ok(DocumentPositions::Blocks(view))
        } else {
            Ok(DocumentPositions::Deltas(lift(Positions::parse(bytes, MAX_DOCUMENT_TOKENS))?))
        }
    }

    /// Reads the number of positions without their bytes.
    pub fn count(bytes: &[u8], blocked: bool, tokens: u32) -> (result: Result<u32>)
        ensures
            result == positions_announced(bytes@, blocked, tokens),
    {
        let count: u32 = if blocked {
            lift(PositionBlocks::open(bytes, tokens))?.len()
        } else {
            let mut reader: Reader<'_> = Reader::new(bytes);
            let count: u32 = lift(reader.u32())?;
            if count as usize > reader.remaining() {
                return Err(Error::InvalidDocument);
            }
            count
        };
        if count == 0 || count > tokens {
            return Err(Error::InvalidDocument);
        }
        Ok(count)
    }

    pub fn len(self) -> (len: u32)
        ensures
            len == self.announced(),
    {
        match self {
            DocumentPositions::Deltas(view) => view.len(),
            DocumentPositions::Blocks(view) => view.len(),
        }
    }

    pub fn is_empty(self) -> (empty: bool)
        ensures
            empty == (self.announced() == 0),
    {
        self.len() == 0
    }

    pub fn iter(self) -> (iter: DocumentPositionIter<'a>)
        ensures
            iter@ == self.outcomes(),
    {
        match self {
            DocumentPositions::Deltas(view) => DocumentPositionIter::Deltas(view.iter()),
            DocumentPositions::Blocks(view) => DocumentPositionIter::Blocks(view.iter()),
        }
    }
}

/// An iterator over positions that stops at the first failure.
pub enum DocumentPositionIter<'a> {
    Deltas(PositionIter<'a>),
    Blocks(PositionBlockIter<'a>),
}

impl<'a> View for DocumentPositionIter<'a> {
    type V = Seq<codec::Result<u32>>;

    /// The outcomes still to come.
    open spec fn view(&self) -> Seq<codec::Result<u32>> {
        match self {
            DocumentPositionIter::Deltas(iter) => iter@,
            DocumentPositionIter::Blocks(iter) => iter@,
        }
    }
}

impl<'a> DocumentPositionIter<'a> {
    /// Yields the next position, or the failure that ends the iteration.
    pub fn next(&mut self) -> (item: Option<codec::Result<u32>>)
        ensures
            if old(self)@.len() == 0 {
                item is None && final(self)@ == old(self)@
            } else {
                item == Some(old(self)@[0]) && final(self)@ == old(self)@.drop_first()
            },
    {
        match self {
            DocumentPositionIter::Deltas(iter) => iter.next(),
            DocumentPositionIter::Blocks(iter) => iter.next(),
        }
    }
}

} // verus!
