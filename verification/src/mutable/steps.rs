//! Page edits and durable steps as values.

use crate::codec::bytes::{u32_bytes, u64_bytes};
use crate::error::{Error, Result};
use crate::identity::Incarnation;
use crate::mutable::page::model::{
    corrupted, is_block, is_pair, is_posting_pair, journal_code, term_code, Image,
};
use crate::mutable::document::MAX_TERM_BYTES;
use crate::mutable::page::{
    OwnerRef, PageKind, RewriteJournal, TermRef, BUCKETS, CAPACITY, NO_BLOCK,
};
use crate::mutable::store::{allocated, Change, StoreModel};
use vstd::prelude::*;

verus! {

impl<T> Change<T> {
    /// Nothing changed, and the operation failed.
    pub open spec fn refused(model: StoreModel, error: Error) -> Change<T> {
        Change { model, value: Err(error) }
    }

    pub open spec fn made(model: StoreModel, value: T) -> Change<T> {
        Change { model, value: Ok(value) }
    }
}

impl Image {
    /// The page with another link.
    pub open spec fn with_next(self, next: u32) -> Result<Image> {
        let linked = self.patched(12, u32_bytes(next));
        match linked.check_next() {
            Err(error) => Err(error),
            Ok(_) => Ok(linked),
        }
    }

    /// The metadata after the next incarnation was handed out.
    pub open spec fn with_reserved(self) -> Result<(Incarnation, Image)> {
        match self.reserved_incarnation() {
            Err(error) => Err(error),
            Ok(incarnation) => Ok(
                (incarnation, self.patched(32, u64_bytes((incarnation.get() + 1) as u64))),
            ),
        }
    }

    /// The metadata with another owner chain.
    pub open spec fn with_owner_chain(self, head: u32, tail: u32) -> Result<Image> {
        if self.kind != PageKind::Meta {
            Err(corrupted(6))
        } else if !is_pair(head, tail) {
            Err(corrupted(40))
        } else {
            Ok(self.patched(40, u32_bytes(head)).patched(44, u32_bytes(tail)))
        }
    }

    /// The metadata with another dictionary chain of a bucket.
    pub open spec fn with_bucket(self, bucket: int, head: u32, tail: u32) -> Result<Image> {
        if self.kind != PageKind::Meta {
            Err(corrupted(6))
        } else if bucket >= BUCKETS || !is_pair(head, tail) {
            Err(corrupted(64))
        } else {
            Ok(
                self.patched(64 + bucket * 8, u32_bytes(head)).patched(
                    68 + bucket * 8,
                    u32_bytes(tail),
                ),
            )
        }
    }

    /// The metadata with another head of the free list.
    pub open spec fn with_free_head(self, block: u32) -> Result<Image> {
        if self.kind != PageKind::Meta {
            Err(corrupted(6))
        } else if block != NO_BLOCK && !is_block(block) {
            Err(corrupted(48))
        } else {
            Ok(self.patched(48, u32_bytes(block)))
        }
    }

    /// The metadata with another journal.
    pub open spec fn with_journal(self, journal: Option<RewriteJournal>) -> Result<Image> {
        if self.kind != PageKind::Meta {
            Err(corrupted(6))
        } else if journal matches Some(chain) && (!is_block(chain.head) || !is_block(chain.tail)) {
            Err(corrupted(52))
        } else {
            let code = journal_code(journal);
            Ok(
                self.patched(52, code.subrange(0, 4)).patched(56, code.subrange(4, 8)).patched(
                    60,
                    code.subrange(8, 12),
                ),
            )
        }
    }

    /// The posting page with one more owner; nothing when it is full.
    pub open spec fn with_posting(self, owner: OwnerRef) -> Result<Option<Image>> {
        if self.kind != PageKind::Postings {
            Err(corrupted(6))
        } else if self.bytes.len() + 16 > CAPACITY {
            Ok(None)
        } else if !owner.valid() {
            Err(corrupted(0))
        } else {
            Ok(Some(Image { bytes: self.bytes + owner.code(), ..self }))
        }
    }

    /// The dictionary page with one more term; nothing when it is full.
    pub open spec fn with_term(self, text: Seq<u8>, first: OwnerRef) -> Result<Option<Image>> {
        if self.kind != PageKind::Dictionary {
            Err(corrupted(6))
        } else if text.len() == 0 || text.len() > MAX_TERM_BYTES {
            Err(Error::InvalidDocument)
        } else if self.bytes.len() + 32 + text.len() > CAPACITY {
            Ok(None)
        } else if !first.valid() {
            Err(corrupted(12))
        } else {
            Ok(Some(Image { bytes: self.bytes + term_code(text, first), ..self }))
        }
    }

    /// The dictionary page with another posting chain of a term.
    pub open spec fn with_posting_chain(self, term: TermRef, head: u32, tail: u32) -> Result<Image> {
        match self.term(term) {
            Err(error) => Err(error),
            Ok(_) => if !is_posting_pair(head, tail) {
                Err(corrupted(term.offset as int))
            } else {
                Ok(
                    self.patched(term.offset + 4, u32_bytes(head)).patched(
                        term.offset + 8,
                        u32_bytes(tail),
                    ),
                )
            },
        }
    }
}

/// Taking a block for new content: the head of the free list, or a new block.
/// Gives the block and the metadata without it.
pub open spec fn block_taken(model: StoreModel, meta: Image) -> Change<(u32, Image)> {
    match meta.free_head() {
        Err(error) => Change::refused(model, error),
        Ok(free) => if free == NO_BLOCK {
            match allocated(model).value {
                Err(error) => Change::refused(allocated(model).model, error),
                Ok(block) => Change::made(allocated(model).model, (block, meta)),
            }
        } else {
            match model.load(free, PageKind::Free) {
                Err(error) => Change::refused(model, error),
                Ok(page) => match page.next() {
                    Err(error) => Change::refused(model, error),
                    Ok(next) => match meta.with_free_head(next) {
                        Err(error) => Change::refused(model, error),
                        Ok(meta) => Change::made(model, (free, meta)),
                    },
                },
            }
        },
    }
}

} // verus!
