//! Versioned physical extent map plus an inline prefix of one block-coded document.

use super::model::{
    broken, corrupted, cut_short, field_u32, fresh_image, is_block, owner_ref_at, page_header,
    Image, OwnerRef, PageKind, FRAGMENT_BYTES, HEADER, INLINE_BYTES, OWNER_SLOTS,
};
use super::{block_valid, corrupt, Page};
use crate::codec::bytes::{get_u32, group_bytes, le_u32, u32_array, u32_bytes, Reader};
use crate::codec::ErrorKind;
use crate::error::{lift, Error, Result};
use crate::identity::group_identity;
use crate::mutable::document::MAX_DOCUMENT_BYTES;
use vstd::prelude::*;

verus! {

broadcast use {group_bytes, group_identity};

pub const DIRECT_PREFIX_BYTES: usize = 3072;

pub const MAX_DIRECT_FRAGMENTS: usize = 1032;

const DIRECTORY_HEADER: usize = 48;

/// The extent map of one document.
#[derive(Clone, Copy)]
pub struct DocumentDirectory<'a> {
    pub owner: OwnerRef,
    pub total: usize,
    pub prefix: &'a [u8],
    pub entries: &'a [u8],
}

/// The extent map of one document, with its fragment blocks as a sequence.
#[verifier::ext_equal]
pub struct DirectoryModel {
    pub owner: OwnerRef,
    pub total: int,
    pub prefix: Seq<u8>,
    pub entries: Seq<u8>,
}

impl<'a> View for DocumentDirectory<'a> {
    type V = DirectoryModel;

    open spec fn view(&self) -> DirectoryModel {
        DirectoryModel {
            owner: self.owner,
            total: self.total as int,
            prefix: self.prefix@,
            entries: self.entries@,
        }
    }
}

impl DirectoryModel {
    pub open spec fn fragments(self) -> int {
        self.entries.len() as int / 4
    }

    /// The block of the fragment at `index`.
    pub open spec fn block(self, index: int) -> Result<u32> {
        if index * 4 + 4 > self.entries.len() {
            Err(Error::InvalidState)
        } else {
            Ok(le_u32(self.entries, index * 4))
        }
    }
}

impl<'a> DocumentDirectory<'a> {
    pub fn fragments(&self) -> (count: usize)
        ensures
            count == self@.fragments(),
    {
        self.entries.len() / 4
    }

    pub fn block(&self, index: usize) -> (result: Result<u32>)
        ensures
            result == self@.block(index as int),
    {
        if index >= self.entries.len() / 4 {
            return Err(Error::InvalidState);
        }
        let length: usize = self.entries.len();
        assert(index * 4 + 4 <= length);
        Ok(get_u32(self.entries, index * 4))
    }
}

/// The number of fragments behind the prefix of a document of `total` bytes.
pub open spec fn fragment_count(total: int) -> int {
    (total - 3072 + 8131) / 8132
}

/// The stored form of fragment blocks.
pub open spec fn blocks_code(blocks: Seq<u32>) -> Seq<u8>
    decreases blocks.len(),
{
    if blocks.len() == 0 {
        Seq::empty()
    } else {
        blocks_code(blocks.drop_last()) + u32_bytes(blocks.last())
    }
}

/// The page of an extent map, or why it is refused.
pub open spec fn directory_image(
    block: u32,
    owner: OwnerRef,
    total: int,
    blocks: Seq<u32>,
    prefix: Seq<u8>,
) -> Result<Image> {
    if total <= INLINE_BYTES || total > MAX_DOCUMENT_BYTES || prefix.len() != DIRECT_PREFIX_BYTES
        || blocks.len() != fragment_count(total) || (exists|i: int|
        0 <= i < blocks.len() && (!is_block(#[trigger] blocks[i]) || blocks[i] == block)) {
        Err(corrupted(48))
    } else {
        match fresh_image(block, PageKind::DocumentDirectory) {
            Err(error) => Err(error),
            Ok(image) => if !owner.valid() {
                Err(corrupted(0))
            } else {
                Ok(
                    Image {
                        bytes: page_header(block, PageKind::DocumentDirectory) + u32_bytes(
                            blocks[0],
                        ) + owner.code() + u32_bytes(total as u32) + u32_bytes(blocks.len() as u32)
                            + u32_bytes(prefix.len() as u32) + u32_bytes(0) + blocks_code(blocks)
                            + prefix,
                        ..image
                    },
                )
            },
        }
    }
}

impl Image {
    /// Whether documents may have extent maps.
    pub open spec fn direct_documents(self) -> Result<bool> {
        if self.kind != PageKind::Meta {
            Err(corrupted(6))
        } else {
            match field_u32(self.bytes, 28) {
                Err(error) => Err(error),
                Ok(flags) => if flags > 1 {
                    Err(corrupted(28))
                } else {
                    Ok(flags == 1)
                },
            }
        }
    }

    /// The first fragment block from `index` on that cannot be one.
    pub open spec fn directory_blocks(self, entries: Seq<u8>, index: int) -> Result<()>
        decreases entries.len() - index * 4,
    {
        if index * 4 + 4 > entries.len() {
            Ok(())
        } else {
            let block = le_u32(entries, index * 4);
            if !is_block(block) || block == self.block {
                Err(corrupted(48 + index * 4))
            } else {
                self.directory_blocks(entries, index + 1)
            }
        }
    }

    /// The extent map of a page.
    pub open spec fn document_directory_data(self) -> Result<DirectoryModel> {
        let body = self.entries();
        if self.kind != PageKind::DocumentDirectory {
            Err(corrupted(6))
        } else {
            match owner_ref_at(body, 0) {
                Err(error) => Err(error),
                Ok(owner) => {
                    let total = le_u32(body, 16);
                    let count = le_u32(body, 20);
                    let prefix_len = le_u32(body, 24);
                    if body.len() < 20 {
                        Err(cut_short(16))
                    } else if body.len() < 24 {
                        Err(cut_short(20))
                    } else if body.len() < 28 {
                        Err(cut_short(24))
                    } else if body.len() < 32 {
                        Err(cut_short(28))
                    } else if le_u32(body, 28) != 0 || total <= INLINE_BYTES || total
                        > MAX_DOCUMENT_BYTES || prefix_len != DIRECT_PREFIX_BYTES || count
                        > MAX_DIRECT_FRAGMENTS || count != fragment_count(total as int) {
                        Err(corrupted(48))
                    } else if body.len() < 32 + count * 4 {
                        Err(cut_short(32))
                    } else if body.len() < 32 + count * 4 + 3072 {
                        Err(cut_short(32 + count * 4))
                    } else if body.len() != 32 + count * 4 + 3072 {
                        Err(broken(32 + count * 4 + 3072, ErrorKind::TrailingBytes))
                    } else {
                        let entries = body.subrange(32, 32 + count * 4);
                        match self.directory_blocks(entries, 0) {
                            Err(error) => Err(error),
                            Ok(_) => if le_u32(self.bytes, 12) != le_u32(entries, 0) {
                                Err(corrupted(12))
                            } else {
                                Ok(
                                    DirectoryModel {
                                        owner,
                                        total: total as int,
                                        prefix: body.subrange(
                                            32 + count * 4,
                                            32 + count * 4 + 3072,
                                        ),
                                        entries,
                                    },
                                )
                            },
                        }
                    }
                },
            }
        }
    }
}

impl Page {
    pub fn direct_documents(&self) -> (result: Result<bool>)
        ensures
            result == self@.direct_documents(),
    {
        self.require(PageKind::Meta)?;
        let flags: u32 = self.u32(28)?;
        if flags > 1 {
            return Err(corrupt(28));
        }
        Ok(flags == 1)
    }

    pub fn enable_direct_documents(&mut self) -> (result: Result<()>)
        ensures
            if old(self)@.kind != PageKind::Meta {
                result == Err::<(), Error>(corrupted(6)) && final(self)@ == old(self)@
            } else {
                result is Ok && final(self)@ == old(self)@.patched(28, u32_bytes(1))
            },
    {
        self.require(PageKind::Meta)?;
        self.put_u32(28, 1)
    }

    #[verifier::loop_isolation(false)]
    pub fn document_directory(
        block: u32,
        owner: OwnerRef,
        total: usize,
        blocks: &[u32],
        prefix: &[u8],
    ) -> (result: Result<Self>)
        ensures
            match directory_image(block, owner, total as int, blocks@, prefix@) {
                Ok(image) => result matches Ok(page) && page@ == image,
                Err(error) => result matches Err(e) && e == error,
            },
    {
        let count: usize = blocks.len();
        if total <= INLINE_BYTES || total > MAX_DOCUMENT_BYTES || prefix.len()
            != DIRECT_PREFIX_BYTES || count != (total - DIRECT_PREFIX_BYTES + (FRAGMENT_BYTES - 1))
            / FRAGMENT_BYTES {
            return Err(corrupt(DIRECTORY_HEADER));
        }
        let mut i: usize = 0;
        while i < count
            invariant
                i <= count,
                forall|j: int|
                    0 <= j < i ==> is_block(#[trigger] blocks@[j]) && blocks@[j] != block,
            decreases count - i,
        {
            if !block_valid(blocks[i]) || blocks[i] == block {
                assert(!is_block(blocks@[i as int]) || blocks@[i as int] == block);
                return Err(corrupt(DIRECTORY_HEADER));
            }
            i += 1;
        }
        let mut page: Page = Page::new(block, PageKind::DocumentDirectory)?;
        if !block_valid(owner.page) || owner.slot as usize >= OWNER_SLOTS {
            return Err(corrupt(0));
        }
        let record: [u8; 16] = owner.array();
        page.extend(&record);
        let field: [u8; 4] = u32_array(total as u32);
        page.extend(&field);
        let field: [u8; 4] = u32_array(count as u32);
        page.extend(&field);
        let field: [u8; 4] = u32_array(prefix.len() as u32);
        page.extend(&field);
        let field: [u8; 4] = u32_array(0);
        page.extend(&field);
        let ghost start = page@;
        let mut i: usize = 0;
        assert(blocks@.take(0) =~= Seq::empty());
        assert(start.bytes + blocks_code(blocks@.take(0)) =~= start.bytes);
        while i < count
            invariant
                i <= count,
                blocks_code(blocks@.take(i as int)).len() == i * 4,
                page@ == (Image {
                    bytes: start.bytes + blocks_code(blocks@.take(i as int)),
                    ..start
                }),
            decreases count - i,
        {
            let field: [u8; 4] = u32_array(blocks[i]);
            page.extend(&field);
            i += 1;
            proof {
                assert(blocks@.take(i as int).drop_last() =~= blocks@.take(i - 1));
                assert(page@.bytes =~= start.bytes + blocks_code(blocks@.take(i as int)));
            }
        }
        assert(blocks@.take(i as int) =~= blocks@);
        page.extend(prefix);
        let ghost done = page@;
        let ghost image = directory_image(block, owner, total as int, blocks@, prefix@)->Ok_0;
        let first: [u8; 4] = u32_array(blocks[0]);
        page.patch(12, &first);
        assert(page@.bytes =~= image.bytes);
        Ok(page)
    }

    #[verifier::loop_isolation(false)]
    pub fn document_directory_data(&self) -> (result: Result<DocumentDirectory<'_>>)
        ensures
            match self@.document_directory_data() {
                Ok(model) => result matches Ok(directory) && directory@ == model,
                Err(error) => result matches Err(e) && e == error,
            },
    {
        self.require(PageKind::DocumentDirectory)?;
        let bytes: &[u8] = self.bytes();
        let mut reader: Reader = Reader::new(&bytes[HEADER..bytes.len()]);
        let owner: OwnerRef = OwnerRef::read(&mut reader)?;
        let total: usize = lift(reader.u32())? as usize;
        let count: usize = lift(reader.u32())? as usize;
        let prefix_len: usize = lift(reader.u32())? as usize;
        let reserved: u32 = lift(reader.u32())?;
        if reserved != 0 || total <= INLINE_BYTES || total > MAX_DOCUMENT_BYTES || prefix_len
            != DIRECT_PREFIX_BYTES || count > MAX_DIRECT_FRAGMENTS || count != (total
            - DIRECT_PREFIX_BYTES + (FRAGMENT_BYTES - 1)) / FRAGMENT_BYTES {
            return Err(corrupt(DIRECTORY_HEADER));
        }
        let entries: &[u8] = lift(reader.take(count * 4))?;
        let prefix: &[u8] = lift(reader.take(prefix_len))?;
        lift(reader.finish())?;
        let mut index: usize = 0;
        while index < count
            invariant
                index <= count,
                self@.directory_blocks(entries@, 0) == self@.directory_blocks(
                    entries@,
                    index as int,
                ),
            decreases count - index,
        {
            let block: u32 = get_u32(entries, index * 4);
            if !block_valid(block) || block == self.block() {
                return Err(corrupt(DIRECTORY_HEADER + index * 4));
            }
            index += 1;
        }
        if self.next()? != get_u32(entries, 0) {
            return Err(corrupt(12));
        }
        Ok(DocumentDirectory { owner, total, prefix, entries })
    }
}

} // verus!
