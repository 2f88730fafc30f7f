//! Appending owner records.

use super::model::{
    owner_record, relocated, OwnerRef, CAPACITY, INLINE_BYTES, NO_BLOCK, OWNER_BYTES, OWNER_HEADER,
};
use super::{corrupt, Page};
use crate::codec::bytes::{group_bytes, splice, u64_bytes, Writer};
use crate::error::{Error, Result};
use crate::identity::{group_identity, Incarnation, RootTid};
use crate::mutable::document::{MAX_DOCUMENT_BYTES, MAX_DOCUMENT_TOKENS};
use vstd::prelude::*;

verus! {

broadcast use {group_bytes, group_identity};

fn record_array(
    incarnation: Incarnation,
    root: RootTid,
    tokens: u32,
    terms: u32,
    data_bytes: u32,
    inline_offset: u16,
    inline_len: u16,
) -> (record: [u8; 40])
    ensures
        record@ == owner_record(
            incarnation,
            root,
            tokens,
            terms,
            data_bytes,
            inline_offset,
            inline_len,
        ),
{
    let mut record: [u8; 40] = [0u8; 40];
    let ghost before = record@;
    assert(before =~= splice(before, 0, Seq::empty()));
    assert(Seq::<u8>::empty() + u64_bytes(incarnation.get()) =~= u64_bytes(incarnation.get()));
    let mut writer: Writer = Writer::new(&mut record);
    let a: crate::codec::Result<()> = writer.u64(incarnation.get());
    let b: crate::codec::Result<()> = writer.u32(root.block());
    let c: crate::codec::Result<()> = writer.u16(root.offset());
    let d: crate::codec::Result<()> = writer.u8(0);
    let e: crate::codec::Result<()> = writer.u8(0);
    let f: crate::codec::Result<()> = writer.u32(tokens);
    let g: crate::codec::Result<()> = writer.u32(terms);
    let h: crate::codec::Result<()> = writer.u32(NO_BLOCK);
    let i: crate::codec::Result<()> = writer.u32(data_bytes);
    let j: crate::codec::Result<()> = writer.u16(inline_offset);
    let k: crate::codec::Result<()> = writer.u16(inline_len);
    let l: crate::codec::Result<()> = writer.u32(0);
    assert(a is Ok && b is Ok && c is Ok && d is Ok && e is Ok && f is Ok);
    assert(g is Ok && h is Ok && i is Ok && j is Ok && k is Ok && l is Ok);
    assert(record@ =~= owner_record(
        incarnation,
        root,
        tokens,
        terms,
        data_bytes,
        inline_offset,
        inline_len,
    ));
    record
}

proof fn relocated_len(bytes: Seq<u8>, slots: nat)
    ensures
        relocated(bytes, slots) matches Ok(moved) ==> moved.len() == bytes.len(),
    decreases slots,
{
    if slots > 0 {
        relocated_len(bytes, (slots - 1) as nat);
    }
}

proof fn relocated_error(bytes: Seq<u8>, slots: nat, more: nat)
    requires
        slots <= more,
        relocated(bytes, slots) is Err,
    ensures
        relocated(bytes, more) == relocated(bytes, slots),
    decreases more,
{
    if slots < more {
        relocated_error(bytes, slots, (more - 1) as nat);
    }
}

impl Page {
    /// Appends a never-reused slot, packing small payloads into the owner page.
    /// Returns None without mutation when this page is full.
    #[verifier::loop_isolation(false)]
    pub fn append_owner(
        &mut self,
        incarnation: Incarnation,
        root: RootTid,
        tokens: u32,
        terms: u32,
        payload: &[u8],
    ) -> (result: Result<Option<OwnerRef>>)
        ensures
            match old(self)@.appended_owner(incarnation, root, tokens, terms, payload@) {
                Ok(Some((reference, image))) => result == Ok::<Option<OwnerRef>, Error>(
                    Some(reference),
                ) && final(self)@ == image,
                Ok(None) => result == Ok::<Option<OwnerRef>, Error>(None) && final(self)@ == old(self)@,
                Err(error) => result == Err::<Option<OwnerRef>, Error>(error) && (final(self)@
                    == old(self)@ || relocated(
                    old(self)@.bytes,
                    old(self)@.owner_count()->Ok_0 as nat,
                ) is Err),
            },
    {
        let count: u16 = self.owner_count()?;
        if tokens > MAX_DOCUMENT_TOKENS || terms > tokens || payload.len() < 16 || payload.len()
            > MAX_DOCUMENT_BYTES {
            return Err(Error::InvalidDocument);
        }
        let empty: [u8; 0] = [];
        assert(empty@ =~= Seq::<u8>::empty());
        let packed: bool = payload.len() <= INLINE_BYTES;
        let inline: &[u8] = if packed {
            payload
        } else {
            &empty
        };
        let used: usize = self.bytes().len();
        if used + OWNER_BYTES + inline.len() > CAPACITY {
            return Ok(None);
        }
        let at: usize = OWNER_HEADER + count as usize * OWNER_BYTES;
        let mut slot: u16 = 0;
        while slot < count
            invariant
                slot <= count,
                self@.block == old(self)@.block,
                self@.kind == old(self)@.kind,
                self@.initialize == old(self)@.initialize,
                self@.bytes.len() == used,
                relocated(old(self)@.bytes, slot as nat) == Ok::<Seq<u8>, Error>(self@.bytes),
            decreases count - slot,
        {
            let place: usize = OWNER_HEADER + slot as usize * OWNER_BYTES + 32;
            let offset: u16 = self.u16(place)?;
            if offset != 0 {
                if offset > u16::MAX - 40 {
                    proof {
                        relocated_error(old(self)@.bytes, (slot + 1) as nat, count as nat);
                    }
                    return Err(corrupt(place));
                }
                self.put_u16(place, offset + 40)?;
            }
            slot += 1;
        }
        let ghost moved = self@.bytes;
        let record: [u8; 40] = record_array(
            incarnation,
            root,
            tokens,
            terms,
            payload.len() as u32,
            if inline.len() == 0 {
                0
            } else {
                (used + OWNER_BYTES) as u16
            },
            inline.len() as u16,
        );
        self.insert(at, &record);
        self.extend(inline);
        self.put_u16(16, count + 1)?;
        Ok(Some(OwnerRef { page: self.block(), slot: count, incarnation }))
    }
}

} // verus!
