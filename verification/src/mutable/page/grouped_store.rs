//! Storing grouped state in metadata.

use super::grouped_model::{
    delta_magic, delta_state_code, group_delta_code, group_deltas_code, group_journal_code,
    group_retired_code, group_retirees_code, owner_slot_code, single_code, single_magic,
    snapshot_code, unstorable_delta, zeros, GroupDelta, GroupJournal, GroupRetired, GroupSnapshot,
    GroupState, META_LEGACY_BYTES,
};
use super::model::{OwnerRef, PageKind, RewritePhase, CAPACITY, NO_BLOCK, OWNER_SLOTS};
use super::{block_valid, corrupt, Page};
use crate::codec::bytes::{
    group_bytes, splice, u16_bytes, u32_bytes, u64_bytes, Writer,
};
use crate::error::{Error, Result};
use crate::identity::group_identity;
use vstd::prelude::*;

verus! {

broadcast use {group_bytes, group_identity};

fn storable(owner: Option<OwnerRef>) -> (storable: bool)
    ensures
        storable == (owner matches Some(owner) ==> owner.valid()),
{
    match owner {
        Some(owner) => block_valid(owner.page) && (owner.slot as usize) < OWNER_SLOTS,
        None => true,
    }
}

fn owner_slot_array(owner: Option<OwnerRef>) -> (bytes: [u8; 16])
    ensures
        bytes@ == owner_slot_code(owner),
{
    match owner {
        Some(owner) => owner.array(),
        None => {
            let bytes: [u8; 16] = [0u8; 16];
            assert(bytes@ =~= zeros(16));
            bytes
        },
    }
}

fn snapshot_array(snapshot: Option<GroupSnapshot>) -> (bytes: [u8; 48])
    ensures
        bytes@ == snapshot_code(snapshot),
{
    let (id, head, tail, root, frontier, flag, after): (
        u64,
        u32,
        u32,
        u32,
        u32,
        u32,
        Option<OwnerRef>,
    ) = match snapshot {
        Some(snapshot) => (
            snapshot.id.get(),
            snapshot.head,
            snapshot.tail,
            snapshot.root,
            match snapshot.frontier_root {
                Some(root) => root,
                None => 0,
            },
            if snapshot.frontier_valid {
                1
            } else {
                0
            },
            snapshot.after,
        ),
        None => (0, NO_BLOCK, NO_BLOCK, NO_BLOCK, 0, 0, None),
    };
    let owner: [u8; 16] = owner_slot_array(after);
    let mut bytes: [u8; 48] = [0u8; 48];
    let ghost before = bytes@;
    assert(before =~= splice(before, 0, Seq::empty()));
    assert(Seq::<u8>::empty() + u64_bytes(id) =~= u64_bytes(id));
    let mut writer: Writer = Writer::new(&mut bytes);
    let a: crate::codec::Result<()> = writer.u64(id);
    let b: crate::codec::Result<()> = writer.u32(head);
    let c: crate::codec::Result<()> = writer.u32(tail);
    let d: crate::codec::Result<()> = writer.u32(root);
    let e: crate::codec::Result<()> = writer.u32(frontier);
    let f: crate::codec::Result<()> = writer.u32(flag);
    let g: crate::codec::Result<()> = writer.u32(0);
    let h: crate::codec::Result<()> = writer.put(&owner);
    assert(a is Ok && b is Ok && c is Ok && d is Ok && e is Ok && f is Ok && g is Ok && h is Ok);
    assert(bytes@ =~= snapshot_code(snapshot));
    bytes
}

fn journal_array(journal: Option<GroupJournal>) -> (bytes: [u8; 24])
    ensures
        bytes@ == group_journal_code(journal),
{
    let (id, head, tail, phase): (u64, u32, u32, u32) = match journal {
        Some(journal) => (
            journal.id.get(),
            journal.head,
            journal.tail,
            match journal.phase {
                RewritePhase::Building => 1,
                RewritePhase::Retiring => 2,
            },
        ),
        None => (0, NO_BLOCK, NO_BLOCK, 0),
    };
    let mut bytes: [u8; 24] = [0u8; 24];
    let ghost before = bytes@;
    assert(before =~= splice(before, 0, Seq::empty()));
    assert(Seq::<u8>::empty() + u64_bytes(id) =~= u64_bytes(id));
    let mut writer: Writer = Writer::new(&mut bytes);
    let a: crate::codec::Result<()> = writer.u64(id);
    let b: crate::codec::Result<()> = writer.u32(head);
    let c: crate::codec::Result<()> = writer.u32(tail);
    let d: crate::codec::Result<()> = writer.u32(phase);
    let e: crate::codec::Result<()> = writer.u32(0);
    assert(a is Ok && b is Ok && c is Ok && d is Ok && e is Ok);
    assert(bytes@ =~= group_journal_code(journal));
    bytes
}

fn delta_array(delta: Option<GroupDelta>) -> (bytes: [u8; 72])
    ensures
        bytes@ == group_delta_code(delta),
{
    let (snapshot, before, level): (Option<GroupSnapshot>, Option<OwnerRef>, u8) = match delta {
        Some(delta) => (Some(delta.snapshot), delta.before, delta.level),
        None => (None, None, 0),
    };
    let first: [u8; 48] = snapshot_array(snapshot);
    let owner: [u8; 16] = owner_slot_array(before);
    let rest: [u8; 7] = [0u8; 7];
    assert(rest@ =~= zeros(7));
    let mut bytes: [u8; 72] = [0u8; 72];
    let ghost start = bytes@;
    assert(start =~= splice(start, 0, Seq::empty()));
    assert(Seq::<u8>::empty() + first@ =~= first@);
    let mut writer: Writer = Writer::new(&mut bytes);
    let a: crate::codec::Result<()> = writer.put(&first);
    let b: crate::codec::Result<()> = writer.put(&owner);
    let c: crate::codec::Result<()> = writer.u8(level);
    let d: crate::codec::Result<()> = writer.put(&rest);
    assert(a is Ok && b is Ok && c is Ok && d is Ok);
    assert(bytes@ =~= group_delta_code(delta));
    bytes
}

fn retired_array(retired: Option<GroupRetired>) -> (bytes: [u8; 16])
    ensures
        bytes@ == group_retired_code(retired),
{
    let (id, head, tail): (u64, u32, u32) = match retired {
        Some(retired) => (retired.id.get(), retired.head, retired.tail),
        None => (0, NO_BLOCK, NO_BLOCK),
    };
    let mut bytes: [u8; 16] = [0u8; 16];
    let ghost before = bytes@;
    assert(before =~= splice(before, 0, Seq::empty()));
    assert(Seq::<u8>::empty() + u64_bytes(id) =~= u64_bytes(id));
    let mut writer: Writer = Writer::new(&mut bytes);
    let a: crate::codec::Result<()> = writer.u64(id);
    let b: crate::codec::Result<()> = writer.u32(head);
    let c: crate::codec::Result<()> = writer.u32(tail);
    assert(a is Ok && b is Ok && c is Ok);
    assert(bytes@ =~= group_retired_code(retired));
    bytes
}

fn single_array(state: &GroupState) -> (bytes: [u8; 72])
    ensures
        bytes@ == single_code(state@),
{
    let (id, head, tail, root, frontier, valid, after): (
        u64,
        u32,
        u32,
        u32,
        Option<u32>,
        bool,
        Option<OwnerRef>,
    ) = match state.active {
        Some(active) => (
            active.id.get(),
            active.head,
            active.tail,
            active.root,
            active.frontier_root,
            active.frontier_valid,
            active.after,
        ),
        None => (0, NO_BLOCK, NO_BLOCK, NO_BLOCK, None, false, None),
    };
    let version: u16 = if frontier.is_some() {
        2
    } else {
        1
    };
    let flag: u16 = if valid {
        1
    } else {
        0
    };
    let place: u32 = match frontier {
        Some(root) => root,
        None => 0,
    };
    let owner: [u8; 16] = owner_slot_array(after);
    let journal: [u8; 24] = journal_array(state.journal);
    let magic: [u8; 4] = [0x50, 0x47, 0x30, 0x39];
    assert(magic@ =~= single_magic());
    let mut bytes: [u8; 72] = [0u8; 72];
    let ghost before = bytes@;
    assert(before =~= splice(before, 0, Seq::empty()));
    assert(Seq::<u8>::empty() + magic@ =~= magic@);
    let mut writer: Writer = Writer::new(&mut bytes);
    let a: crate::codec::Result<()> = writer.put(&magic);
    let b: crate::codec::Result<()> = writer.u16(version);
    let c: crate::codec::Result<()> = writer.u16(flag);
    let d: crate::codec::Result<()> = writer.u64(id);
    let e: crate::codec::Result<()> = writer.u32(head);
    let f: crate::codec::Result<()> = writer.u32(tail);
    let g: crate::codec::Result<()> = writer.u32(root);
    let h: crate::codec::Result<()> = writer.u32(place);
    let i: crate::codec::Result<()> = writer.put(&owner);
    let j: crate::codec::Result<()> = writer.put(&journal);
    assert(a is Ok && b is Ok && c is Ok && d is Ok && e is Ok);
    assert(f is Ok && g is Ok && h is Ok && i is Ok && j is Ok);
    assert(bytes@ =~= single_magic() + u16_bytes(version) + u16_bytes(flag) + u64_bytes(id)
        + u32_bytes(head) + u32_bytes(tail) + u32_bytes(root) + u32_bytes(place) + owner@
        + journal@);
    assert(bytes@ =~= single_code(state@));
    bytes
}

#[verifier::loop_isolation(false)]
fn delta_state_array(state: &GroupState) -> (bytes: [u8; 1504])
    ensures
        bytes@ == delta_state_code(state@),
{
    let active: [u8; 48] = snapshot_array(state.active);
    let journal: [u8; 24] = journal_array(state.journal);
    let magic: [u8; 4] = [0x50, 0x47, 0x31, 0x30];
    assert(magic@ =~= delta_magic());
    let mut bytes: [u8; 1504] = [0u8; 1504];
    let ghost before = bytes@;
    assert(before =~= splice(before, 0, Seq::empty()));
    assert(Seq::<u8>::empty() + magic@ =~= magic@);
    let mut writer: Writer = Writer::new(&mut bytes);
    let a: crate::codec::Result<()> = writer.put(&magic);
    let b: crate::codec::Result<()> = writer.u16(1);
    let c: crate::codec::Result<()> = writer.u16(0);
    let d: crate::codec::Result<()> = writer.put(&active);
    let e: crate::codec::Result<()> = writer.put(&journal);
    assert(a is Ok && b is Ok && c is Ok && d is Ok && e is Ok);
    let ghost lead = delta_magic() + u16_bytes(1) + u16_bytes(0) + snapshot_code(state.active)
        + group_journal_code(state.journal);
    let mut i: usize = 0;
    assert(state.deltas@.take(0) =~= Seq::empty());
    assert(lead + group_deltas_code(state.deltas@.take(0)) =~= lead);
    while i < 16
        invariant
            i <= 16,
            writer.offset == 80 + 72 * i,
            group_deltas_code(state.deltas@.take(i as int)).len() == 72 * i,
            writer.bytes@ == splice(
                before,
                0,
                lead + group_deltas_code(state.deltas@.take(i as int)),
            ),
            final(writer.bytes)@ == after_borrow(bytes)@,
        decreases 16 - i,
    {
        let ghost done = lead + group_deltas_code(state.deltas@.take(i as int));
        let delta: [u8; 72] = delta_array(state.deltas[i]);
        let f: crate::codec::Result<()> = writer.put(&delta);
        assert(f is Ok);
        i += 1;
        proof {
            assert(state.deltas@.take(i as int).drop_last() =~= state.deltas@.take(i - 1));
            assert(done + delta@ =~= lead + group_deltas_code(state.deltas@.take(i as int)));
        }
    }
    assert(state.deltas@.take(16) =~= state.deltas@);
    let ghost lead = lead + group_deltas_code(state.deltas@);
    let mut i: usize = 0;
    assert(state.retired@.take(0) =~= Seq::empty());
    assert(lead + group_retirees_code(state.retired@.take(0)) =~= lead);
    while i < 17
        invariant
            i <= 17,
            writer.offset == 1232 + 16 * i,
            group_retirees_code(state.retired@.take(i as int)).len() == 16 * i,
            writer.bytes@ == splice(
                before,
                0,
                lead + group_retirees_code(state.retired@.take(i as int)),
            ),
            final(writer.bytes)@ == after_borrow(bytes)@,
        decreases 17 - i,
    {
        let ghost done = lead + group_retirees_code(state.retired@.take(i as int));
        let retired: [u8; 16] = retired_array(state.retired[i]);
        let f: crate::codec::Result<()> = writer.put(&retired);
        assert(f is Ok);
        i += 1;
        proof {
            assert(state.retired@.take(i as int).drop_last() =~= state.retired@.take(i - 1));
            assert(done + retired@ =~= lead + group_retirees_code(state.retired@.take(i as int)));
        }
    }
    assert(state.retired@.take(17) =~= state.retired@);
    assert(bytes@ =~= delta_state_code(state@));
    bytes
}

proof fn unstorable_stays(deltas: Seq<Option<GroupDelta>>, few: nat, many: nat)
    requires
        few <= many,
        unstorable_delta(deltas, few) is Some,
    ensures
        unstorable_delta(deltas, many) == unstorable_delta(deltas, few),
    decreases many,
{
    if few < many {
        unstorable_stays(deltas, few, (many - 1) as nat);
    }
}

impl Page {
    /// Updates a private metadata image; the host publishes it atomically.
    #[verifier::loop_isolation(false)]
    pub fn set_grouped_state(&mut self, state: GroupState) -> (result: Result<()>)
        ensures
            match old(self)@.stored_state(state@) {
                Ok(code) => {
                    &&& result is Ok
                    &&& final(self)@.block == old(self)@.block
                    &&& final(self)@.kind == old(self)@.kind
                    &&& final(self)@.initialize == old(self)@.initialize
                    &&& final(self)@.bytes.len() == 4160 + code.len()
                    &&& final(self)@.bytes.skip(4160) == code
                    &&& forall|i: int|
                        0 <= i < old(self)@.bytes.len() && i < 4160 ==> final(self)@.bytes[i]
                            == old(self)@.bytes[i]
                },
                Err(error) => result == Err::<(), Error>(error) && final(self)@ == old(self)@,
            },
    {
        self.require(PageKind::Meta)?;
        state.validate()?;
        let next: u64 = self.u64(32)?;
        if !state.precedes(next) {
            return Err(Error::InvalidState);
        }
        let fence: Option<OwnerRef> = match state.active {
            Some(active) => active.after,
            None => None,
        };
        if !state.any_delta() && !state.any_retired() {
            if !storable(fence) {
                return Err(corrupt(32));
            }
            let code: [u8; 72] = single_array(&state);
            assert(code@.len() == 72);
            self.store_tail(&code);
            return Ok(());
        }
        if !storable(fence) {
            return Err(corrupt(40));
        }
        let mut i: usize = 0;
        while i < 16
            invariant
                i <= 16,
                unstorable_delta(state.deltas@, i as nat) is None,
            decreases 16 - i,
        {
            if let Some(delta) = state.deltas[i] {
                if !storable(delta.snapshot.after) {
                    proof {
                        unstorable_stays(state.deltas@, (i + 1) as nat, 16);
                    }
                    return Err(corrupt(80 + i * 72 + 32));
                }
                if !storable(delta.before) {
                    proof {
                        unstorable_stays(state.deltas@, (i + 1) as nat, 16);
                    }
                    return Err(corrupt(80 + i * 72 + 48));
                }
            }
            i += 1;
        }
        let code: [u8; 1504] = delta_state_array(&state);
        assert(code@.len() == 1504);
        self.store_tail(&code);
        Ok(())
    }

    fn store_tail(&mut self, code: &[u8])
        requires
            old(self)@.kind == PageKind::Meta,
            16 < code@.len(),
            4160 + code@.len() <= CAPACITY,
        ensures
            final(self)@.block == old(self)@.block,
            final(self)@.kind == old(self)@.kind,
            final(self)@.initialize == old(self)@.initialize,
            final(self)@.bytes.len() == 4160 + code@.len(),
            final(self)@.bytes.skip(4160) == code@,
            forall|i: int|
                0 <= i < old(self)@.bytes.len() && i < 4160 ==> final(self)@.bytes[i] == old(self)@.bytes[i],
    {
        proof {
            use_type_invariant(&*self);
        }
        self.patch(META_LEGACY_BYTES, code);
        proof {
            use_type_invariant(&*self);
        }
        self.len = META_LEGACY_BYTES + code.len();
        assert(self@.bytes.skip(4160) =~= code@);
    }
}

} // verus!
