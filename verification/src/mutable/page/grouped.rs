//! Checked physical envelopes for grouped records and immutable catalog nodes.
//! Legacy metadata remains readable; grouped state occupies an optional tail.

use super::grouped_model::{
    delta_magic, delta_state, entries_code, entry_at, entry_key, group_delta_at, group_deltas,
    group_journal_at, group_retired_at, group_retirees, grouped_image, is_catalog_key, key_before,
    owner_slot_at, single_magic, single_state, snapshot_at, zeros, CatalogEntry, EntryModel,
    GroupData, GroupDelta, GroupJournal, GroupModel, GroupPageKind, GroupRetired, GroupSnapshot,
    GroupState, CATALOG_ENTRIES, DATA_HEADER, ENTRY_BYTES, GROUP_DATA_BYTES, GROUP_HEADER,
    MAX_CATALOG_LEVEL, META_GROUPED_BYTES, META_GROUPED_V3_BYTES, META_LEGACY_BYTES, NODE_HEADER,
};
use super::model::{Image, OwnerRef, PageKind, RewritePhase, CAPACITY, HEADER, NO_BLOCK};
use super::{block_valid, posting_pair_valid, Page};
use crate::codec::bytes::{
    get_u16, get_u32, get_u64, group_bytes, le_inside, le_u64, u16_array, u16_bytes, u32_array,
    u32_bytes, u64_array, u64_bytes, Reader,
};
use crate::error::{lift, Error, Result};
use crate::identity::{group_identity, SegmentId};
use crate::text::same_bytes;
use vstd::prelude::*;

verus! {

broadcast use {group_bytes, group_identity};

impl Default for GroupState {
    fn default() -> (state: Self)
        ensures
            state@ == GroupModel::none(),
    {
        let deltas: [Option<GroupDelta>; 16] = [
            None,
            None,
            None,
            None,
            None,
            None,
            None,
            None,
            None,
            None,
            None,
            None,
            None,
            None,
            None,
            None,
        ];
        let retired: [Option<GroupRetired>; 17] = [
            None,
            None,
            None,
            None,
            None,
            None,
            None,
            None,
            None,
            None,
            None,
            None,
            None,
            None,
            None,
            None,
            None,
        ];
        assert(deltas@ =~= GroupModel::none().deltas);
        assert(retired@ =~= GroupModel::none().retired);
        GroupState { active: None, journal: None, deltas, retired }
    }
}

impl GroupState {
    #[verifier::loop_isolation(false)]
    pub fn latest(self) -> (snapshot: Option<GroupSnapshot>)
        ensures
            snapshot == self@.spec_latest(),
    {
        let mut i: usize = 16;
        while i > 0
            invariant
                i <= 16,
                self@.last_delta(16) == self@.last_delta(i as nat),
            decreases i,
        {
            i -= 1;
            if let Some(delta) = self.deltas[i] {
                return Some(delta.snapshot);
            }
        }
        self.active
    }

    #[verifier::loop_isolation(false)]
    pub fn delta_count(self) -> (count: usize)
        ensures
            count == self@.deltas_below(16),
            count <= 16,
    {
        let mut count: usize = 0;
        let mut i: usize = 0;
        while i < 16
            invariant
                i <= 16,
                count <= i,
                count == self@.deltas_below(i as nat),
            decreases 16 - i,
        {
            if self.deltas[i].is_some() {
                count += 1;
            }
            i += 1;
        }
        count
    }

    #[verifier::loop_isolation(false)]
    pub(super) fn any_delta(&self) -> (any: bool)
        ensures
            any == self@.has_deltas(),
    {
        let mut i: usize = 0;
        while i < 16
            invariant
                i <= 16,
                forall|j: int| 0 <= j < i ==> (#[trigger] self@.deltas[j]) is None,
            decreases 16 - i,
        {
            if self.deltas[i].is_some() {
                assert(self@.deltas[i as int] is Some);
                return true;
            }
            i += 1;
        }
        false
    }

    #[verifier::loop_isolation(false)]
    pub(super) fn any_retired(&self) -> (any: bool)
        ensures
            any == self@.has_retired(),
    {
        let mut i: usize = 0;
        while i < 17
            invariant
                i <= 17,
                forall|j: int| 0 <= j < i ==> (#[trigger] self@.retired[j]) is None,
            decreases 17 - i,
        {
            if self.retired[i].is_some() {
                assert(self@.retired[i as int] is Some);
                return true;
            }
            i += 1;
        }
        false
    }

    fn snapshot_valid(snapshot: GroupSnapshot, allow_frontier: bool) -> (valid: bool)
        ensures
            valid == snapshot.valid(allow_frontier),
    {
        let frontier: u32 = match snapshot.frontier_root {
            Some(root) => root,
            None => NO_BLOCK,
        };
        let linked: bool = match snapshot.frontier_root {
            Some(root) => root == NO_BLOCK || (block_valid(root) && root != snapshot.root),
            None => snapshot.root == snapshot.tail,
        };
        let fenced: bool = match snapshot.after {
            Some(owner) => owner.incarnation.get() < snapshot.id.get(),
            None => true,
        };
        posting_pair_valid(snapshot.head, snapshot.tail) && (snapshot.head == NO_BLOCK) == (
        snapshot.root == NO_BLOCK && frontier == NO_BLOCK) && (allow_frontier
            || snapshot.frontier_root.is_none()) && linked && (snapshot.root == NO_BLOCK
            || block_valid(snapshot.root)) && (!snapshot.frontier_valid
            || snapshot.frontier_root.is_some()) && fenced
    }

    fn delta_valid(&self, index: usize) -> (valid: bool)
        requires
            index < 16,
            self@.deltas[index as int] is Some,
        ensures
            valid == self@.delta_valid(index as int),
    {
        let delta: GroupDelta = match self.deltas[index] {
            Some(delta) => delta,
            None => {
                return true;
            },
        };
        let active: GroupSnapshot = match self.active {
            Some(active) => active,
            None => {
                return false;
            },
        };
        let base: GroupSnapshot = if index == 0 {
            active
        } else {
            match self.deltas[index - 1] {
                Some(previous) => {
                    if previous.level <= delta.level {
                        return false;
                    }
                    previous.snapshot
                },
                None => {
                    return false;
                },
            }
        };
        if !GroupState::snapshot_valid(delta.snapshot, false) || delta.snapshot.frontier_valid
            || delta.level >= 16 || base.id.get() >= delta.snapshot.id.get() {
            return false;
        }
        let after: OwnerRef = match delta.snapshot.after {
            Some(after) => after,
            None => {
                return false;
            },
        };
        match (delta.before, base.after) {
            (None, None) => true,
            (Some(before), Some(fence)) => before.page == fence.page && before.slot == fence.slot
                && before.incarnation == fence.incarnation && before.incarnation.get()
                < after.incarnation.get(),
            _ => false,
        }
    }

    fn journal_valid(&self) -> (valid: bool)
        ensures
            valid == self@.journal_valid(),
    {
        match self.journal {
            None => true,
            Some(journal) => {
                if !posting_pair_valid(journal.head, journal.tail) {
                    return false;
                }
                match journal.phase {
                    RewritePhase::Building => match self.latest() {
                        Some(latest) => latest.id.get() < journal.id.get(),
                        None => true,
                    },
                    RewritePhase::Retiring => match self.active {
                        Some(active) => !self.any_delta() && !self.any_retired() && journal.head
                            != NO_BLOCK && journal.id.get() < active.id.get(),
                        None => false,
                    },
                }
            },
        }
    }

    #[verifier::loop_isolation(false)]
    fn retired_valid(&self, index: usize) -> (valid: bool)
        requires
            index < 17,
            self@.retired[index as int] is Some,
        ensures
            valid == self@.retired_valid(index as int),
    {
        let retired: GroupRetired = match self.retired[index] {
            Some(retired) => retired,
            None => {
                return true;
            },
        };
        if index > 0 && self.retired[index - 1].is_none() {
            return false;
        }
        if retired.head == NO_BLOCK || !posting_pair_valid(retired.head, retired.tail) {
            return false;
        }
        if let Some(active) = self.active {
            if active.id == retired.id {
                return false;
            }
        }
        if let Some(journal) = self.journal {
            if journal.id == retired.id {
                return false;
            }
        }
        let mut i: usize = 0;
        while i < 16
            invariant
                i <= 16,
                forall|j: int|
                    0 <= j < i && (#[trigger] self@.deltas[j]) is Some
                        ==> self@.deltas[j]->Some_0.snapshot.id != retired.id,
            decreases 16 - i,
        {
            if let Some(delta) = self.deltas[i] {
                if delta.snapshot.id == retired.id {
                    assert(self@.deltas[i as int] is Some);
                    return false;
                }
            }
            i += 1;
        }
        true
    }

    #[verifier::loop_isolation(false)]
    pub(super) fn validate(&self) -> (result: Result<()>)
        ensures
            result == (if self@.valid() {
                Ok(())
            } else {
                Err(Error::InvalidState)
            }),
    {
        if let Some(active) = self.active {
            if !GroupState::snapshot_valid(active, true) {
                return Err(Error::InvalidState);
            }
        }
        let mut i: usize = 0;
        while i < 16
            invariant
                i <= 16,
                forall|j: int|
                    0 <= j < i && (#[trigger] self@.deltas[j]) is Some ==> self@.delta_valid(j),
            decreases 16 - i,
        {
            if self.deltas[i].is_some() {
                if !self.delta_valid(i) {
                    assert(self@.deltas[i as int] is Some);
                    return Err(Error::InvalidState);
                }
            }
            i += 1;
        }
        if !self.journal_valid() {
            return Err(Error::InvalidState);
        }
        let mut i: usize = 0;
        while i < 17
            invariant
                i <= 17,
                forall|j: int|
                    0 <= j < i && (#[trigger] self@.retired[j]) is Some ==> self@.retired_valid(j),
            decreases 17 - i,
        {
            if self.retired[i].is_some() {
                if !self.retired_valid(i) {
                    assert(self@.retired[i as int] is Some);
                    return Err(Error::InvalidState);
                }
            }
            i += 1;
        }
        Ok(())
    }

    #[verifier::loop_isolation(false)]
    pub(super) fn precedes(&self, next: u64) -> (before: bool)
        ensures
            before == self@.before(next),
    {
        if let Some(active) = self.active {
            if active.id.get() >= next {
                return false;
            }
        }
        if let Some(journal) = self.journal {
            if journal.id.get() >= next {
                return false;
            }
        }
        let mut i: usize = 0;
        while i < 16
            invariant
                i <= 16,
                forall|j: int|
                    0 <= j < i && (#[trigger] self@.deltas[j]) is Some
                        ==> self@.deltas[j]->Some_0.snapshot.id.get() < next,
            decreases 16 - i,
        {
            if let Some(delta) = self.deltas[i] {
                if delta.snapshot.id.get() >= next {
                    assert(self@.deltas[i as int] is Some);
                    return false;
                }
            }
            i += 1;
        }
        let mut i: usize = 0;
        while i < 17
            invariant
                i <= 17,
                forall|j: int|
                    0 <= j < i && (#[trigger] self@.retired[j]) is Some
                        ==> self@.retired[j]->Some_0.id.get() < next,
            decreases 17 - i,
        {
            if let Some(retired) = self.retired[i] {
                if retired.id.get() >= next {
                    assert(self@.retired[i as int] is Some);
                    return false;
                }
            }
            i += 1;
        }
        true
    }
}

fn is_zero(bytes: &[u8]) -> (zero: bool)
    ensures
        zero == (bytes@ == zeros(bytes@.len())),
{
    let mut i: usize = 0;
    while i < bytes.len()
        invariant
            i <= bytes@.len(),
            forall|j: int| 0 <= j < i ==> bytes@[j] == 0,
        decreases bytes@.len() - i,
    {
        if bytes[i] != 0 {
            assert(bytes@[i as int] != zeros(bytes@.len())[i as int]);
            return false;
        }
        i += 1;
    }
    assert(bytes@ =~= zeros(bytes@.len()));
    true
}

fn read_owner_slot(bytes: &[u8], at: usize) -> (result: Result<Option<OwnerRef>>)
    requires
        at + 16 <= bytes@.len() <= CAPACITY,
    ensures
        result == owner_slot_at(bytes@, at as int),
{
    let slot: &[u8] = &bytes[at..at + 16];
    if is_zero(slot) {
        return Ok(None);
    }
    let mut reader: Reader = Reader::new(slot);
    Ok(Some(OwnerRef::read(&mut reader)?))
}

fn read_snapshot(bytes: &[u8], at: usize) -> (result: Result<Option<GroupSnapshot>>)
    requires
        at + 48 <= bytes@.len() <= CAPACITY,
    ensures
        result == snapshot_at(bytes@, at as int),
{
    let head: u32 = get_u32(bytes, at + 8);
    let tail: u32 = get_u32(bytes, at + 12);
    let root: u32 = get_u32(bytes, at + 16);
    let frontier: u32 = get_u32(bytes, at + 20);
    let flags: u32 = get_u32(bytes, at + 24);
    if get_u32(bytes, at + 28) != 0 || flags > 1 {
        return Err(Error::InvalidState);
    }
    let after: Option<OwnerRef> = read_owner_slot(bytes, at + 32)?;
    let id: SegmentId = match SegmentId::new(get_u64(bytes, at)) {
        Ok(id) => id,
        Err(_) => {
            if head != NO_BLOCK || tail != NO_BLOCK || root != NO_BLOCK || frontier != 0 || flags
                != 0 || after.is_some() {
                return Err(Error::InvalidState);
            }
            return Ok(None);
        },
    };
    Ok(
        Some(
            GroupSnapshot {
                id,
                head,
                tail,
                root,
                after,
                frontier_root: if frontier != 0 {
                    Some(frontier)
                } else {
                    None
                },
                frontier_valid: flags == 1,
            },
        ),
    )
}

fn read_group_journal(bytes: &[u8], at: usize) -> (result: Result<Option<GroupJournal>>)
    requires
        at + 24 <= bytes@.len() <= CAPACITY,
    ensures
        result == group_journal_at(bytes@, at as int),
{
    let head: u32 = get_u32(bytes, at + 8);
    let tail: u32 = get_u32(bytes, at + 12);
    let phase: u32 = get_u32(bytes, at + 16);
    if get_u32(bytes, at + 20) != 0 {
        return Err(Error::InvalidState);
    }
    let id: SegmentId = match SegmentId::new(get_u64(bytes, at)) {
        Ok(id) => id,
        Err(_) => {
            if head != NO_BLOCK || tail != NO_BLOCK || phase != 0 {
                return Err(Error::InvalidState);
            }
            return Ok(None);
        },
    };
    let phase: RewritePhase = match phase {
        1 => RewritePhase::Building,
        2 => RewritePhase::Retiring,
        _ => {
            return Err(Error::InvalidState);
        },
    };
    Ok(Some(GroupJournal { id, head, tail, phase }))
}

fn read_group_delta(bytes: &[u8], at: usize) -> (result: Result<Option<GroupDelta>>)
    requires
        at + 72 <= bytes@.len() <= CAPACITY,
    ensures
        result == group_delta_at(bytes@, at as int),
{
    let snapshot: Option<GroupSnapshot> = read_snapshot(bytes, at)?;
    let before: Option<OwnerRef> = read_owner_slot(bytes, at + 48)?;
    let level: u8 = bytes[at + 64];
    if !is_zero(&bytes[at + 65..at + 72]) {
        return Err(Error::InvalidState);
    }
    match snapshot {
        None => {
            if before.is_some() || level != 0 {
                return Err(Error::InvalidState);
            }
            Ok(None)
        },
        Some(snapshot) => Ok(Some(GroupDelta { snapshot, before, level })),
    }
}

fn read_group_retired(bytes: &[u8], at: usize) -> (result: Result<Option<GroupRetired>>)
    requires
        at + 16 <= bytes@.len() <= CAPACITY,
    ensures
        result == group_retired_at(bytes@, at as int),
{
    let head: u32 = get_u32(bytes, at + 8);
    let tail: u32 = get_u32(bytes, at + 12);
    let id: SegmentId = match SegmentId::new(get_u64(bytes, at)) {
        Ok(id) => id,
        Err(_) => {
            if head != NO_BLOCK || tail != NO_BLOCK {
                return Err(Error::InvalidState);
            }
            return Ok(None);
        },
    };
    Ok(Some(GroupRetired { id, head, tail }))
}

fn read_single_state(bytes: &[u8]) -> (result: Result<GroupState>)
    requires
        bytes@.len() == 72,
    ensures
        match single_state(bytes@) {
            Ok(model) => result matches Ok(state) && state@ == model,
            Err(error) => result matches Err(e) && e == error,
        },
{
    let magic: [u8; 4] = [0x50, 0x47, 0x30, 0x39];
    assert(magic@ =~= single_magic());
    assert(bytes@.subrange(0, 4) =~= bytes@.take(4));
    if !same_bytes(&bytes[0..4], &magic) {
        return Err(Error::InvalidState);
    }
    let version: u16 = get_u16(bytes, 4);
    let flags: u16 = get_u16(bytes, 6);
    if !((version == 1 && flags == 0) || (version == 2 && flags <= 1)) {
        return Err(Error::InvalidState);
    }
    let head: u32 = get_u32(bytes, 16);
    let tail: u32 = get_u32(bytes, 20);
    let root: u32 = get_u32(bytes, 24);
    let frontier: u32 = get_u32(bytes, 28);
    if version == 1 && frontier != 0 {
        return Err(Error::InvalidState);
    }
    let after: Option<OwnerRef> = read_owner_slot(bytes, 32)?;
    let active: Option<GroupSnapshot> = match SegmentId::new(get_u64(bytes, 8)) {
        Ok(id) => Some(
            GroupSnapshot {
                id,
                head,
                tail,
                root,
                after,
                frontier_root: if version == 2 {
                    Some(frontier)
                } else {
                    None
                },
                frontier_valid: flags == 1,
            },
        ),
        Err(_) => {
            if head != NO_BLOCK || tail != NO_BLOCK || root != NO_BLOCK || after.is_some()
                || version != 1 {
                return Err(Error::InvalidState);
            }
            None
        },
    };
    let journal: Option<GroupJournal> = read_group_journal(bytes, 48)?;
    let none: GroupState = GroupState::default();
    Ok(GroupState { active, journal, deltas: none.deltas, retired: none.retired })
}

#[verifier::loop_isolation(false)]
fn read_delta_state(bytes: &[u8]) -> (result: Result<GroupState>)
    requires
        bytes@.len() == 1504,
    ensures
        match delta_state(bytes@) {
            Ok(model) => result matches Ok(state) && state@ == model,
            Err(error) => result matches Err(e) && e == error,
        },
{
    let magic: [u8; 4] = [0x50, 0x47, 0x31, 0x30];
    assert(magic@ =~= delta_magic());
    assert(bytes@.subrange(0, 4) =~= bytes@.take(4));
    if !same_bytes(&bytes[0..4], &magic) || get_u16(bytes, 4) != 1 || get_u16(bytes, 6) != 0 {
        return Err(Error::InvalidState);
    }
    let active: Option<GroupSnapshot> = read_snapshot(bytes, 8)?;
    let journal: Option<GroupJournal> = read_group_journal(bytes, 56)?;
    let none: GroupState = GroupState::default();
    let mut deltas: [Option<GroupDelta>; 16] = none.deltas;
    let mut i: usize = 0;
    assert(deltas@.take(0) =~= Seq::empty());
    while i < 16
        invariant
            i <= 16,
            group_deltas(bytes@, i as nat) == Ok::<Seq<Option<GroupDelta>>, Error>(
                deltas@.take(i as int),
            ),
        decreases 16 - i,
    {
        let delta: Option<GroupDelta> = match read_group_delta(bytes, 80 + i * 72) {
            Ok(delta) => delta,
            Err(error) => {
                proof {
                    group_deltas_error(bytes@, (i + 1) as nat, 16);
                }
                return Err(error);
            },
        };
        let ghost before = deltas@;
        deltas[i] = delta;
        i += 1;
        assert(deltas@.take(i as int) =~= before.take(i - 1).push(delta));
    }
    assert(deltas@.take(16) =~= deltas@);
    let mut retired: [Option<GroupRetired>; 17] = none.retired;
    let mut i: usize = 0;
    assert(retired@.take(0) =~= Seq::empty());
    while i < 17
        invariant
            i <= 17,
            group_retirees(bytes@, i as nat) == Ok::<Seq<Option<GroupRetired>>, Error>(
                retired@.take(i as int),
            ),
        decreases 17 - i,
    {
        let one: Option<GroupRetired> = match read_group_retired(bytes, 1232 + i * 16) {
            Ok(one) => one,
            Err(error) => {
                proof {
                    group_retirees_error(bytes@, (i + 1) as nat, 17);
                }
                return Err(error);
            },
        };
        let ghost before = retired@;
        retired[i] = one;
        i += 1;
        assert(retired@.take(i as int) =~= before.take(i - 1).push(one));
    }
    assert(retired@.take(17) =~= retired@);
    Ok(GroupState { active, journal, deltas, retired })
}

proof fn group_deltas_error(bytes: Seq<u8>, few: nat, many: nat)
    requires
        few <= many,
        group_deltas(bytes, few) is Err,
    ensures
        group_deltas(bytes, many) == group_deltas(bytes, few),
    decreases many,
{
    if few < many {
        group_deltas_error(bytes, few, (many - 1) as nat);
    }
}

proof fn group_retirees_error(bytes: Seq<u8>, few: nat, many: nat)
    requires
        few <= many,
        group_retirees(bytes, few) is Err,
    ensures
        group_retirees(bytes, many) == group_retirees(bytes, few),
    decreases many,
{
    if few < many {
        group_retirees_error(bytes, few, (many - 1) as nat);
    }
}

impl Page {
    /// Tests a captured allocation fence, not transaction visibility.
    pub(crate) fn grouped_has_delta(&self, snapshot: GroupSnapshot) -> (result: Result<bool>)
        ensures
            match self@.grouped_delta_span(snapshot) {
                Ok(span) => result == Ok::<bool, Error>(span != 0),
                Err(error) => result == Err::<bool, Error>(error),
            },
    {
        Ok(self.grouped_delta_span(snapshot)? != 0)
    }

    /// Returns reserved incarnations after one captured grouped allocation fence.
    pub(crate) fn grouped_delta_span(&self, snapshot: GroupSnapshot) -> (result: Result<u64>)
        ensures
            result == self@.grouped_delta_span(snapshot),
    {
        self.require(PageKind::Meta)?;
        let next: u64 = self.u64(32)?;
        if next <= snapshot.id.get() {
            return Err(Error::InvalidState);
        }
        Ok(next - snapshot.id.get() - 1)
    }

    /// Reads legacy, single-snapshot, or bounded-delta metadata.
    pub fn grouped_state(&self) -> (result: Result<GroupState>)
        ensures
            match self@.grouped_state() {
                Ok(model) => result matches Ok(state) && state@ == model,
                Err(error) => result matches Err(e) && e == error,
            },
    {
        self.require(PageKind::Meta)?;
        let bytes: &[u8] = self.bytes();
        let len: usize = bytes.len();
        if len == META_LEGACY_BYTES {
            return Ok(GroupState::default());
        }
        let state: GroupState = if len == META_GROUPED_BYTES {
            read_single_state(&bytes[META_LEGACY_BYTES..len])?
        } else if len == META_GROUPED_V3_BYTES {
            read_delta_state(&bytes[META_LEGACY_BYTES..len])?
        } else {
            return Err(Error::InvalidState);
        };
        state.validate()?;
        if !state.precedes(get_u64(bytes, 32)) {
            return Err(Error::InvalidState);
        }
        Ok(state)
    }

    pub fn group_identity(&self) -> (result: Result<(SegmentId, GroupPageKind)>)
        ensures
            result == self@.group_identity(),
    {
        self.require(PageKind::Grouped)?;
        let bytes: &[u8] = self.bytes();
        let mut reader: Reader = Reader::new(&bytes[HEADER..bytes.len()]);
        let magic: [u8; 4] = [0x47, 0x39, 0x50, 0x47];
        assert(magic@ =~= seq![0x47u8, 0x39u8, 0x50u8, 0x47u8]);
        let start: &[u8] = lift(reader.take(4))?;
        assert(start@ =~= self@.entries().take(4));
        if !same_bytes(start, &magic) {
            return Err(Error::InvalidState);
        }
        if lift(reader.u16())? != 1 {
            return Err(Error::InvalidState);
        }
        let kind: GroupPageKind = match lift(reader.u8())? {
            1 => GroupPageKind::Members,
            2 => GroupPageKind::Liveness,
            3 => GroupPageKind::Posting,
            4 => GroupPageKind::Leaf,
            5 => GroupPageKind::Branch,
            _ => {
                return Err(Error::InvalidState);
            },
        };
        if lift(reader.u8())? != 0 {
            return Err(Error::InvalidState);
        }
        let id: SegmentId = match SegmentId::new(lift(reader.u64())?) {
            Ok(id) => id,
            Err(_) => {
                return Err(Error::InvalidState);
            },
        };
        Ok((id, kind))
    }

    pub fn group_data(&self) -> (result: Result<GroupData<'_>>)
        ensures
            match self@.group_data() {
                Ok(model) => result matches Ok(data) && data@ == model,
                Err(error) => result matches Err(e) && e == error,
            },
    {
        let (id, kind): (SegmentId, GroupPageKind) = self.group_identity()?;
        match kind {
            GroupPageKind::Leaf => {
                return Err(Error::InvalidState);
            },
            GroupPageKind::Branch => {
                return Err(Error::InvalidState);
            },
            _ => {},
        }
        let bytes: &[u8] = self.bytes();
        let mut reader: Reader = Reader::new(&bytes[GROUP_HEADER..bytes.len()]);
        proof {
            let len = bytes@.len() - 32;
            le_inside(bytes@, 32, len, 0);
            le_inside(bytes@, 32, len, 8);
            le_inside(bytes@, 32, len, 16);
            le_inside(bytes@, 32, len, 20);
        }
        let term: u64 = lift(reader.u64())?;
        let base: u64 = lift(reader.u64())?;
        let key: [u64; 2] = [term, base];
        assert(key@ =~= seq![le_u64(bytes@, 32), le_u64(bytes@, 40)]);
        let total: u32 = lift(reader.u32())?;
        let offset: u32 = lift(reader.u32())?;
        let data: &[u8] = &bytes[DATA_HEADER..bytes.len()];
        let maximum: u32 = if kind == GroupPageKind::Members {
            2_097_224
        } else {
            17_480
        };
        if !valid_key(key) || (kind == GroupPageKind::Posting) != (key[0] != 0) || total < 72
            || total > maximum || offset >= total || offset % 8112 != 0 {
            return Err(Error::InvalidState);
        }
        let rest: usize = (total - offset) as usize;
        let expected: usize = if rest <= GROUP_DATA_BYTES {
            rest
        } else {
            GROUP_DATA_BYTES
        };
        if data.len() != expected {
            return Err(Error::InvalidState);
        }
        Ok(GroupData { id, kind, key, total, offset, bytes: data })
    }

    fn new_grouped(block: u32, id: SegmentId, kind: GroupPageKind) -> (result: Result<Self>)
        ensures
            match grouped_image(block, id, kind) {
                Ok(image) => result matches Ok(page) && page@ == image,
                Err(error) => result matches Err(e) && e == error,
            },
    {
        let mut page: Page = Page::new(block, PageKind::Grouped)?;
        let tag: u8 = match kind {
            GroupPageKind::Members => 1,
            GroupPageKind::Liveness => 2,
            GroupPageKind::Posting => 3,
            GroupPageKind::Leaf => 4,
            GroupPageKind::Branch => 5,
        };
        let magic: [u8; 4] = [0x47, 0x39, 0x50, 0x47];
        assert(magic@ =~= seq![0x47u8, 0x39u8, 0x50u8, 0x47u8]);
        page.extend(&magic);
        let version: [u8; 2] = u16_array(1);
        page.extend(&version);
        let kind_byte: [u8; 1] = [tag];
        assert(kind_byte@ =~= seq![tag]);
        page.extend(&kind_byte);
        let reserved: [u8; 1] = [0];
        assert(reserved@ =~= seq![0u8]);
        page.extend(&reserved);
        let number: [u8; 8] = u64_array(id.get());
        page.extend(&number);
        Ok(page)
    }

    /// Creates one bounded record fragment; allocation links are independent of keys.
    pub fn group_record(
        block: u32,
        id: SegmentId,
        kind: GroupPageKind,
        key: [u64; 2],
        total: u32,
        offset: u32,
        bytes: &[u8],
    ) -> (result: Result<Self>)
        ensures
            match group_record_image(block, id, kind, key@, total, offset, bytes@) {
                Ok(image) => result matches Ok(page) && page@ == image,
                Err(error) => result matches Err(e) && e == error,
            },
    {
        let mut page: Page = Page::new_grouped(block, id, kind)?;
        if bytes.len() > GROUP_DATA_BYTES {
            return Err(Error::Limit("group fragment"));
        }
        let field: [u8; 8] = u64_array(key[0]);
        page.extend(&field);
        let field: [u8; 8] = u64_array(key[1]);
        page.extend(&field);
        let field: [u8; 4] = u32_array(total);
        page.extend(&field);
        let field: [u8; 4] = u32_array(offset);
        page.extend(&field);
        page.extend(bytes);
        page.group_data()?;
        Ok(page)
    }

    pub fn group_node_info(&self) -> (result: Result<(u8, u16)>)
        ensures
            result == self@.group_node_info(),
    {
        let (_, kind): (SegmentId, GroupPageKind) = self.group_identity()?;
        let bytes: &[u8] = self.bytes();
        if bytes.len() <= GROUP_HEADER {
            return Err(Error::InvalidState);
        }
        let level: u8 = bytes[GROUP_HEADER];
        let count: u16 = self.u16(GROUP_HEADER + 2)?;
        if level > MAX_CATALOG_LEVEL || count == 0 || count as usize > CATALOG_ENTRIES
            || bytes[GROUP_HEADER + 1] != 0 {
            return Err(Error::InvalidState);
        }
        let expected: GroupPageKind = if level == 0 {
            GroupPageKind::Leaf
        } else {
            GroupPageKind::Branch
        };
        if self.u32(GROUP_HEADER + 4)? != 0 || bytes.len() != NODE_HEADER + count as usize
            * ENTRY_BYTES || kind != expected {
            return Err(Error::InvalidState);
        }
        Ok((level, count))
    }

    pub fn group_node_view(&self) -> (result: Result<GroupNode<'_>>)
        ensures
            match self@.group_node_info() {
                Ok((level, count)) => result matches Ok(node) && node.level == level && node.count
                    == count && node.wf() && node.entries() == self@.node_entries(),
                Err(error) => result matches Err(e) && e == error,
            },
    {
        let (level, count): (u8, u16) = self.group_node_info()?;
        let bytes: &[u8] = self.bytes();
        Ok(GroupNode { bytes: &bytes[NODE_HEADER..bytes.len()], level, count })
    }

    pub fn group_entry(&self, index: u16) -> (result: Result<CatalogEntry>)
        ensures
            match self@.group_node_info() {
                Ok((level, count)) => if index >= count {
                    result matches Err(e) && e == Error::InvalidParameters
                } else {
                    result matches Ok(entry) && entry@ == entry_at(
                        self@.node_entries(),
                        index as int,
                    )
                },
                Err(error) => result matches Err(e) && e == error,
            },
    {
        let node: GroupNode<'_> = self.group_node_view()?;
        node.entry(index)
    }

    #[verifier::loop_isolation(false)]
    fn validate_group_node(&self) -> (result: Result<()>)
        ensures
            result == self@.check_group_node(),
    {
        let node: GroupNode<'_> = self.group_node_view()?;
        let count: u16 = node.count;
        let level: u8 = node.level;
        let mut index: u16 = 0;
        let mut previous: [u64; 2] = [0, 0];
        while index < count
            invariant
                index <= count,
                index > 0 ==> previous@ == entry_key(self@.node_entries(), index - 1),
                forall|i: int| 0 <= i < index ==> #[trigger] self@.node_entry_valid(level, i),
            decreases count - index,
        {
            let entry: CatalogEntry = node.entry(index)?;
            let key: [u64; 2] = entry.key;
            if !valid_key(key) || (index > 0 && !key_less(previous, key)) {
                assert(!self@.node_entry_valid(level, index as int));
                return Err(Error::InvalidState);
            }
            if level != 0 {
                let value: [u8; 64] = entry.value;
                let child: u32 = get_u32(&value, 0);
                let rest: &[u8] = &value[4..64];
                assert(rest@ =~= entry@.value.skip(4));
                if !block_valid(child) || child == self.block() || !is_zero(rest) {
                    assert(!self@.node_entry_valid(level, index as int));
                    return Err(Error::InvalidState);
                }
            }
            assert(self@.node_entry_valid(level, index as int));
            previous = key;
            index += 1;
        }
        Ok(())
    }

    #[verifier::loop_isolation(false)]
    pub fn group_node(block: u32, id: SegmentId, level: u8, entries: &[CatalogEntry]) -> (result:
        Result<Self>)
        ensures
            match group_node_image(block, id, level, entries@) {
                Ok(image) => result matches Ok(page) && page@ == image,
                Err(error) => result matches Err(e) && e == error,
            },
    {
        let count: usize = entries.len();
        if level > MAX_CATALOG_LEVEL || count == 0 || count > CATALOG_ENTRIES {
            return Err(Error::Limit("group catalog node"));
        }
        let kind: GroupPageKind = if level == 0 {
            GroupPageKind::Leaf
        } else {
            GroupPageKind::Branch
        };
        let mut page: Page = Page::new_grouped(block, id, kind)?;
        let first: [u8; 1] = [level];
        assert(first@ =~= seq![level]);
        page.extend(&first);
        let second: [u8; 1] = [0];
        assert(second@ =~= seq![0u8]);
        page.extend(&second);
        let number: [u8; 2] = u16_array(count as u16);
        page.extend(&number);
        let reserved: [u8; 4] = u32_array(0);
        page.extend(&reserved);
        let ghost start = page@;
        let mut i: usize = 0;
        assert(entries@.take(0) =~= Seq::empty());
        assert(start.bytes + entries_code(entries@.take(0)) =~= start.bytes);
        while i < count
            invariant
                i <= count,
                entries_code(entries@.take(i as int)).len() == i * 80,
                page@ == (Image {
                    bytes: start.bytes + entries_code(entries@.take(i as int)),
                    ..start
                }),
            decreases count - i,
        {
            let entry: CatalogEntry = entries[i];
            let field: [u8; 8] = u64_array(entry.key[0]);
            page.extend(&field);
            let field: [u8; 8] = u64_array(entry.key[1]);
            page.extend(&field);
            page.extend(&entry.value);
            i += 1;
            proof {
                assert(entries@.take(i as int).drop_last() =~= entries@.take(i - 1));
                assert(page@.bytes =~= start.bytes + entries_code(entries@.take(i as int)));
            }
        }
        assert(entries@.take(i as int) =~= entries@);
        page.validate_group_node()?;
        Ok(page)
    }

    pub(crate) fn validate_grouped(&self) -> (result: Result<()>)
        ensures
            result == self@.check_grouped(),
    {
        let (_, kind): (SegmentId, GroupPageKind) = self.group_identity()?;
        match kind {
            GroupPageKind::Leaf => self.validate_group_node(),
            GroupPageKind::Branch => self.validate_group_node(),
            _ => {
                self.group_data()?;
                Ok(())
            },
        }
    }
}

/// The fragment page of a grouped record, or why it is refused.
pub open spec fn group_record_image(
    block: u32,
    id: SegmentId,
    kind: GroupPageKind,
    key: Seq<u64>,
    total: u32,
    offset: u32,
    bytes: Seq<u8>,
) -> Result<Image> {
    match grouped_image(block, id, kind) {
        Err(error) => Err(error),
        Ok(start) => if bytes.len() > GROUP_DATA_BYTES {
            Err(Error::Limit("group fragment"))
        } else {
            let image = Image {
                bytes: start.bytes + u64_bytes(key[0]) + u64_bytes(key[1]) + u32_bytes(total)
                    + u32_bytes(offset) + bytes,
                ..start
            };
            match image.group_data() {
                Err(error) => Err(error),
                Ok(_) => Ok(image),
            }
        },
    }
}

/// The page of a catalog node, or why it is refused.
pub open spec fn group_node_image(
    block: u32,
    id: SegmentId,
    level: u8,
    entries: Seq<CatalogEntry>,
) -> Result<Image> {
    if level > MAX_CATALOG_LEVEL || entries.len() == 0 || entries.len() > CATALOG_ENTRIES {
        Err(Error::Limit("group catalog node"))
    } else {
        match grouped_image(
            block,
            id,
            if level == 0 {
                GroupPageKind::Leaf
            } else {
                GroupPageKind::Branch
            },
        ) {
            Err(error) => Err(error),
            Ok(start) => {
                let image = Image {
                    bytes: start.bytes + seq![level] + seq![0u8] + u16_bytes(entries.len() as u16)
                        + u32_bytes(0) + entries_code(entries),
                    ..start
                };
                match image.check_group_node() {
                    Err(error) => Err(error),
                    Ok(_) => Ok(image),
                }
            },
        }
    }
}

pub(crate) fn valid_key(key: [u64; 2]) -> (valid: bool)
    ensures
        valid == is_catalog_key(key@),
{
    key[1] <= (u32::MAX - 255) as u64 && key[1] % 256 == 0 && (key[0] == 0 || (key[0] / 0x1_0000 > 0
        && key[0] / 0x1_0000 < NO_BLOCK as u64 && key[0] % 0x1_0000 >= 16 && key[0] % 0x1_0000
        < CAPACITY as u64))
}

pub(crate) fn key_less(left: [u64; 2], right: [u64; 2]) -> (less: bool)
    ensures
        less == key_before(left@, right@),
{
    left[0] < right[0] || (left[0] == right[0] && left[1] < right[1])
}

/// Borrows only a checked private page image, never a host buffer.
pub struct GroupNode<'a> {
    pub bytes: &'a [u8],
    pub level: u8,
    pub count: u16,
}

impl<'a> GroupNode<'a> {
    /// The bytes of the entries.
    pub open spec fn entries(self) -> Seq<u8> {
        self.bytes@
    }

    /// The entries fill the borrowed bytes.
    pub open spec fn wf(self) -> bool {
        self.bytes@.len() == self.count * 80
    }

    pub fn key(&self, index: u16) -> (result: Result<[u64; 2]>)
        requires
            self.wf(),
        ensures
            if index >= self.count {
                result matches Err(e) && e == Error::InvalidParameters
            } else {
                result matches Ok(key) && key@ == entry_key(self.entries(), index as int)
            },
    {
        if index >= self.count {
            return Err(Error::InvalidParameters);
        }
        let start: usize = index as usize * ENTRY_BYTES;
        let key: [u64; 2] = [get_u64(self.bytes, start), get_u64(self.bytes, start + 8)];
        assert(key@ =~= entry_key(self.entries(), index as int));
        Ok(key)
    }

    #[verifier::loop_isolation(false)]
    pub fn entry(&self, index: u16) -> (result: Result<CatalogEntry>)
        requires
            self.wf(),
        ensures
            if index >= self.count {
                result matches Err(e) && e == Error::InvalidParameters
            } else {
                result matches Ok(entry) && entry@ == entry_at(self.entries(), index as int)
            },
    {
        let key: [u64; 2] = self.key(index)?;
        let start: usize = index as usize * ENTRY_BYTES + 16;
        let mut value: [u8; 64] = [0u8; 64];
        let mut i: usize = 0;
        while i < 64
            invariant
                i <= 64,
                forall|j: int| 0 <= j < i ==> value@[j] == self.bytes@[start + j],
            decreases 64 - i,
        {
            value[i] = self.bytes[start + i];
            i += 1;
        }
        assert(value@ =~= entry_at(self.entries(), index as int).value);
        Ok(CatalogEntry { key, value })
    }
}

impl Default for CatalogEntry {
    fn default() -> (entry: Self)
        ensures
            entry@ == (EntryModel { key: seq![0u64, 0u64], value: zeros(64) }),
    {
        let entry: CatalogEntry = CatalogEntry { key: [0, 0], value: [0u8; 64] };
        assert(entry@ =~= (EntryModel { key: seq![0u64, 0u64], value: zeros(64) }));
        entry
    }
}

} // verus!
