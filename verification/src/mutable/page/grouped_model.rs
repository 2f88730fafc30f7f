//! What grouped records, catalog nodes and grouped metadata mean.

use super::model::{
    corrupted, cut_short, field_u64, fresh_image, is_block, is_posting_pair, owner_ref_at, Image,
    OwnerRef, PageKind, RewritePhase, CAPACITY, NO_BLOCK,
};
use crate::codec::bytes::{le_u16, le_u32, le_u64, u16_bytes, u32_bytes, u64_bytes};
use crate::error::{Error, Result};
use crate::identity::SegmentId;
use vstd::prelude::*;

verus! {

/// The size of metadata without grouped state.
pub const META_LEGACY_BYTES: usize = 4160;

/// The size of metadata with a single snapshot.
pub const META_GROUPED_BYTES: usize = 4232;

/// The size of metadata with deltas and retired segments.
pub const META_GROUPED_V3_BYTES: usize = 5664;

pub const GROUP_DELTA_SEGMENTS: usize = 16;

pub const GROUP_RETIRED_SEGMENTS: usize = 17;

pub const GROUP_HEADER: usize = 32;

pub const DATA_HEADER: usize = 56;

pub const NODE_HEADER: usize = 40;

pub const ENTRY_BYTES: usize = 80;

pub const GROUP_DATA_BYTES: usize = 8112;

pub const CATALOG_ENTRIES: usize = 101;

pub const MAX_CATALOG_LEVEL: u8 = 7;

#[derive(Clone, Copy, Debug, Eq, PartialEq, Structural)]
pub struct GroupSnapshot {
    pub id: SegmentId,
    pub head: u32,
    pub tail: u32,
    pub root: u32,
    pub after: Option<OwnerRef>,
    /// A separate catalog in the same allocation journal; none is the first format.
    pub frontier_root: Option<u32>,
    /// Cleared durably before any canonical posting-chain rewrite.
    pub frontier_valid: bool,
}

#[derive(Clone, Copy, Debug, Eq, PartialEq, Structural)]
pub struct GroupJournal {
    pub id: SegmentId,
    pub head: u32,
    pub tail: u32,
    pub phase: RewritePhase,
}

#[derive(Clone, Copy, Debug, Eq, PartialEq, Structural)]
pub struct GroupDelta {
    pub snapshot: GroupSnapshot,
    pub before: Option<OwnerRef>,
    pub level: u8,
}

#[derive(Clone, Copy, Debug, Eq, PartialEq, Structural)]
pub struct GroupRetired {
    pub id: SegmentId,
    pub head: u32,
    pub tail: u32,
}

#[derive(Clone, Copy, Debug, Eq, PartialEq)]
pub struct GroupState {
    pub active: Option<GroupSnapshot>,
    pub journal: Option<GroupJournal>,
    pub deltas: [Option<GroupDelta>; GROUP_DELTA_SEGMENTS],
    pub retired: [Option<GroupRetired>; GROUP_RETIRED_SEGMENTS],
}

#[derive(Clone, Copy, Debug, Eq, PartialEq, Structural)]
pub enum GroupPageKind {
    Members,
    Liveness,
    Posting,
    Leaf,
    Branch,
}

/// Fixed-width catalog keys sort by term identity, then heap group base.
#[derive(Clone, Copy, Debug, Eq, PartialEq)]
pub struct CatalogEntry {
    pub key: [u64; 2],
    pub value: [u8; 64],
}

/// Borrows only a checked private page image, never a host buffer.
pub struct GroupData<'a> {
    pub id: SegmentId,
    pub kind: GroupPageKind,
    pub key: [u64; 2],
    pub total: u32,
    pub offset: u32,
    pub bytes: &'a [u8],
}

/// Grouped state with its tables as sequences.
#[verifier::ext_equal]
pub struct GroupModel {
    pub active: Option<GroupSnapshot>,
    pub journal: Option<GroupJournal>,
    pub deltas: Seq<Option<GroupDelta>>,
    pub retired: Seq<Option<GroupRetired>>,
}

impl View for GroupState {
    type V = GroupModel;

    open spec fn view(&self) -> GroupModel {
        GroupModel {
            active: self.active,
            journal: self.journal,
            deltas: self.deltas@,
            retired: self.retired@,
        }
    }
}

/// A catalog entry with its parts as sequences.
#[verifier::ext_equal]
pub struct EntryModel {
    pub key: Seq<u64>,
    pub value: Seq<u8>,
}

impl View for CatalogEntry {
    type V = EntryModel;

    open spec fn view(&self) -> EntryModel {
        EntryModel { key: self.key@, value: self.value@ }
    }
}

/// One fragment of a grouped record.
#[verifier::ext_equal]
pub struct GroupDataModel {
    pub id: SegmentId,
    pub kind: GroupPageKind,
    pub key: Seq<u64>,
    pub total: u32,
    pub offset: u32,
    pub bytes: Seq<u8>,
}

impl<'a> View for GroupData<'a> {
    type V = GroupDataModel;

    open spec fn view(&self) -> GroupDataModel {
        GroupDataModel {
            id: self.id,
            kind: self.kind,
            key: self.key@,
            total: self.total,
            offset: self.offset,
            bytes: self.bytes@,
        }
    }
}

impl GroupPageKind {
    /// The stored tag.
    pub open spec fn spec_tag(self) -> u8 {
        match self {
            GroupPageKind::Members => 1,
            GroupPageKind::Liveness => 2,
            GroupPageKind::Posting => 3,
            GroupPageKind::Leaf => 4,
            GroupPageKind::Branch => 5,
        }
    }

    /// The kind with the given tag.
    pub open spec fn spec_of_tag(tag: u8) -> Option<GroupPageKind> {
        if tag == 1 {
            Some(GroupPageKind::Members)
        } else if tag == 2 {
            Some(GroupPageKind::Liveness)
        } else if tag == 3 {
            Some(GroupPageKind::Posting)
        } else if tag == 4 {
            Some(GroupPageKind::Leaf)
        } else if tag == 5 {
            Some(GroupPageKind::Branch)
        } else {
            None
        }
    }
}

/// `count` zero bytes.
pub open spec fn zeros(count: nat) -> Seq<u8> {
    Seq::new(count, |i: int| 0u8)
}

impl GroupSnapshot {
    /// Whether the snapshot's blocks, catalogs and fence agree with each other.
    pub open spec fn valid(self, allow_frontier: bool) -> bool {
        &&& is_posting_pair(self.head, self.tail)
        &&& (self.head == NO_BLOCK) == (self.root == NO_BLOCK && (self.frontier_root is None
            || self.frontier_root == Some(NO_BLOCK)))
        &&& self.frontier_root is Some ==> allow_frontier
        &&& self.frontier_root is None ==> self.root == self.tail
        &&& self.root == NO_BLOCK || is_block(self.root)
        &&& self.frontier_root matches Some(root) ==> root == NO_BLOCK || (is_block(root) && root
            != self.root)
        &&& self.frontier_valid ==> self.frontier_root is Some
        &&& self.after matches Some(owner) ==> owner.incarnation.get() < self.id.get()
    }
}

impl GroupModel {
    /// No grouped state at all.
    pub open spec fn none() -> GroupModel {
        GroupModel {
            active: None,
            journal: None,
            deltas: Seq::new(16, |i: int| None),
            retired: Seq::new(17, |i: int| None),
        }
    }

    /// The snapshot that the delta at `index` continues.
    pub open spec fn base(self, index: int) -> GroupSnapshot {
        if index == 0 {
            self.active->Some_0
        } else {
            self.deltas[index - 1]->Some_0.snapshot
        }
    }

    /// Whether the delta at `index` continues its predecessor.
    pub open spec fn delta_valid(self, index: int) -> bool {
        let delta = self.deltas[index]->Some_0;
        let base = self.base(index);
        &&& self.active is Some
        &&& index > 0 ==> self.deltas[index - 1] is Some
        &&& delta.snapshot.valid(false)
        &&& !delta.snapshot.frontier_valid
        &&& delta.level < 16
        &&& index > 0 ==> self.deltas[index - 1]->Some_0.level > delta.level
        &&& delta.before == base.after
        &&& delta.snapshot.after is Some
        &&& delta.snapshot.after != delta.before
        &&& delta.before matches Some(before) ==> before.incarnation.get()
            < delta.snapshot.after->Some_0.incarnation.get()
        &&& base.id.get() < delta.snapshot.id.get()
    }

    /// The last delta below `count`, if any.
    pub open spec fn last_delta(self, count: nat) -> Option<GroupDelta>
        decreases count,
    {
        if count == 0 {
            None
        } else if self.deltas[count - 1] is Some {
            self.deltas[count - 1]
        } else {
            self.last_delta((count - 1) as nat)
        }
    }

    /// The newest snapshot: that of the last delta, else the active one.
    pub open spec fn spec_latest(self) -> Option<GroupSnapshot> {
        match self.last_delta(16) {
            Some(delta) => Some(delta.snapshot),
            None => self.active,
        }
    }

    /// The number of deltas below `count`.
    pub open spec fn deltas_below(self, count: nat) -> nat
        decreases count,
    {
        if count == 0 {
            0
        } else {
            self.deltas_below((count - 1) as nat) + if self.deltas[count - 1] is Some {
                1nat
            } else {
                0
            }
        }
    }

    pub open spec fn has_deltas(self) -> bool {
        exists|i: int| 0 <= i < 16 && (#[trigger] self.deltas[i]) is Some
    }

    pub open spec fn has_retired(self) -> bool {
        exists|i: int| 0 <= i < 17 && (#[trigger] self.retired[i]) is Some
    }

    /// Whether the journal is consistent with what is active.
    pub open spec fn journal_valid(self) -> bool {
        self.journal matches Some(journal) ==> {
            &&& is_posting_pair(journal.head, journal.tail)
            &&& match journal.phase {
                RewritePhase::Building => self.spec_latest() matches Some(latest) ==> latest.id.get()
                    < journal.id.get(),
                RewritePhase::Retiring => {
                    &&& !self.has_deltas()
                    &&& !self.has_retired()
                    &&& journal.head != NO_BLOCK
                    &&& self.active is Some
                    &&& journal.id.get() < self.active->Some_0.id.get()
                },
            }
        }
    }

    /// Whether the retired segment at `index` is apart from everything in use.
    pub open spec fn retired_valid(self, index: int) -> bool {
        let retired = self.retired[index]->Some_0;
        &&& index > 0 ==> self.retired[index - 1] is Some
        &&& retired.head != NO_BLOCK
        &&& is_posting_pair(retired.head, retired.tail)
        &&& self.active matches Some(active) ==> active.id != retired.id
        &&& forall|i: int|
            0 <= i < 16 && (#[trigger] self.deltas[i]) is Some
                ==> self.deltas[i]->Some_0.snapshot.id != retired.id
        &&& self.journal matches Some(journal) ==> journal.id != retired.id
    }

    /// Whether snapshots, deltas, journal and retired segments are consistent.
    pub open spec fn valid(self) -> bool {
        &&& self.active matches Some(active) ==> active.valid(true)
        &&& forall|i: int|
            0 <= i < 16 && (#[trigger] self.deltas[i]) is Some ==> self.delta_valid(i)
        &&& self.journal_valid()
        &&& forall|i: int|
            0 <= i < 17 && (#[trigger] self.retired[i]) is Some ==> self.retired_valid(i)
    }

    /// Whether every segment number was handed out before `next`.
    pub open spec fn before(self, next: u64) -> bool {
        &&& self.active matches Some(active) ==> active.id.get() < next
        &&& forall|i: int|
            0 <= i < 16 && (#[trigger] self.deltas[i]) is Some
                ==> self.deltas[i]->Some_0.snapshot.id.get() < next
        &&& self.journal matches Some(journal) ==> journal.id.get() < next
        &&& forall|i: int|
            0 <= i < 17 && (#[trigger] self.retired[i]) is Some
                ==> self.retired[i]->Some_0.id.get() < next
    }
}

/// The optional owner reference in the sixteen bytes at `at`: zeros for none.
pub open spec fn owner_slot_at(bytes: Seq<u8>, at: int) -> Result<Option<OwnerRef>> {
    let slot = bytes.subrange(at, at + 16);
    if slot == zeros(16) {
        Ok(None)
    } else {
        match owner_ref_at(slot, 0) {
            Err(error) => Err(error),
            Ok(owner) => Ok(Some(owner)),
        }
    }
}

/// The optional snapshot at `at`.
pub open spec fn snapshot_at(bytes: Seq<u8>, at: int) -> Result<Option<GroupSnapshot>> {
    let id = le_u64(bytes, at);
    let head = le_u32(bytes, at + 8);
    let tail = le_u32(bytes, at + 12);
    let root = le_u32(bytes, at + 16);
    let frontier = le_u32(bytes, at + 20);
    let flags = le_u32(bytes, at + 24);
    if le_u32(bytes, at + 28) != 0 || flags > 1 {
        Err(Error::InvalidState)
    } else {
        match owner_slot_at(bytes, at + 32) {
            Err(error) => Err(error),
            Ok(after) => if id == 0 {
                if head != NO_BLOCK || tail != NO_BLOCK || root != NO_BLOCK || frontier != 0
                    || flags != 0 || after is Some {
                    Err(Error::InvalidState)
                } else {
                    Ok(None)
                }
            } else {
                Ok(
                    Some(
                        GroupSnapshot {
                            id: SegmentId::of(id),
                            head,
                            tail,
                            root,
                            after,
                            frontier_root: if frontier != 0 {
                                Some(frontier)
                            } else {
                                None
                            },
                            frontier_valid: flags == 1,
                        },
                    ),
                )
            },
        }
    }
}

/// The optional journal at `at`.
pub open spec fn group_journal_at(bytes: Seq<u8>, at: int) -> Result<Option<GroupJournal>> {
    let id = le_u64(bytes, at);
    let head = le_u32(bytes, at + 8);
    let tail = le_u32(bytes, at + 12);
    let phase = le_u32(bytes, at + 16);
    if le_u32(bytes, at + 20) != 0 {
        Err(Error::InvalidState)
    } else if id == 0 {
        if head != NO_BLOCK || tail != NO_BLOCK || phase != 0 {
            Err(Error::InvalidState)
        } else {
            Ok(None)
        }
    } else if phase != 1 && phase != 2 {
        Err(Error::InvalidState)
    } else {
        Ok(
            Some(
                GroupJournal {
                    id: SegmentId::of(id),
                    head,
                    tail,
                    phase: if phase == 1 {
                        RewritePhase::Building
                    } else {
                        RewritePhase::Retiring
                    },
                },
            ),
        )
    }
}

/// The optional delta at `at`.
pub open spec fn group_delta_at(bytes: Seq<u8>, at: int) -> Result<Option<GroupDelta>> {
    match snapshot_at(bytes, at) {
        Err(error) => Err(error),
        Ok(snapshot) => match owner_slot_at(bytes, at + 48) {
            Err(error) => Err(error),
            Ok(before) => {
                let level = bytes[at + 64];
                if bytes.subrange(at + 65, at + 72) != zeros(7) {
                    Err(Error::InvalidState)
                } else {
                    match snapshot {
                        None => if before is Some || level != 0 {
                            Err(Error::InvalidState)
                        } else {
                            Ok(None)
                        },
                        Some(snapshot) => Ok(Some(GroupDelta { snapshot, before, level })),
                    }
                }
            },
        },
    }
}

/// The first `count` deltas.
pub open spec fn group_deltas(bytes: Seq<u8>, count: nat) -> Result<Seq<Option<GroupDelta>>>
    decreases count,
{
    if count == 0 {
        Ok(Seq::empty())
    } else {
        match group_deltas(bytes, (count - 1) as nat) {
            Err(error) => Err(error),
            Ok(deltas) => match group_delta_at(bytes, 80 + (count - 1) * 72) {
                Err(error) => Err(error),
                Ok(delta) => Ok(deltas.push(delta)),
            },
        }
    }
}

/// The optional retired segment at `at`.
pub open spec fn group_retired_at(bytes: Seq<u8>, at: int) -> Result<Option<GroupRetired>> {
    let id = le_u64(bytes, at);
    let head = le_u32(bytes, at + 8);
    let tail = le_u32(bytes, at + 12);
    if id == 0 {
        if head != NO_BLOCK || tail != NO_BLOCK {
            Err(Error::InvalidState)
        } else {
            Ok(None)
        }
    } else {
        Ok(Some(GroupRetired { id: SegmentId::of(id), head, tail }))
    }
}

/// The first `count` retired segments.
pub open spec fn group_retirees(bytes: Seq<u8>, count: nat) -> Result<Seq<Option<GroupRetired>>>
    decreases count,
{
    if count == 0 {
        Ok(Seq::empty())
    } else {
        match group_retirees(bytes, (count - 1) as nat) {
            Err(error) => Err(error),
            Ok(retired) => match group_retired_at(bytes, 1232 + (count - 1) * 16) {
                Err(error) => Err(error),
                Ok(one) => Ok(retired.push(one)),
            },
        }
    }
}

/// The four bytes that start state with one snapshot.
pub open spec fn single_magic() -> Seq<u8> {
    seq![0x50u8, 0x47u8, 0x30u8, 0x39u8]
}

/// The four bytes that start state with deltas.
pub open spec fn delta_magic() -> Seq<u8> {
    seq![0x50u8, 0x47u8, 0x31u8, 0x30u8]
}

/// State with one snapshot, from its 72 bytes.
pub open spec fn single_state(bytes: Seq<u8>) -> Result<GroupModel> {
    let version = le_u16(bytes, 4);
    let flags = le_u16(bytes, 6);
    let id = le_u64(bytes, 8);
    let head = le_u32(bytes, 16);
    let tail = le_u32(bytes, 20);
    let root = le_u32(bytes, 24);
    let frontier = le_u32(bytes, 28);
    if bytes.take(4) != single_magic() {
        Err(Error::InvalidState)
    } else if !((version == 1 && flags == 0) || (version == 2 && flags <= 1)) {
        Err(Error::InvalidState)
    } else if version == 1 && frontier != 0 {
        Err(Error::InvalidState)
    } else {
        match owner_slot_at(bytes, 32) {
            Err(error) => Err(error),
            Ok(after) => if id == 0 && (head != NO_BLOCK || tail != NO_BLOCK || root != NO_BLOCK
                || after is Some || version != 1) {
                Err(Error::InvalidState)
            } else {
                match group_journal_at(bytes, 48) {
                    Err(error) => Err(error),
                    Ok(journal) => Ok(
                        GroupModel {
                            active: if id == 0 {
                                None
                            } else {
                                Some(
                                    GroupSnapshot {
                                        id: SegmentId::of(id),
                                        head,
                                        tail,
                                        root,
                                        after,
                                        frontier_root: if version == 2 {
                                            Some(frontier)
                                        } else {
                                            None
                                        },
                                        frontier_valid: flags == 1,
                                    },
                                )
                            },
                            journal,
                            ..GroupModel::none()
                        },
                    ),
                }
            },
        }
    }
}

/// State with deltas and retired segments, from its 1504 bytes.
pub open spec fn delta_state(bytes: Seq<u8>) -> Result<GroupModel> {
    if bytes.take(4) != delta_magic() || le_u16(bytes, 4) != 1 || le_u16(bytes, 6) != 0 {
        Err(Error::InvalidState)
    } else {
        match snapshot_at(bytes, 8) {
            Err(error) => Err(error),
            Ok(active) => match group_journal_at(bytes, 56) {
                Err(error) => Err(error),
                Ok(journal) => match group_deltas(bytes, 16) {
                    Err(error) => Err(error),
                    Ok(deltas) => match group_retirees(bytes, 17) {
                        Err(error) => Err(error),
                        Ok(retired) => Ok(GroupModel { active, journal, deltas, retired }),
                    },
                },
            },
        }
    }
}

/// The stored form of an optional owner reference.
pub open spec fn owner_slot_code(owner: Option<OwnerRef>) -> Seq<u8> {
    match owner {
        Some(owner) => owner.code(),
        None => zeros(16),
    }
}

/// The stored form of an optional snapshot.
pub open spec fn snapshot_code(snapshot: Option<GroupSnapshot>) -> Seq<u8> {
    match snapshot {
        Some(snapshot) => u64_bytes(snapshot.id.get()) + u32_bytes(snapshot.head) + u32_bytes(
            snapshot.tail,
        ) + u32_bytes(snapshot.root) + u32_bytes(
            match snapshot.frontier_root {
                Some(root) => root,
                None => 0,
            },
        ) + u32_bytes(
            if snapshot.frontier_valid {
                1
            } else {
                0
            },
        ) + u32_bytes(0) + owner_slot_code(snapshot.after),
        None => u64_bytes(0) + u32_bytes(NO_BLOCK) + u32_bytes(NO_BLOCK) + u32_bytes(NO_BLOCK)
            + u32_bytes(0) + u32_bytes(0) + u32_bytes(0) + zeros(16),
    }
}

/// The stored form of an optional journal.
pub open spec fn group_journal_code(journal: Option<GroupJournal>) -> Seq<u8> {
    match journal {
        Some(journal) => u64_bytes(journal.id.get()) + u32_bytes(journal.head) + u32_bytes(
            journal.tail,
        ) + u32_bytes(
            match journal.phase {
                RewritePhase::Building => 1,
                RewritePhase::Retiring => 2,
            },
        ) + u32_bytes(0),
        None => u64_bytes(0) + u32_bytes(NO_BLOCK) + u32_bytes(NO_BLOCK) + u32_bytes(0) + u32_bytes(
            0,
        ),
    }
}

/// The stored form of an optional delta.
pub open spec fn group_delta_code(delta: Option<GroupDelta>) -> Seq<u8> {
    match delta {
        Some(delta) => snapshot_code(Some(delta.snapshot)) + owner_slot_code(delta.before)
            + seq![delta.level] + zeros(7),
        None => snapshot_code(None) + zeros(16) + seq![0u8] + zeros(7),
    }
}

/// The stored form of all deltas.
pub open spec fn group_deltas_code(deltas: Seq<Option<GroupDelta>>) -> Seq<u8>
    decreases deltas.len(),
{
    if deltas.len() == 0 {
        Seq::empty()
    } else {
        group_deltas_code(deltas.drop_last()) + group_delta_code(deltas.last())
    }
}

/// The stored form of an optional retired segment.
pub open spec fn group_retired_code(retired: Option<GroupRetired>) -> Seq<u8> {
    match retired {
        Some(retired) => u64_bytes(retired.id.get()) + u32_bytes(retired.head) + u32_bytes(
            retired.tail,
        ),
        None => u64_bytes(0) + u32_bytes(NO_BLOCK) + u32_bytes(NO_BLOCK),
    }
}

/// The stored form of all retired segments.
pub open spec fn group_retirees_code(retired: Seq<Option<GroupRetired>>) -> Seq<u8>
    decreases retired.len(),
{
    if retired.len() == 0 {
        Seq::empty()
    } else {
        group_retirees_code(retired.drop_last()) + group_retired_code(retired.last())
    }
}

/// State without deltas or retired segments, in its short form.
pub open spec fn single_code(state: GroupModel) -> Seq<u8> {
    let frontier = match state.active {
        Some(active) => active.frontier_root,
        None => None,
    };
    single_magic() + u16_bytes(
        if frontier is Some {
            2
        } else {
            1
        },
    ) + u16_bytes(
        if state.active matches Some(active) && active.frontier_valid {
            1
        } else {
            0
        },
    ) + match state.active {
        Some(active) => u64_bytes(active.id.get()) + u32_bytes(active.head) + u32_bytes(active.tail)
            + u32_bytes(active.root) + u32_bytes(
            match active.frontier_root {
                Some(root) => root,
                None => 0,
            },
        ) + owner_slot_code(active.after),
        None => u64_bytes(0) + u32_bytes(NO_BLOCK) + u32_bytes(NO_BLOCK) + u32_bytes(NO_BLOCK)
            + u32_bytes(0) + zeros(16),
    } + group_journal_code(state.journal)
}

/// State in its long form.
pub open spec fn delta_state_code(state: GroupModel) -> Seq<u8> {
    delta_magic() + u16_bytes(1) + u16_bytes(0) + snapshot_code(state.active) + group_journal_code(
        state.journal,
    ) + group_deltas_code(state.deltas) + group_retirees_code(state.retired)
}

/// Where the first owner reference that cannot be stored would stand, among
/// the first `count` deltas.
pub open spec fn unstorable_delta(deltas: Seq<Option<GroupDelta>>, count: nat) -> Option<int>
    decreases count,
{
    if count == 0 {
        None
    } else if unstorable_delta(deltas, (count - 1) as nat) is Some {
        unstorable_delta(deltas, (count - 1) as nat)
    } else {
        let at = 80 + (count - 1) * 72;
        match deltas[count - 1] {
            None => None,
            Some(delta) => if delta.snapshot.after matches Some(owner) && !owner.valid() {
                Some(at + 32)
            } else if delta.before matches Some(owner) && !owner.valid() {
                Some(at + 48)
            } else {
                None
            },
        }
    }
}

/// The stored form of valid state, or where an owner reference cannot be stored.
pub open spec fn state_code(state: GroupModel) -> Result<Seq<u8>> {
    let fence = match state.active {
        Some(active) => active.after,
        None => None,
    };
    if !state.has_deltas() && !state.has_retired() {
        if fence matches Some(owner) && !owner.valid() {
            Err(corrupted(32))
        } else {
            Ok(single_code(state))
        }
    } else if fence matches Some(owner) && !owner.valid() {
        Err(corrupted(40))
    } else if unstorable_delta(state.deltas, 16) is Some {
        Err(corrupted(unstorable_delta(state.deltas, 16)->Some_0))
    } else {
        Ok(delta_state_code(state))
    }
}

/// Whether a catalog key names a heap group, and a dictionary entry unless it is zero.
pub open spec fn is_catalog_key(key: Seq<u64>) -> bool {
    &&& key[1] <= u32::MAX - 255
    &&& key[1] % 256 == 0
    &&& key[0] == 0 || (0 < key[0] / 0x1_0000 < NO_BLOCK && 16 <= key[0] % 0x1_0000 < CAPACITY)
}

/// Whether one catalog key sorts before another.
pub open spec fn key_before(left: Seq<u64>, right: Seq<u64>) -> bool {
    left[0] < right[0] || (left[0] == right[0] && left[1] < right[1])
}

/// The key of the entry at `index` of a node's entries.
pub open spec fn entry_key(entries: Seq<u8>, index: int) -> Seq<u64> {
    seq![le_u64(entries, index * 80), le_u64(entries, index * 80 + 8)]
}

/// The entry at `index` of a node's entries.
pub open spec fn entry_at(entries: Seq<u8>, index: int) -> EntryModel {
    EntryModel {
        key: entry_key(entries, index),
        value: entries.subrange(index * 80 + 16, index * 80 + 80),
    }
}

/// The stored form of catalog entries.
pub open spec fn entries_code(entries: Seq<CatalogEntry>) -> Seq<u8>
    decreases entries.len(),
{
    if entries.len() == 0 {
        Seq::empty()
    } else {
        let last = entries.last();
        entries_code(entries.drop_last()) + u64_bytes(last.key@[0]) + u64_bytes(last.key@[1])
            + last.value@
    }
}

/// The start of a grouped page.
pub open spec fn grouped_image(block: u32, id: SegmentId, kind: GroupPageKind) -> Result<Image> {
    match fresh_image(block, PageKind::Grouped) {
        Err(error) => Err(error),
        Ok(image) => Ok(
            Image {
                bytes: image.bytes + seq![0x47u8, 0x39u8, 0x50u8, 0x47u8] + u16_bytes(1)
                    + seq![kind.spec_tag()] + seq![0u8] + u64_bytes(id.get()),
                ..image
            },
        ),
    }
}

impl Image {
    /// Grouped state of metadata.
    pub open spec fn grouped_state(self) -> Result<GroupModel> {
        let tail = self.bytes.subrange(4160, self.bytes.len() as int);
        if self.kind != PageKind::Meta {
            Err(corrupted(6))
        } else if self.bytes.len() == META_LEGACY_BYTES {
            Ok(GroupModel::none())
        } else if self.bytes.len() != META_GROUPED_BYTES && self.bytes.len()
            != META_GROUPED_V3_BYTES {
            Err(Error::InvalidState)
        } else {
            match if self.bytes.len() == META_GROUPED_BYTES {
                single_state(tail)
            } else {
                delta_state(tail)
            } {
                Err(error) => Err(error),
                Ok(state) => if state.valid() && state.before(le_u64(self.bytes, 32)) {
                    Ok(state)
                } else {
                    Err(Error::InvalidState)
                },
            }
        }
    }

    /// The bytes that `set_grouped_state` stores, or why it refuses.
    pub open spec fn stored_state(self, state: GroupModel) -> Result<Seq<u8>> {
        if self.kind != PageKind::Meta {
            Err(corrupted(6))
        } else if !state.valid() {
            Err(Error::InvalidState)
        } else {
            match field_u64(self.bytes, 32) {
                Err(error) => Err(error),
                Ok(next) => if !state.before(next) {
                    Err(Error::InvalidState)
                } else {
                    state_code(state)
                },
            }
        }
    }

    /// How many incarnations were handed out after a snapshot's own number.
    pub open spec fn grouped_delta_span(self, snapshot: GroupSnapshot) -> Result<u64> {
        if self.kind != PageKind::Meta {
            Err(corrupted(6))
        } else {
            match field_u64(self.bytes, 32) {
                Err(error) => Err(error),
                Ok(next) => if next <= snapshot.id.get() {
                    Err(Error::InvalidState)
                } else {
                    Ok((next - snapshot.id.get() - 1) as u64)
                },
            }
        }
    }

    /// The segment and the kind of a grouped page.
    pub open spec fn group_identity(self) -> Result<(SegmentId, GroupPageKind)> {
        let body = self.entries();
        let kind = GroupPageKind::spec_of_tag(body[6]);
        if self.kind != PageKind::Grouped {
            Err(corrupted(6))
        } else if body.len() < 4 {
            Err(cut_short(0))
        } else if body.take(4) != seq![0x47u8, 0x39u8, 0x50u8, 0x47u8] {
            Err(Error::InvalidState)
        } else if body.len() < 6 {
            Err(cut_short(4))
        } else if le_u16(body, 4) != 1 {
            Err(Error::InvalidState)
        } else if body.len() < 7 {
            Err(cut_short(6))
        } else if kind is None {
            Err(Error::InvalidState)
        } else if body.len() < 8 {
            Err(cut_short(7))
        } else if body[7] != 0 {
            Err(Error::InvalidState)
        } else if body.len() < 16 {
            Err(cut_short(8))
        } else if le_u64(body, 8) == 0 {
            Err(Error::InvalidState)
        } else {
            Ok((SegmentId::of(le_u64(body, 8)), kind->Some_0))
        }
    }

    /// The fragment of a grouped record.
    pub open spec fn group_data(self) -> Result<GroupDataModel> {
        match self.group_identity() {
            Err(error) => Err(error),
            Ok((id, kind)) => {
                let len = self.bytes.len();
                let key = seq![le_u64(self.bytes, 32), le_u64(self.bytes, 40)];
                let total = le_u32(self.bytes, 48);
                let offset = le_u32(self.bytes, 52);
                let maximum: int = if kind == GroupPageKind::Members {
                    2_097_224
                } else {
                    17_480
                };
                if kind == GroupPageKind::Leaf || kind == GroupPageKind::Branch {
                    Err(Error::InvalidState)
                } else if len < 40 {
                    Err(cut_short(0))
                } else if len < 48 {
                    Err(cut_short(8))
                } else if len < 52 {
                    Err(cut_short(16))
                } else if len < 56 {
                    Err(cut_short(20))
                } else if !is_catalog_key(key) || (kind == GroupPageKind::Posting) != (key[0] != 0)
                    || total < 72 || total > maximum || offset >= total || offset % 8112 != 0 || len
                    - 56 != (if total - offset <= 8112 {
                    total - offset
                } else {
                    8112
                }) {
                    Err(Error::InvalidState)
                } else {
                    Ok(
                        GroupDataModel {
                            id,
                            kind,
                            key,
                            total,
                            offset,
                            bytes: self.bytes.subrange(56, len as int),
                        },
                    )
                }
            },
        }
    }

    /// The level and the number of entries of a catalog node.
    pub open spec fn group_node_info(self) -> Result<(u8, u16)> {
        match self.group_identity() {
            Err(error) => Err(error),
            Ok((_, kind)) => {
                let len = self.bytes.len();
                let level = self.bytes[32];
                let count = le_u16(self.bytes, 34);
                if len < 33 {
                    Err(Error::InvalidState)
                } else if len < 34 {
                    Err(corrupted(34))
                } else if len < 36 {
                    Err(cut_short(0))
                } else if level > MAX_CATALOG_LEVEL || count == 0 || count > CATALOG_ENTRIES
                    || self.bytes[33] != 0 {
                    Err(Error::InvalidState)
                } else if len < 40 {
                    Err(cut_short(0))
                } else if le_u32(self.bytes, 36) != 0 || len != 40 + count * 80 || kind != (
                if level == 0 {
                    GroupPageKind::Leaf
                } else {
                    GroupPageKind::Branch
                }) {
                    Err(Error::InvalidState)
                } else {
                    Ok((level, count))
                }
            },
        }
    }

    /// The bytes of a catalog node's entries.
    pub open spec fn node_entries(self) -> Seq<u8> {
        self.bytes.subrange(40, self.bytes.len() as int)
    }

    /// Whether entry `index` of a node of the given level has a valid key that
    /// exceeds its predecessor's and, above the leaves, names only a child page.
    pub open spec fn node_entry_valid(self, level: u8, index: int) -> bool {
        let entry = entry_at(self.node_entries(), index);
        let child = le_u32(entry.value, 0);
        &&& is_catalog_key(entry.key)
        &&& index > 0 ==> key_before(entry_key(self.node_entries(), index - 1), entry.key)
        &&& level != 0 ==> is_block(child) && child != self.block && entry.value.skip(4) == zeros(
            60,
        )
    }

    /// Whether every entry of a node is in order.
    pub open spec fn node_entries_valid(self, level: u8, count: u16) -> bool {
        forall|i: int| 0 <= i < count ==> #[trigger] self.node_entry_valid(level, i)
    }

    /// Whether a catalog node is in order.
    pub open spec fn check_group_node(self) -> Result<()> {
        match self.group_node_info() {
            Err(error) => Err(error),
            Ok((level, count)) => if self.node_entries_valid(level, count) {
                Ok(())
            } else {
                Err(Error::InvalidState)
            },
        }
    }

    /// Whether a grouped page is in order.
    pub open spec fn check_grouped(self) -> Result<()> {
        match self.group_identity() {
            Err(error) => Err(error),
            Ok((_, kind)) => if kind == GroupPageKind::Leaf || kind == GroupPageKind::Branch {
                self.check_group_node()
            } else {
                match self.group_data() {
                    Err(error) => Err(error),
                    Ok(_) => Ok(()),
                }
            },
        }
    }
}

} // verus!
