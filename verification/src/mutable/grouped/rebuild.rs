//! Bounded grouped snapshot construction from a sorted capture.

use crate::codec::bytes::group_bytes;
use crate::error::{Error, Result};
use crate::grouped::bitmap::{
    bitmap_at, bitmap_code, encode_bitmap, pages_size, pages_storable, Bitmap, BitmapKind, PageOffsets,
};
use crate::grouped::members::{
    encode_members, marks_members, membership_at, membership_code, membership_error, member_list,
    Member, Members, MembersModel,
};
use crate::grouped::GroupKey;
use crate::identity::{group_identity, HeapLayout, Incarnation, RootTid};
use crate::mask::{mask_insert, none, with_member, OffsetMask, PageMask};
use crate::memory::try_reserve_exact;
use crate::mutable::compact::{recover as recover_compaction, recovered};
use crate::mutable::grouped::anchors::{anchor_code, is_term_number, word_at, Anchor, SortRecord};
use crate::mutable::grouped::builder::{
    entry_pushed, levels_finished, BuilderModel, CatalogBuilder,
};
use crate::mutable::grouped::capture::{
    capture, captured, record_bytes, records_ascend, BuildStats, GroupSort, SORT_BATCH,
};
use crate::mutable::grouped::journal::{begin, group_begun, group_recovered, recover};
use crate::mutable::grouped::keeping::{
    beginning_keeps, canonical_kept, finishing_keeps, kept_joins, publishing_keeps, pushing_keeps,
    record_keeps, same_segment,
};
use crate::mutable::grouped::publish::{publish, snapshot_published};
use crate::mutable::grouped::records::{key, record_written, snapshot_key, write_record};
use crate::mutable::grouped::values::{Value, ValueModel, BITMAP_BYTES, MEMBER_BYTES};
use crate::mutable::page::{
    CatalogEntry, GroupPageKind, GroupSnapshot, GroupState, Owner, OwnerRef, Page, PageKind,
    NO_BLOCK,
};
use crate::mutable::store::{answers, load, same_host, Change, PageStore, Stage, StoreModel};
use crate::text::bytes_precede;
use core::mem::size_of;
use vstd::prelude::*;

verus! {

broadcast use {group_bytes, group_identity, GroupKey::of_parts};

/// The memory of a catalog under construction.
const CATALOG_ROOM: usize = 64_640;

/// The core scratch of a build, as far as a number of bytes can say it.
pub open spec fn build_room(layout: HeapLayout, anchored: bool) -> int {
    let limit = 256 * layout.max_offset();
    let bytes = MEMBER_BYTES + 64_640 + 131_072 + limit * vstd::layout::size_of::<Member>()
        + vstd::layout::size_of::<PageOffsets>() * 256 + if anchored {
        64_640int
    } else {
        0
    };
    if bytes > usize::MAX {
        usize::MAX as int
    } else {
        bytes
    }
}

/// Reserves bounded core scratch separately from the host sort budget.
/// The checked heap layout bounds all arithmetic independently of relation size.
pub fn build_memory(layout: HeapLayout) -> (bytes: usize)
    ensures
        bytes == build_room(layout, false),
        bytes >= 2_292_936,
{
    let limit: usize = 256 * layout.max_offset() as usize;
    let members: usize = match limit.checked_mul(size_of::<Member>()) {
        Some(members) => members,
        None => usize::MAX,
    };
    let pages: usize = match size_of::<PageOffsets>().checked_mul(256) {
        Some(pages) => pages,
        None => usize::MAX,
    };
    (MEMBER_BYTES + CATALOG_ROOM + 128 * 1024).saturating_add(members).saturating_add(pages)
}

/// Reserves one additional bounded catalog for opt-in frontier anchors.
pub fn build_memory_with_anchors(layout: HeapLayout) -> (bytes: usize)
    ensures
        bytes == build_room(layout, true),
        bytes >= 2_292_936,
{
    build_memory(layout).saturating_add(CATALOG_ROOM)
}

impl StoreModel {
    /// The last owner of the owner chain.
    pub open spec fn newest_owner(self, tail: u32) -> Result<Option<OwnerRef>> {
        if tail == NO_BLOCK {
            Ok(None)
        } else {
            match self.load(tail, PageKind::Owners) {
                Err(error) => Err(error),
                Ok(owners) => match owners.owner_count() {
                    Err(error) => Err(error),
                    Ok(count) => if count == 0 {
                        Err(Error::InvalidState)
                    } else {
                        match owners.owner((count - 1) as u16, self.layout) {
                            Err(error) => Err(error),
                            Ok(owner) => Ok(Some(owner.reference)),
                        }
                    },
                },
            }
        }
    }

    /// Whether an owner still stands where a snapshot saw it, not behind the
    /// newest one.
    pub open spec fn cutoff_checked(self, old: OwnerRef, newest: Option<OwnerRef>) -> Result<()> {
        if newest is None || old.incarnation.get() > newest->Some_0.incarnation.get() {
            Err(Error::InvalidState)
        } else {
            match self.load(old.page, PageKind::Owners) {
                Err(error) => Err(error),
                Ok(owners) => match owners.owner(old.slot, self.layout) {
                    Err(error) => Err(error),
                    Ok(owner) => if owner.reference != old {
                        Err(Error::InvalidState)
                    } else {
                        Ok(())
                    },
                },
            }
        }
    }

    /// Whether the active snapshot lacks owners, or an anchored host its frontier.
    pub open spec fn rebuild_needed(self, anchored: bool) -> Result<bool> {
        match self.load(0, PageKind::Meta) {
            Err(error) => Err(error),
            Ok(meta) => match meta.grouped_state() {
                Err(error) => Err(error),
                Ok(state) => match state.active {
                    None => Ok(true),
                    Some(snapshot) => match meta.owner_chain() {
                        Err(error) => Err(error),
                        Ok((_, tail)) => match self.newest_owner(tail) {
                            Err(error) => Err(error),
                            Ok(newest) => match (match snapshot.after {
                                Some(old) => self.cutoff_checked(old, newest),
                                None => Ok(()),
                            }) {
                                Err(error) => Err(error),
                                Ok(_) => Ok(
                                    snapshot.after != newest || (anchored
                                        && !snapshot.frontier_valid),
                                ),
                            },
                        },
                    },
                },
            },
        }
    }
}

/// Reads the last owner of the owner chain.
fn read_newest<S: PageStore>(store: &mut S, tail: u32) -> (result: Result<Option<OwnerRef>>)
    ensures
        answers(
            old(store).host(),
            final(store).host(),
            result,
            old(store).host().model.newest_owner(tail),
        ),
{
    if tail == NO_BLOCK {
        return Ok(None);
    }
    let owners: Page = load(store, tail, PageKind::Owners)?;
    let count: u16 = owners.owner_count()?;
    if count == 0 {
        return Err(Error::InvalidState);
    }
    let owner: Owner<'_> = owners.owner(count - 1, store.layout())?;
    assert(owner@ == owners@.owner((count - 1) as u16, old(store).host().model.layout)->Ok_0);
    Ok(Some(owner.reference))
}

/// Checks the cutoff of a snapshot.
fn check_cutoff<S: PageStore>(store: &mut S, old_owner: OwnerRef, newest: Option<OwnerRef>) -> (result:
    Result<()>)
    ensures
        answers(
            old(store).host(),
            final(store).host(),
            result,
            old(store).host().model.cutoff_checked(old_owner, newest),
        ),
{
    match newest {
        None => {
            return Err(Error::InvalidState);
        },
        Some(newest) => {
            if old_owner.incarnation.get() > newest.incarnation.get() {
                return Err(Error::InvalidState);
            }
        },
    }
    let owners: Page = load(store, old_owner.page, PageKind::Owners)?;
    let owner: Owner<'_> = owners.owner(old_owner.slot, store.layout())?;
    assert(owner@ == owners@.owner(old_owner.slot, old(store).host().model.layout)->Ok_0);
    if owner.reference != old_owner {
        return Err(Error::InvalidState);
    }
    Ok(())
}

/// Tests the append-only owner cutoff while holding both maintenance barriers.
/// Deletions alone only clear shared liveness and do not require rebuilding.
///
/// # Errors
/// Rejects malformed metadata or a missing captured owner anchor.
pub fn needs_rebuild<S: PageStore>(store: &mut S) -> (result: Result<bool>)
    ensures
        answers(
            old(store).host(),
            final(store).host(),
            result,
            old(store).host().model.rebuild_needed(old(store).host().anchored),
        ),
{
    let meta: Page = load(store, 0, PageKind::Meta)?;
    let state: GroupState = meta.grouped_state()?;
    let snapshot: GroupSnapshot = match state.active {
        Some(snapshot) => snapshot,
        None => {
            return Ok(true);
        },
    };
    let (_, tail): (u32, u32) = meta.owner_chain()?;
    let newest: Option<OwnerRef> = read_newest(store, tail)?;
    if let Some(old_owner) = snapshot.after {
        check_cutoff(store, old_owner, newest)?;
    }
    Ok(snapshot.after != newest || (store.frontier_anchors() && !snapshot.frontier_valid))
}

/// The value that leads to a record of postings.
pub open spec fn posting_value(len: int, blocks: Seq<u32>, pages: Seq<u64>) -> ValueModel {
    ValueModel {
        len: len as u32,
        blocks,
        pages,
        members: NO_BLOCK,
        member_bytes: 0,
        count: 0,
        inline: None,
    }
}

/// The value that leads to a liveness record and its members.
pub open spec fn liveness_value(
    len: int,
    blocks: Seq<u32>,
    pages: Seq<u64>,
    members: u32,
    count: int,
) -> ValueModel {
    ValueModel {
        len: len as u32,
        blocks,
        pages,
        members,
        member_bytes: (72 + 16 * count) as u32,
        count: count as u32,
        inline: None,
    }
}

/// Whether a record was written and its entry added to the catalog.
pub open spec fn record_cataloged(
    before: (StoreModel, GroupSnapshot, BuilderModel),
    after: (StoreModel, GroupSnapshot, BuilderModel),
    kind: GroupPageKind,
    key: [u64; 2],
    bytes: Seq<u8>,
    members: Option<(u32, int)>,
) -> bool {
    let written = record_written(before.0, before.1, kind, key@, bytes);
    &&& written.value matches Ok((snapshot, _, blocks)) && exists|entry: CatalogEntry|
        #![trigger entry_pushed(written.model, snapshot, before.2, entry)]
        {
            let pages = bitmap_at(bytes)->Ok_0.mask;
            let value = match members {
                None => posting_value(bytes.len() as int, blocks, pages),
                Some((head, count)) => liveness_value(
                    bytes.len() as int,
                    blocks,
                    pages,
                    head,
                    count,
                ),
            };
            &&& entry.key == key
            &&& entry.value@ == value.code()
            &&& entry_pushed(written.model, snapshot, before.2, entry) == Change::made(
                after.0,
                (after.1, after.2),
            )
        }
}

/// Why a record cannot be written and cataloged.
pub open spec fn record_fails(
    before: (StoreModel, GroupSnapshot, BuilderModel),
    kind: GroupPageKind,
    key: [u64; 2],
    bytes: Seq<u8>,
    members: Option<(u32, int)>,
    error: Error,
) -> bool {
    let written = record_written(before.0, before.1, kind, key@, bytes);
    match bitmap_at(bytes) {
        Err(unsound) => error == unsound,
        Ok(header) => match written.value {
            Err(refused) => error == refused,
            Ok((snapshot, _, blocks)) => exists|entry: CatalogEntry|
                #![trigger entry_pushed(written.model, snapshot, before.2, entry)]
                {
                    let value = match members {
                        None => posting_value(bytes.len() as int, blocks, header.mask),
                        Some((head, count)) => liveness_value(
                            bytes.len() as int,
                            blocks,
                            header.mask,
                            head,
                            count,
                        ),
                    };
                    &&& entry.key == key
                    &&& entry.value@ == value.code()
                    &&& entry_pushed(written.model, snapshot, before.2, entry).value matches Err(
                        refused,
                    ) && error == refused
                },
        },
    }
}

/// Writes a record and adds its entry to the catalog.
fn catalog_record<S: PageStore>(
    store: &mut S,
    snapshot: &mut GroupSnapshot,
    catalog: &mut CatalogBuilder,
    kind: GroupPageKind,
    key: [u64; 2],
    bytes: &[u8],
    members: Option<(u32, u32)>,
) -> (result: Result<()>)
    requires
        old(catalog)@.wf(),
        bytes@.len() <= BITMAP_BYTES,
        members matches Some((_, count)) ==> count <= 131072,
    ensures
        same_host(old(store).host(), final(store).host()),
        result is Ok ==> {
            &&& final(catalog)@.wf()
            &&& canonical_kept(old(store).host().model, final(store).host().model)
            &&& same_segment(*old(snapshot), *final(snapshot))
            &&& record_cataloged(
                (old(store).host().model, *old(snapshot), old(catalog)@),
                (final(store).host().model, *final(snapshot), final(catalog)@),
                kind,
                key,
                bytes@,
                match members {
                    Some((head, count)) => Some((head, count as int)),
                    None => None,
                },
            )
        },
        result matches Err(error) ==> !old(store).host().reliable || record_fails(
            (old(store).host().model, *old(snapshot), old(catalog)@),
            kind,
            key,
            bytes@,
            match members {
                Some((head, count)) => Some((head, count as int)),
                None => None,
            },
            error,
        ),
{
    let mask: PageMask = *Bitmap::open(bytes)?.pages();
    let ghost model = store.host().model;
    let ghost begun = *snapshot;
    proof {
        record_keeps(model, begun, kind, key@, bytes@);
    }
    let (_, blocks): (u32, [u32; 3]) = write_record(store, snapshot, kind, key, bytes)?;
    let (head, member_bytes, count): (u32, u32, u32) = match members {
        Some((head, count)) => (head, 72 + count * 16, count),
        None => (NO_BLOCK, 0, 0),
    };
    let value: Value = Value {
        len: bytes.len() as u32,
        blocks,
        pages: mask,
        members: head,
        member_bytes,
        count,
        inline: None,
    };
    let entry: CatalogEntry = value.entry(key);
    let ghost middle = store.host().model;
    proof {
        pushing_keeps(middle, *snapshot, catalog@, entry);
    }
    let ghost written = *snapshot;
    proof {
        let pages = bitmap_at(bytes@)->Ok_0.mask;
        match members {
            None => {
                assert(value@ =~= posting_value(bytes@.len() as int, blocks@, pages));
            },
            Some((head, count)) => {
                assert(value@ =~= liveness_value(
                    bytes@.len() as int,
                    blocks@,
                    pages,
                    head,
                    count as int,
                ));
            },
        }
    }
    catalog.push(store, snapshot, entry)?;
    proof {
        kept_joins(model, middle, store.host().model);
        assert(entry_pushed(middle, written, old(catalog)@, entry) == Change::made(
            store.host().model,
            (*snapshot, catalog@),
        ));
    }
    Ok(())
}

/// Why the postings of a term in a group cannot be sealed.
pub open spec fn postings_fail(
    before: (StoreModel, GroupSnapshot, BuilderModel),
    key: [u64; 2],
    group: GroupKey,
    pages: Seq<PageOffsets>,
    error: Error,
) -> bool {
    if !pages_storable(group, pages, pages.len() as int) {
        error == Error::InvalidState
    } else if pages_size(pages) > BITMAP_BYTES {
        error == Error::Limit("bitmap group output")
    } else {
        record_fails(
            before,
            GroupPageKind::Posting,
            key,
            bitmap_code(group, BitmapKind::Posting, pages),
            None,
            error,
        )
    }
}

/// Seals the postings of a term in a group.
fn seal_postings<S: PageStore>(
    store: &mut S,
    snapshot: &mut GroupSnapshot,
    catalog: &mut CatalogBuilder,
    key: [u64; 2],
    group: GroupKey,
    pages: &Vec<PageOffsets>,
    bytes: &mut Vec<u8>,
) -> (result: Result<()>)
    requires
        old(catalog)@.wf(),
    ensures
        same_host(old(store).host(), final(store).host()),
        result is Ok ==> {
            &&& final(catalog)@.wf()
            &&& canonical_kept(old(store).host().model, final(store).host().model)
            &&& same_segment(*old(snapshot), *final(snapshot))
            &&& record_cataloged(
                (old(store).host().model, *old(snapshot), old(catalog)@),
                (final(store).host().model, *final(snapshot), final(catalog)@),
                GroupPageKind::Posting,
                key,
                bitmap_code(group, BitmapKind::Posting, pages@),
                None,
            )
        },
        result matches Err(error) ==> !old(store).host().reliable || postings_fail(
            (old(store).host().model, *old(snapshot), old(catalog)@),
            key,
            group,
            pages@,
            error,
        ),
{
    bytes.clear();
    bytes.resize(BITMAP_BYTES, 0);
    let len: usize = encode_bitmap(
        group,
        BitmapKind::Posting,
        pages.as_slice(),
        bytes.as_mut_slice(),
    )?;
    bytes.truncate(len);
    assert(bytes@ =~= bitmap_code(group, BitmapKind::Posting, pages@));
    catalog_record(
        store,
        snapshot,
        catalog,
        GroupPageKind::Posting,
        key,
        bytes.as_slice(),
        None,
    )
}

/// What a membership record holds.
pub open spec fn roster_of(code: Seq<u8>) -> MembersModel {
    MembersModel {
        key: membership_at(code)->Ok_0.key,
        mask: membership_at(code)->Ok_0.mask,
        members: member_list(
            code,
            membership_at(code)->Ok_0.key,
            membership_at(code)->Ok_0.count as nat,
        ),
    }
}

/// Whether a membership was written, and behind it a liveness record that marks
/// exactly its members, whose entry was added to the catalog.
pub open spec fn members_cataloged(
    before: (StoreModel, GroupSnapshot, BuilderModel),
    after: (StoreModel, GroupSnapshot, BuilderModel),
    key: [u64; 2],
    group: GroupKey,
    members: Seq<Member>,
    live: Seq<u8>,
) -> bool {
    let code = membership_code(group, members);
    let roster = record_written(before.0, before.1, GroupPageKind::Members, key@, code);
    &&& marks_members(live, roster_of(code))
    &&& roster.value matches Ok((written, head, _)) && record_cataloged(
        (roster.model, written, before.2),
        after,
        GroupPageKind::Liveness,
        key,
        live,
        Some((head, members.len() as int)),
    )
}

/// Why the members of a group and their liveness cannot be sealed.
pub open spec fn members_fail(
    before: (StoreModel, GroupSnapshot, BuilderModel),
    key: [u64; 2],
    group: GroupKey,
    members: Seq<Member>,
    error: Error,
) -> bool {
    let code = membership_code(group, members);
    let roster = record_written(before.0, before.1, GroupPageKind::Members, key@, code);
    match membership_error(group, members, MEMBER_BYTES as nat) {
        Some(refused) => error == refused,
        None => match roster.value {
            Err(refused) => error == refused,
            Ok((written, head, _)) => match membership_at(code) {
                Err(unsound) => error == unsound,
                Ok(_) => exists|live: Seq<u8>| #[trigger]
                    marks_members(live, roster_of(code)) && record_fails(
                        (roster.model, written, before.2),
                        GroupPageKind::Liveness,
                        key,
                        live,
                        Some((head, members.len() as int)),
                        error,
                    ),
            },
        },
    }
}

/// Seals the members of a group and their liveness.
fn seal_members<S: PageStore>(
    store: &mut S,
    snapshot: &mut GroupSnapshot,
    catalog: &mut CatalogBuilder,
    key: [u64; 2],
    group: GroupKey,
    members: &Vec<Member>,
    bytes: &mut Vec<u8>,
) -> (result: Result<()>)
    requires
        old(catalog)@.wf(),
        members@.len() <= 131072,
    ensures
        same_host(old(store).host(), final(store).host()),
        result is Ok ==> {
            &&& final(catalog)@.wf()
            &&& canonical_kept(old(store).host().model, final(store).host().model)
            &&& same_segment(*old(snapshot), *final(snapshot))
            &&& exists|live: Seq<u8>| #[trigger]
                members_cataloged(
                    (old(store).host().model, *old(snapshot), old(catalog)@),
                    (final(store).host().model, *final(snapshot), final(catalog)@),
                    key,
                    group,
                    members@,
                    live,
                )
        },
        result matches Err(error) ==> !old(store).host().reliable || members_fail(
            (old(store).host().model, *old(snapshot), old(catalog)@),
            key,
            group,
            members@,
            error,
        ),
{
    let ghost model = store.host().model;
    let ghost begun = *snapshot;
    let ghost code = membership_code(group, members@);
    bytes.clear();
    bytes.resize(MEMBER_BYTES, 0);
    let size: usize = encode_members(group, members.as_slice(), bytes.as_mut_slice())?;
    bytes.truncate(size);
    assert(bytes@ =~= code);
    proof {
        record_keeps(model, begun, GroupPageKind::Members, key@, code);
    }
    let (head, _): (u32, [u32; 3]) = write_record(
        store,
        snapshot,
        GroupPageKind::Members,
        key,
        bytes.as_slice(),
    )?;
    // liveness uses separate bounded scratch while the roster borrows its bytes.
    let mut live: Vec<u8> = Vec::new();
    live.resize(BITMAP_BYTES, 0);
    let roster: Members<'_> = Members::open(bytes.as_slice())?;
    let len: usize = roster.encode_liveness(live.as_mut_slice())?;
    let ghost full = live@;
    live.truncate(len);
    assert(live@ =~= full.take(len as int));
    let ghost middle = store.host().model;
    let ghost written = *snapshot;
    assert(marks_members(live@, roster_of(code)));
    catalog_record(
        store,
        snapshot,
        catalog,
        GroupPageKind::Liveness,
        key,
        live.as_slice(),
        Some((head, members.len() as u32)),
    )?;
    proof {
        kept_joins(model, middle, store.host().model);
        assert(members_cataloged(
            (model, begun, old(catalog)@),
            (store.host().model, *snapshot, catalog@),
            key,
            group,
            members@,
            live@,
        ));
    }
    Ok(())
}

/// The term and the member of a record; nothing where the numbers cannot be theirs.
pub open spec fn record_fields(record: Seq<u8>, layout: HeapLayout) -> Option<(u64, Member)> {
    let root = word_at(record, 1);
    let slot = word_at(record, 3);
    let block = root / 0x1_0000;
    let offset = root % 0x1_0000;
    if block >= NO_BLOCK || slot / 0x1_0000 == 0 || slot / 0x1_0000 >= NO_BLOCK || offset == 0
        || offset > layout.max_offset() || word_at(record, 2) == 0 {
        None
    } else {
        Some(
            (
                word_at(record, 0),
                Member {
                    root: RootTid::of(block as u32, offset as u16),
                    incarnation: Incarnation::of(word_at(record, 2)),
                },
            ),
        )
    }
}

/// Reads the term and the member of a record.
fn fields(record: &SortRecord, layout: HeapLayout) -> (result: Result<(u64, Member)>)
    ensures
        match record_fields(record.0@, layout) {
            Some(fields) => result == Ok::<(u64, Member), Error>(fields),
            None => result == Err::<(u64, Member), Error>(Error::InvalidState),
        },
{
    let coordinate: u64 = record.word(1);
    let slot: u64 = record.word(3);
    let block: u64 = coordinate / 0x1_0000;
    let owner_page: u64 = slot / 0x1_0000;
    if block >= NO_BLOCK as u64 || owner_page == 0 || owner_page >= NO_BLOCK as u64 {
        return Err(Error::InvalidState);
    }
    let root: RootTid = match RootTid::new(
        block as u32,
        (coordinate % 0x1_0000) as u16,
        layout,
    ) {
        Ok(root) => root,
        Err(_) => {
            return Err(Error::InvalidState);
        },
    };
    let incarnation: Incarnation = match Incarnation::new(record.word(2)) {
        Ok(incarnation) => incarnation,
        Err(_) => {
            return Err(Error::InvalidState);
        },
    };
    Ok((record.word(0), Member { root, incarnation }))
}

/// What a build has come to: the snapshot so far, its catalogs, the group that is
/// being collected, and what was counted.
#[verifier::ext_equal]
pub struct BuildModel {
    pub snapshot: GroupSnapshot,
    pub catalog: BuilderModel,
    pub anchors: Option<BuilderModel>,
    pub members: Seq<Member>,
    pub pages: Seq<PageOffsets>,
    pub current: Option<[u64; 2]>,
    pub previous: Option<Seq<u8>>,
    pub previous_root: Option<RootTid>,
    pub seen: int,
    pub frontier_terms: int,
    pub frontier_term: Option<u64>,
    pub groups: int,
    pub term_groups: int,
}

/// A build that has taken nothing yet.
pub open spec fn build_started(snapshot: GroupSnapshot, anchored: bool) -> BuildModel {
    BuildModel {
        snapshot,
        catalog: BuilderModel::fresh(),
        anchors: if anchored {
            Some(BuilderModel::fresh())
        } else {
            None
        },
        members: Seq::empty(),
        pages: Seq::empty(),
        current: None,
        previous: None,
        previous_root: None,
        seen: 0,
        frontier_terms: 0,
        frontier_term: None,
        groups: 0,
        term_groups: 0,
    }
}

/// Whether the collected group was written and cataloged, where there is one:
/// its members with their liveness, or the postings of its term.
pub open spec fn group_sealed(
    before: (StoreModel, BuildModel),
    after: (StoreModel, BuildModel),
) -> bool {
    match before.1.current {
        None => after == before,
        Some(place) => snapshot_key(
            before.1.snapshot,
            place@[1] as u32,
            before.0.layout,
        ) matches Ok(group) && {
            let from = (before.0, before.1.snapshot, before.1.catalog);
            let to = (after.0, after.1.snapshot, after.1.catalog);
            &&& after.1 == (BuildModel {
                snapshot: after.1.snapshot,
                catalog: after.1.catalog,
                groups: if place@[0] == 0 {
                    before.1.groups + 1
                } else {
                    before.1.groups
                },
                term_groups: if place@[0] == 0 {
                    before.1.term_groups
                } else {
                    before.1.term_groups + 1
                },
                ..before.1
            })
            &&& if place@[0] == 0 {
                exists|live: Seq<u8>| #[trigger]
                    members_cataloged(from, to, place, group, before.1.members, live)
            } else {
                record_cataloged(
                    from,
                    to,
                    GroupPageKind::Posting,
                    place,
                    bitmap_code(group, BitmapKind::Posting, before.1.pages),
                    None,
                )
            }
        },
    }
}

/// Whether a new group was opened behind a sealed one.
pub open spec fn group_opened(
    before: (StoreModel, BuildModel),
    after: (StoreModel, BuildModel),
    term: u64,
    base: u64,
) -> bool {
    &&& after.0 == before.0
    &&& after.1.current matches Some(place) && place@ == seq![term, base]
    &&& after.1 == (BuildModel {
        current: after.1.current,
        members: Seq::empty(),
        pages: Seq::empty(),
        previous_root: None,
        ..before.1
    })
}

/// Whether a posting was added to the pages of a group.
pub open spec fn posting_collected(
    before: Seq<PageOffsets>,
    after: Seq<PageOffsets>,
    root: RootTid,
) -> bool {
    let page = root.block() % 256;
    let bit = root.offset() - 1;
    if before.len() > 0 && before.last().page == page {
        &&& after.len() == before.len()
        &&& after.drop_last() == before.drop_last()
        &&& after.last().page == page
        &&& after.last().offsets@ == with_member(before.last().offsets@, bit)
    } else {
        &&& after.len() == before.len() + 1
        &&& after.drop_last() == before
        &&& after.last().page == page
        &&& after.last().offsets@ == with_member(none(8), bit)
    }
}

/// Whether a member, or a posting of a term, was added to the open group.
pub open spec fn member_taken(
    before: (StoreModel, BuildModel),
    after: (StoreModel, BuildModel),
    term: u64,
    member: Member,
) -> bool {
    &&& before.1.previous_root != Some(member.root)
    &&& after.0 == before.0
    &&& after.1 == (BuildModel {
        members: if term == 0 {
            before.1.members.push(member)
        } else {
            before.1.members
        },
        pages: after.1.pages,
        previous_root: Some(member.root),
        seen: before.1.seen + 1,
        ..before.1
    })
    &&& if term == 0 {
        after.1.pages == before.1.pages
    } else {
        posting_collected(before.1.pages, after.1.pages, member.root)
    }
}

/// Whether an anchor was added to the frontier.
pub open spec fn anchor_taken(
    before: (StoreModel, BuildModel),
    after: (StoreModel, BuildModel),
    term: u64,
    anchor: Anchor,
    entry: CatalogEntry,
) -> bool {
    &&& entry.key@ == seq![term, 0u64]
    &&& entry.value@ == anchor_code(anchor)
    &&& anchor.last < before.1.snapshot.id.get()
    &&& before.1.anchors matches Some(anchors) && after.1.anchors matches Some(more)
        && entry_pushed(before.0, before.1.snapshot, anchors, entry) == Change::made(
        after.0,
        (after.1.snapshot, more),
    )
    &&& after.1 == (BuildModel {
        snapshot: after.1.snapshot,
        anchors: after.1.anchors,
        frontier_term: Some(term),
        frontier_terms: before.1.frontier_terms + 1,
        ..before.1
    })
}

/// The anchor of a record.
pub open spec fn row_anchor(row: Seq<u8>) -> Anchor {
    Anchor {
        head: (word_at(row, 2) / 0x1_0000_0000) as u32,
        tail: (word_at(row, 2) % 0x1_0000_0000) as u32,
        last: word_at(row, 3),
    }
}

/// Whether a record, which stands behind the previous one, was taken: an anchor,
/// or a member or posting of the open group or of a new one.
pub open spec fn row_taken(
    before: (StoreModel, BuildModel),
    after: (StoreModel, BuildModel),
    row: Seq<u8>,
) -> bool {
    let begun = (before.0, BuildModel { previous: Some(row), ..before.1 });
    &&& before.1.previous matches Some(previous) ==> crate::text::precedes(previous, row)
    &&& if word_at(row, 1) == 0 {
        exists|entry: CatalogEntry| #[trigger]
            anchor_taken(begun, after, word_at(row, 0), row_anchor(row), entry)
    } else {
        record_fields(row, before.0.layout) matches Some((term, member)) && {
            let base = (member.root.block() - member.root.block() % 256) as u64;
            &&& member.incarnation.get() < before.1.snapshot.id.get()
            &&& before.1.anchors is Some && term != 0 ==> before.1.frontier_term == Some(term)
            &&& if before.1.current matches Some(place) && place@ == seq![term, base] {
                member_taken(begun, after, term, member)
            } else {
                exists|sealed: (StoreModel, BuildModel), opened: (StoreModel, BuildModel)|
                    #[trigger] group_sealed(begun, sealed) && #[trigger] group_opened(
                        sealed,
                        opened,
                        term,
                        base,
                    ) && member_taken(opened, after, term, member)
            }
        }
    }
}

/// Why the collected group cannot be sealed.
pub open spec fn group_fails(before: (StoreModel, BuildModel), error: Error) -> bool {
    let from = (before.0, before.1.snapshot, before.1.catalog);
    before.1.current matches Some(place) && match snapshot_key(
        before.1.snapshot,
        place@[1] as u32,
        before.0.layout,
    ) {
        Err(refused) => error == refused,
        Ok(group) => if place@[0] == 0 {
            members_fail(from, place, group, before.1.members, error) || (before.1.groups
                >= u32::MAX && error == Error::Limit("group records"))
        } else {
            postings_fail(from, place, group, before.1.pages, error) || (before.1.term_groups
                >= u64::MAX && error == Error::Limit("group records"))
        },
    }
}

/// Why an anchor cannot be added to the frontier.
pub open spec fn anchor_fails(
    before: (StoreModel, BuildModel),
    term: u64,
    anchor: Anchor,
    error: Error,
) -> bool {
    if anchor.last >= before.1.snapshot.id.get() {
        error == Error::InvalidState
    } else {
        match before.1.anchors {
            None => error == Error::InvalidState,
            Some(anchors) => {
                ||| exists|entry: CatalogEntry|
                    #![trigger entry_pushed(before.0, before.1.snapshot, anchors, entry)]
                    entry.key@ == seq![term, 0u64] && entry.value@ == anchor_code(anchor) && (
                    entry_pushed(before.0, before.1.snapshot, anchors, entry).value matches Err(
                        refused,
                    ) && error == refused)
                ||| before.1.frontier_terms >= u64::MAX && error == Error::Limit("frontier terms")
            },
        }
    }
}

/// Why a member, or a posting of a term, cannot be added to the open group.
pub open spec fn member_fails(
    before: BuildModel,
    term: u64,
    member: Member,
    limit: int,
    error: Error,
) -> bool {
    if before.previous_root == Some(member.root) {
        error == Error::DuplicateDocument
    } else if term == 0 && before.members.len() >= limit {
        error == Error::Limit("group members")
    } else {
        before.seen >= u64::MAX && error == Error::Limit("group sort records")
    }
}

/// Why a record cannot be taken.
pub open spec fn row_fails(
    before: (StoreModel, BuildModel),
    row: Seq<u8>,
    limit: int,
    error: Error,
) -> bool {
    let begun = (before.0, BuildModel { previous: Some(row), ..before.1 });
    if before.1.previous matches Some(previous) && !crate::text::precedes(previous, row) {
        error == Error::InvalidState
    } else if word_at(row, 1) == 0 {
        if !is_term_number(word_at(row, 0)) || !row_anchor(row).valid() {
            error == Error::InvalidState
        } else {
            anchor_fails(begun, word_at(row, 0), row_anchor(row), error)
        }
    } else {
        match record_fields(row, before.0.layout) {
            None => error == Error::InvalidState,
            Some((term, member)) => {
                let base = (member.root.block() - member.root.block() % 256) as u64;
                if member.incarnation.get() >= before.1.snapshot.id.get() || (before.1.anchors is Some
                    && term != 0 && before.1.frontier_term != Some(term)) {
                    error == Error::InvalidState
                } else if before.1.current matches Some(place) && place@ == seq![term, base] {
                    member_fails(begun.1, term, member, limit, error)
                } else {
                    group_fails(begun, error) || exists|
                        sealed: (StoreModel, BuildModel),
                        opened: (StoreModel, BuildModel),
                    | #[trigger]
                        group_sealed(begun, sealed) && #[trigger] group_opened(
                            sealed,
                            opened,
                            term,
                            base,
                        ) && member_fails(opened.1, term, member, limit, error)
                }
            },
        }
    }
}

/// Why the catalogs of a build cannot be finished.
pub open spec fn catalogs_fail(before: (StoreModel, BuildModel), error: Error) -> bool {
    let first = levels_finished(before.0, before.1.snapshot, before.1.catalog.levels, 0);
    match first.value {
        Err(refused) => error == refused,
        Ok(main) => before.1.anchors matches Some(anchors) && levels_finished(
            first.model,
            GroupSnapshot { root: NO_BLOCK, ..main },
            anchors.levels,
            0,
        ).value matches Err(refused) && error == refused,
    }
}

/// Whether records were taken one after the other.
pub open spec fn rows_taken(
    before: (StoreModel, BuildModel),
    after: (StoreModel, BuildModel),
    rows: Seq<Seq<u8>>,
) -> bool
    decreases rows.len(),
{
    if rows.len() == 0 {
        after == before
    } else {
        exists|middle: (StoreModel, BuildModel)|
            rows_taken(before, middle, rows.drop_last()) && #[trigger] row_taken(
                middle,
                after,
                rows.last(),
            )
    }
}

proof fn rows_then_row(
    before: (StoreModel, BuildModel),
    middle: (StoreModel, BuildModel),
    after: (StoreModel, BuildModel),
    rows: Seq<Seq<u8>>,
    row: Seq<u8>,
)
    requires
        rows_taken(before, middle, rows),
        row_taken(middle, after, row),
    ensures
        rows_taken(before, after, rows.push(row)),
{
    assert(rows.push(row).drop_last() =~= rows);
    assert(rows.push(row).last() == row);
    assert(row_taken(middle, after, rows.push(row).last()));
}

/// Why records cannot all be taken: some were, and the next one fails.
pub open spec fn rows_fail(
    before: (StoreModel, BuildModel),
    rows: Seq<Seq<u8>>,
    limit: int,
    error: Error,
) -> bool {
    exists|count: int, middle: (StoreModel, BuildModel)|
        0 <= count < rows.len() && #[trigger] rows_taken(before, middle, rows.take(count))
            && row_fails(middle, rows[count], limit, error)
}

/// Why a snapshot cannot be built of records: one cannot be taken, their numbers
/// are not those that were captured, the last group cannot be sealed, or the
/// catalogs cannot be finished.
pub open spec fn build_fails(
    begun: StoreModel,
    first: GroupSnapshot,
    anchored: bool,
    rows: Seq<Seq<u8>>,
    limit: int,
    records: int,
    frontier_terms: int,
    error: Error,
) -> bool {
    let start = (begun, build_started(first, anchored));
    rows_fail(start, rows, limit, error) || exists|taken: (StoreModel, BuildModel)| #[trigger]
        rows_taken(start, taken, rows) && {
            ||| taken.1.frontier_terms != frontier_terms && error == Error::InvalidState
            ||| records > u64::MAX && error == Error::Limit("group records")
            ||| taken.1.seen != records && error == Error::InvalidState
            ||| group_fails(taken, error)
            ||| exists|sealed: (StoreModel, BuildModel)| #[trigger]
                group_sealed(taken, sealed) && catalogs_fail(sealed, error)
        }
}

/// Whether the catalogs of a build were finished and the snapshot leads to them.
pub open spec fn catalogs_finished(
    before: (StoreModel, BuildModel),
    after: StoreModel,
    snapshot: GroupSnapshot,
) -> bool {
    let first = levels_finished(before.0, before.1.snapshot, before.1.catalog.levels, 0);
    first.value matches Ok(main) && match before.1.anchors {
        None => after == first.model && snapshot == main,
        Some(anchors) => {
            let second = levels_finished(
                first.model,
                GroupSnapshot { root: NO_BLOCK, ..main },
                anchors.levels,
                0,
            );
            second.value matches Ok(frontier) && after == second.model && snapshot == (
            GroupSnapshot {
                frontier_root: Some(frontier.root),
                frontier_valid: true,
                root: main.root,
                ..frontier
            })
        },
    }
}

/// Whether a snapshot was built of records: all were taken, the last group was
/// sealed and the catalogs were finished.
pub open spec fn build_made(
    begun: StoreModel,
    first: GroupSnapshot,
    anchored: bool,
    rows: Seq<Seq<u8>>,
    built: StoreModel,
    snapshot: GroupSnapshot,
) -> bool {
    exists|taken: (StoreModel, BuildModel), sealed: (StoreModel, BuildModel)| #[trigger]
        rows_taken((begun, build_started(first, anchored)), taken, rows) && #[trigger] group_sealed(
            taken,
            sealed,
        ) && catalogs_finished(sealed, built, snapshot)
}

/// Whether a snapshot was built of everything that was captured, in order.
pub open spec fn built_of_captured(
    base: StoreModel,
    anchored: bool,
    built: StoreModel,
    snapshot: GroupSnapshot,
) -> bool {
    let begun = group_begun(base, snapshot.after);
    begun.value matches Ok(first) && captured(base, anchored) matches Ok(all) && exists|
        rows: Seq<Seq<u8>>,
    | #[trigger]
        records_ascend(rows) && rows.to_multiset() == all.records.to_multiset() && build_made(
            begun.model,
            first,
            anchored,
            rows,
            built,
            snapshot,
        )
}

/// A snapshot under construction, with the group that is being collected.
struct Building {
    snapshot: GroupSnapshot,
    catalog: CatalogBuilder,
    anchors: Option<CatalogBuilder>,
    members: Vec<Member>,
    pages: Vec<PageOffsets>,
    bytes: Vec<u8>,
    current: Option<[u64; 2]>,
    previous: Option<SortRecord>,
    previous_root: Option<RootTid>,
    seen: u64,
    frontier_terms: u64,
    frontier_term: Option<u64>,
    groups: u32,
    term_groups: u64,
}

impl Building {
    spec fn state(self) -> BuildModel {
        BuildModel {
            snapshot: self.snapshot,
            catalog: self.catalog@,
            anchors: match self.anchors {
                Some(anchors) => Some(anchors@),
                None => None,
            },
            members: self.members@,
            pages: self.pages@,
            current: self.current,
            previous: match self.previous {
                Some(previous) => Some(previous.0@),
                None => None,
            },
            previous_root: self.previous_root,
            seen: self.seen as int,
            frontier_terms: self.frontier_terms as int,
            frontier_term: self.frontier_term,
            groups: self.groups as int,
            term_groups: self.term_groups as int,
        }
    }

    spec fn wf(self) -> bool {
        &&& self.catalog@.wf()
        &&& self.anchors matches Some(anchors) ==> anchors@.wf()
        &&& self.members@.len() <= 131072
    }

    /// Seals the collected group, if any.
    fn seal<S: PageStore>(&mut self, store: &mut S) -> (result: Result<()>)
        requires
            old(self).wf(),
        ensures
            same_host(old(store).host(), final(store).host()),
            result is Ok ==> {
                &&& final(self).wf()
                &&& canonical_kept(old(store).host().model, final(store).host().model)
                &&& same_segment(old(self).snapshot, final(self).snapshot)
                &&& (final(self).anchors is Some) == (old(self).anchors is Some)
                &&& group_sealed(
                    (old(store).host().model, old(self).state()),
                    (final(store).host().model, final(self).state()),
                )
            },
            result matches Err(error) ==> !old(store).host().reliable || group_fails(
                (old(store).host().model, old(self).state()),
                error,
            ),
    {
        let ghost model = store.host().model;
        let ghost before = self.state();
        let place: [u64; 2] = match self.current {
            Some(place) => place,
            None => {
                return Ok(());
            },
        };
        let group: GroupKey = key(
            &self.snapshot,
            #[verifier::truncate]
            (place[1] as u32),
            store.layout(),
        )?;
        if place[0] == 0 {
            seal_members(
                store,
                &mut self.snapshot,
                &mut self.catalog,
                place,
                group,
                &self.members,
                &mut self.bytes,
            )?;
            self.groups = match self.groups.checked_add(1) {
                Some(groups) => groups,
                None => {
                    return Err(Error::Limit("group records"));
                },
            };
        } else {
            seal_postings(
                store,
                &mut self.snapshot,
                &mut self.catalog,
                place,
                group,
                &self.pages,
                &mut self.bytes,
            )?;
            self.term_groups = match self.term_groups.checked_add(1) {
                Some(groups) => groups,
                None => {
                    return Err(Error::Limit("group records"));
                },
            };
        }
        assert(self.state() =~= BuildModel {
            snapshot: self.snapshot,
            catalog: self.catalog@,
            groups: self.groups as int,
            term_groups: self.term_groups as int,
            ..before
        });
        Ok(())
    }

    /// Adds the anchor of a term to the frontier.
    fn add_anchor<S: PageStore>(&mut self, store: &mut S, term: u64, anchor: Anchor) -> (result: Result<
        (),
    >)
        requires
            old(self).wf(),
        ensures
            same_host(old(store).host(), final(store).host()),
            result is Ok ==> {
                &&& final(self).wf()
                &&& canonical_kept(old(store).host().model, final(store).host().model)
                &&& same_segment(old(self).snapshot, final(self).snapshot)
                &&& exists|entry: CatalogEntry| #[trigger]
                    anchor_taken(
                        (old(store).host().model, old(self).state()),
                        (final(store).host().model, final(self).state()),
                        term,
                        anchor,
                        entry,
                    )
            },
            result matches Err(error) ==> !old(store).host().reliable || anchor_fails(
                (old(store).host().model, old(self).state()),
                term,
                anchor,
                error,
            ),
    {
        let ghost model = store.host().model;
        let ghost before = self.state();
        if anchor.last >= self.snapshot.id.get() {
            return Err(Error::InvalidState);
        }
        let entry: CatalogEntry = anchor.entry(term);
        match &mut self.anchors {
            None => {
                return Err(Error::InvalidState);
            },
            Some(anchors) => {
                proof {
                    pushing_keeps(store.host().model, self.snapshot, anchors@, entry);
                }
                anchors.push(store, &mut self.snapshot, entry)?;
            },
        }
        self.frontier_term = Some(term);
        self.frontier_terms = match self.frontier_terms.checked_add(1) {
            Some(terms) => terms,
            None => {
                return Err(Error::Limit("frontier terms"));
            },
        };
        assert(self.state() =~= BuildModel {
            snapshot: self.snapshot,
            anchors: self.state().anchors,
            frontier_term: Some(term),
            frontier_terms: before.frontier_terms + 1,
            ..before
        });
        assert(anchor_taken(
            (model, before),
            (store.host().model, self.state()),
            term,
            anchor,
            entry,
        ));
        Ok(())
    }

    /// Collects a posting of the current group.
    fn collect_posting(&mut self, root: RootTid)
        requires
            old(self).wf(),
        ensures
            final(self).wf(),
            final(self).state() == (BuildModel {
                pages: final(self).pages@,
                ..old(self).state()
            }),
            posting_collected(old(self).pages@, final(self).pages@, root),
    {
        let ghost before = self.pages@;
        let page: u8 = (root.block() % 256) as u8;
        let bit: usize = root.offset() as usize - 1;
        let used: usize = self.pages.len();
        let open: bool = if used == 0 {
            false
        } else {
            self.pages[used - 1].page == page
        };
        if open {
            let mut last: PageOffsets = self.pages[used - 1];
            mask_insert(&mut last.offsets, bit);
            self.pages.set(used - 1, last);
            assert(self.pages@.drop_last() =~= before.drop_last());
        } else {
            let mut offsets: OffsetMask = [0u64; 8];
            assert(offsets@ =~= none(8));
            mask_insert(&mut offsets, bit);
            self.pages.push(PageOffsets { page, offsets });
            assert(self.pages@.drop_last() =~= before);
        }
    }

    /// Takes the next record of the sort.
    fn take_row<S: PageStore>(&mut self, store: &mut S, row: &SortRecord, limit: usize) -> (result: Result<
        (),
    >)
        requires
            old(self).wf(),
            limit <= 131072,
        ensures
            same_host(old(store).host(), final(store).host()),
            result is Ok ==> {
                &&& final(self).wf()
                &&& canonical_kept(old(store).host().model, final(store).host().model)
                &&& same_segment(old(self).snapshot, final(self).snapshot)
                &&& (final(self).anchors is Some) == (old(self).anchors is Some)
                &&& row_taken(
                    (old(store).host().model, old(self).state()),
                    (final(store).host().model, final(self).state()),
                    row.0@,
                )
            },
            result matches Err(error) ==> !old(store).host().reliable || row_fails(
                (old(store).host().model, old(self).state()),
                row.0@,
                limit as int,
                error,
            ),
    {
        let ghost model = store.host().model;
        let ghost before = self.state();
        store.interrupt()?;
        if let Some(previous) = &self.previous {
            if !bytes_precede(&previous.0, &row.0) {
                return Err(Error::InvalidState);
            }
        }
        self.previous = Some(*row);
        let ghost begun = BuildModel { previous: Some(row.0@), ..before };
        assert(self.state() =~= begun);
        if let Some((term, anchor)) = Anchor::from_sort(*row)? {
            assert(anchor == row_anchor(row.0@));
            return self.add_anchor(store, term, anchor);
        }
        let (term, member): (u64, Member) = fields(row, store.layout())?;
        let unanchored: bool = match self.frontier_term {
            Some(named) => named != term,
            None => true,
        };
        if (self.anchors.is_some() && term != 0 && unanchored) || member.incarnation.get()
            >= self.snapshot.id.get() {
            return Err(Error::InvalidState);
        }
        let place: [u64; 2] = [term, (member.root.block() - member.root.block() % 256) as u64];
        let same: bool = match self.current {
            Some(current) => current[0] == place[0] && current[1] == place[1],
            None => false,
        };
        let ghost base = (member.root.block() - member.root.block() % 256) as u64;
        assert(place@ =~= seq![term, base]);
        assert(same == (before.current matches Some(current) && current@ == seq![term, base])) by {
            if let Some(current) = before.current {
                if same {
                    assert(current@ =~= seq![term, base]);
                }
            }
        }
        if !same {
            self.seal(store)?;
            let ghost sealed = self.state();
            assert(group_sealed((model, begun), (store.host().model, sealed)));
            self.members.clear();
            self.pages.clear();
            self.previous_root = None;
            self.current = Some(place);
            assert(group_opened(
                (store.host().model, sealed),
                (store.host().model, self.state()),
                term,
                base,
            ));
        }
        let ghost opened = self.state();
        if let Some(previous) = self.previous_root {
            if previous == member.root {
                return Err(Error::DuplicateDocument);
            }
        }
        self.previous_root = Some(member.root);
        if term == 0 {
            if self.members.len() >= limit {
                return Err(Error::Limit("group members"));
            }
            self.members.push(member);
        } else {
            self.collect_posting(member.root);
        }
        self.seen = match self.seen.checked_add(1) {
            Some(seen) => seen,
            None => {
                return Err(Error::Limit("group sort records"));
            },
        };
        assert(member_taken(
            (store.host().model, opened),
            (store.host().model, self.state()),
            term,
            member,
        ));
        Ok(())
    }
}

/// Takes all records of the sort.
#[verifier::loop_isolation(false)]
fn take_rows<S: PageStore, T: GroupSort>(
    store: &mut S,
    sort: &mut T,
    building: &mut Building,
    limit: usize,
) -> (result: Result<()>)
    requires
        old(building).wf(),
        limit <= 131072,
    ensures
        same_host(old(store).host(), final(store).host()),
        result is Ok ==> {
            &&& final(building).wf()
            &&& canonical_kept(old(store).host().model, final(store).host().model)
            &&& same_segment(old(building).snapshot, final(building).snapshot)
            &&& (final(building).anchors is Some) == (old(building).anchors is Some)
            &&& rows_taken(
                (old(store).host().model, old(building).state()),
                (final(store).host().model, final(building).state()),
                old(sort).pending(),
            )
        },
        result matches Err(error) ==> !(old(store).host().reliable && old(sort).reliable())
            || rows_fail(
            (old(store).host().model, old(building).state()),
            old(sort).pending(),
            limit as int,
            error,
        ),
{
    let ghost origin = (store.host().model, building.state());
    let ghost mut done: Seq<Seq<u8>> = Seq::empty();
    let ghost base = store.host().model;
    let ghost start = building.snapshot;
    let ghost all = sort.pending();
    let mut rows: Vec<SortRecord> = Vec::new();
    rows.resize(SORT_BATCH, SortRecord::default());
    loop
        invariant
            rows@.len() == SORT_BATCH,
            building.wf(),
            same_host(old(store).host(), store.host()),
            canonical_kept(base, store.host().model),
            same_segment(start, building.snapshot),
            (building.anchors is Some) == (old(building).anchors is Some),
            rows_taken(origin, (store.host().model, building.state()), done),
            done + sort.pending() == all,
            sort.reliable() == old(sort).reliable(),
            origin == (old(store).host().model, old(building).state()),
            all == old(sort).pending(),
            limit <= 131072,
        decreases sort.pending().len(),
    {
        let ghost pending = sort.pending();
        let count: usize = sort.read(rows.as_mut_slice())?;
        if count > rows.len() {
            return Err(Error::InvalidState);
        }
        if count == 0 {
            assert(done + sort.pending() =~= done);
            return Ok(());
        }
        let ghost earlier = done;
        let ghost fresh = pending.take(count as int);
        assert(earlier =~= earlier + fresh.take(0));
        assert(earlier + fresh + sort.pending() =~= all) by {
            assert(pending =~= fresh + sort.pending());
        }
        assert(fresh.len() == count);
        let mut index: usize = 0;
        while index < count
            invariant
                index <= count,
                count <= rows@.len(),
                building.wf(),
                same_host(old(store).host(), store.host()),
                canonical_kept(base, store.host().model),
                same_segment(start, building.snapshot),
                (building.anchors is Some) == (old(building).anchors is Some),
                rows_taken(origin, (store.host().model, building.state()), done),
                done == earlier + fresh.take(index as int),
                fresh == record_bytes(rows@.take(count as int)),
                sort.reliable() == old(sort).reliable(),
                origin == (old(store).host().model, old(building).state()),
                all == old(sort).pending(),
                earlier + fresh + sort.pending() == all,
                fresh.len() == count,
                limit <= 131072,
            decreases count - index,
        {
            let ghost before = store.host().model;
            let ghost middle = (before, building.state());
            let ghost row = rows@[index as int].0@;
            proof {
                assert(rows@.take(count as int)[index as int] == rows@[index as int]);
                assert(fresh[index as int] == row);
                assert(done.len() == earlier.len() + index);
                assert(all.take(done.len() as int) =~= done);
                assert(all[done.len() as int] == row);
                assert(rows_taken(origin, middle, all.take(done.len() as int)));
            }
            building.take_row(store, &rows[index], limit)?;
            proof {
                kept_joins(base, before, store.host().model);
                rows_then_row(
                    origin,
                    middle,
                    (store.host().model, building.state()),
                    done,
                    row,
                );
                done = done.push(row);
                assert(fresh.take(index + 1) =~= fresh.take(index as int).push(row));
                assert(done =~= earlier + fresh.take(index + 1));
            }
            index += 1;
        }
        proof {
            assert(fresh.take(count as int) =~= fresh);
            assert(pending =~= fresh + sort.pending());
            assert(done + sort.pending() =~= earlier + pending);
        }
    }
}

/// Finishes the catalogs of a snapshot.
fn finish_catalogs<S: PageStore>(store: &mut S, building: &mut Building) -> (result: Result<()>)
    requires
        old(building).wf(),
        !old(building).snapshot.frontier_valid,
    ensures
        same_host(old(store).host(), final(store).host()),
        result is Ok ==> {
            &&& canonical_kept(old(store).host().model, final(store).host().model)
            &&& final(building).snapshot.id == old(building).snapshot.id
            &&& final(building).snapshot.after == old(building).snapshot.after
            &&& final(building).snapshot.frontier_valid == (old(building).anchors is Some)
            &&& catalogs_finished(
                (old(store).host().model, old(building).state()),
                final(store).host().model,
                final(building).snapshot,
            )
            &&& final(building).groups == old(building).groups
            &&& final(building).term_groups == old(building).term_groups
        },
        result matches Err(error) ==> !old(store).host().reliable || catalogs_fail(
            (old(store).host().model, old(building).state()),
            error,
        ),
{
    let ghost base = store.host().model;
    proof {
        finishing_keeps(base, building.snapshot, building.catalog@.levels, 0);
    }
    building.catalog.finish(store, &mut building.snapshot)?;
    if let Some(anchors) = &mut building.anchors {
        let root: u32 = building.snapshot.root;
        building.snapshot.root = NO_BLOCK;
        let ghost middle = store.host().model;
        proof {
            finishing_keeps(middle, building.snapshot, anchors@.levels, 0);
        }
        anchors.finish(store, &mut building.snapshot)?;
        proof {
            kept_joins(base, middle, store.host().model);
        }
        building.snapshot.frontier_root = Some(building.snapshot.root);
        building.snapshot.frontier_valid = true;
        building.snapshot.root = root;
    }
    Ok(())
}

/// Builds the pages of a snapshot from the records of the sort, in memory that was
/// given for the members of a group and for the bytes of a record.
fn assemble<S: PageStore, T: GroupSort>(
    store: &mut S,
    sort: &mut T,
    snapshot: GroupSnapshot,
    anchored: bool,
    limit: usize,
    stats: &BuildStats,
    members: Vec<Member>,
    bytes: Vec<u8>,
) -> (result: Result<Building>)
    requires
        limit <= 131072,
        !snapshot.frontier_valid,
        members@.len() == 0,
    ensures
        same_host(old(store).host(), final(store).host()),
        result matches Ok(building) ==> {
            &&& canonical_kept(old(store).host().model, final(store).host().model)
            &&& building.snapshot.after == snapshot.after
            &&& building.snapshot.frontier_valid == anchored
            &&& build_made(
                old(store).host().model,
                snapshot,
                anchored,
                old(sort).pending(),
                final(store).host().model,
                building.snapshot,
            )
        },
        result matches Err(error) ==> !(old(store).host().reliable && old(sort).reliable())
            || build_fails(
            old(store).host().model,
            snapshot,
            anchored,
            old(sort).pending(),
            limit as int,
            stats.documents + stats.postings,
            stats.frontier_terms as int,
            error,
        ),
{
    let ghost base = store.host().model;
    let mut building: Building = Building {
        snapshot,
        catalog: CatalogBuilder::new(),
        anchors: if anchored {
            Some(CatalogBuilder::new())
        } else {
            None
        },
        members,
        pages: Vec::new(),
        bytes,
        current: None,
        previous: None,
        previous_root: None,
        seen: 0,
        frontier_terms: 0,
        frontier_term: None,
        groups: 0,
        term_groups: 0,
    };
    assert(building.state() =~= build_started(snapshot, anchored));
    take_rows(store, sort, &mut building, limit)?;
    let ghost rows_done = (store.host().model, building.state());
    assert(rows_taken((base, build_started(snapshot, anchored)), rows_done, old(sort).pending()));
    if building.frontier_terms != stats.frontier_terms {
        return Err(Error::InvalidState);
    }
    match stats.documents.checked_add(stats.postings) {
        Some(records) => {
            if building.seen != records {
                return Err(Error::InvalidState);
            }
        },
        None => {
            return Err(Error::Limit("group records"));
        },
    }
    let ghost taken = store.host().model;
    building.seal(store)?;
    proof {
        kept_joins(base, taken, store.host().model);
    }
    let ghost sealed = store.host().model;
    let ghost group_done = (sealed, building.state());
    assert(group_sealed(rows_done, group_done));
    finish_catalogs(store, &mut building)?;
    proof {
        kept_joins(base, sealed, store.host().model);
        assert(rows_taken((base, build_started(snapshot, anchored)), rows_done, old(sort).pending()));
        assert(group_sealed(rows_done, group_done));
    }
    Ok(building)
}

/// Whether both recoveries were made and everything live was captured.
#[verifier::opaque]
pub open spec fn gathered(
    before: StoreModel,
    after: StoreModel,
    anchored: bool,
    stats: BuildStats,
    owner: Option<OwnerRef>,
) -> bool {
    let first = group_recovered(before);
    let second = recovered(first.model);
    &&& first.value is Ok
    &&& second.value is Ok
    &&& after == second.model
    &&& captured(second.model, anchored) matches Ok(all) && {
        &&& stats.documents == all.documents
        &&& stats.postings == all.postings
        &&& stats.frontier_terms == all.frontier
        &&& owner == all.after
    }
}

/// Whether publishing the snapshot gives the final pages, with the pages written
/// counted.
#[verifier::opaque]
pub open spec fn concluded(
    built: StoreModel,
    after: StoreModel,
    snapshot: GroupSnapshot,
    written: u32,
) -> bool {
    let published = snapshot_published(built, snapshot);
    &&& published.model == after
    &&& published.value matches Ok((_, pages)) && pages == written
}

/// Whether a snapshot of the captured owners was built beside the canonical
/// pages and published.
pub open spec fn rebuilt(
    before: StoreModel,
    after: StoreModel,
    anchored: bool,
    stats: BuildStats,
    captured: StoreModel,
    built: StoreModel,
    snapshot: GroupSnapshot,
) -> bool {
    &&& gathered(before, captured, anchored, stats, snapshot.after)
    &&& snapshot.frontier_valid == anchored
    &&& built_of_captured(captured, anchored, built, snapshot)
    &&& canonical_kept(captured, built)
    &&& canonical_kept(captured, after)
    &&& concluded(built, after, snapshot, stats.written_pages)
}

/// Whether some snapshot was built and published so.
#[verifier::opaque]
pub open spec fn rebuilds(
    before: StoreModel,
    after: StoreModel,
    anchored: bool,
    stats: BuildStats,
) -> bool {
    exists|captured: StoreModel, built: StoreModel, snapshot: GroupSnapshot| #[trigger]
        rebuilt(before, after, anchored, stats, captured, built, snapshot)
}

/// The pages that both recoveries free.
pub open spec fn recovered_pages(before: StoreModel) -> int {
    let first = group_recovered(before);
    first.value->Ok_0 + recovered(first.model).value->Ok_0
}

/// Why gathering fails: a recovery does, or what is live cannot be captured.
#[verifier::opaque]
pub open spec fn gather_fails(before: StoreModel, anchored: bool, error: Error) -> bool {
    let first = group_recovered(before);
    let second = recovered(first.model);
    match first.value {
        Err(refused) => error == refused,
        Ok(_) => match second.value {
            Err(refused) => error == refused,
            Ok(_) => if recovered_pages(before) > u32::MAX {
                error == Error::Limit("group recovery pages")
            } else {
                captured(second.model, anchored) matches Err(refused) && error == refused
            },
        },
    }
}

/// Recovers interrupted work and hands everything live to the sort.
fn gather<S: PageStore, T: GroupSort>(store: &mut S, sort: &mut T) -> (result: Result<
    (BuildStats, Option<OwnerRef>),
>)
    ensures
        same_host(old(store).host(), final(store).host()),
        final(sort).reliable() == old(sort).reliable(),
        result matches Ok((stats, after)) ==> {
            &&& gathered(
                old(store).host().model,
                final(store).host().model,
                old(store).host().anchored,
                stats,
                after,
            )
            &&& captured(final(store).host().model, old(store).host().anchored) matches Ok(all)
                && final(sort).held() == old(sort).held() + all.records && after == all.after
        },
        result matches Ok((stats, _)) ==> stats.reclaimed_pages == recovered_pages(
            old(store).host().model,
        ),
        result matches Err(error) ==> !(old(store).host().reliable && old(sort).reliable())
            || gather_fails(old(store).host().model, old(store).host().anchored, error),
{
    proof {
        reveal(gather_fails);
    }
    let first: u32 = recover(store)?;
    let second: u32 = recover_compaction(store)?;
    let reclaimed_pages: u32 = match first.checked_add(second) {
        Some(sum) => sum,
        None => {
            return Err(Error::Limit("group recovery pages"));
        },
    };
    let (stats, after): (BuildStats, Option<OwnerRef>) = capture(store, sort)?;
    proof {
        reveal(gathered);
    }
    Ok((BuildStats { reclaimed_pages, ..stats }, after))
}

/// Why the journal cannot be taken, or no snapshot built in its segment.
#[verifier::opaque]
pub open spec fn preparation_fails(
    base: StoreModel,
    after: Option<OwnerRef>,
    anchored: bool,
    rows: Seq<Seq<u8>>,
    limit: int,
    stats: BuildStats,
    error: Error,
) -> bool {
    let begun = group_begun(base, after);
    match begun.value {
        Err(refused) => error == refused,
        Ok(first) => build_fails(
            begun.model,
            first,
            anchored,
            rows,
            limit,
            stats.documents + stats.postings,
            stats.frontier_terms as int,
            error,
        ),
    }
}

/// Takes the journal and builds the snapshot in its segment.
fn prepare<S: PageStore, T: GroupSort>(
    store: &mut S,
    sort: &mut T,
    after: Option<OwnerRef>,
    anchored: bool,
    limit: usize,
    stats: &BuildStats,
) -> (result: Result<Building>)
    requires
        limit <= 131072,
    ensures
        same_host(old(store).host(), final(store).host()),
        result matches Ok(building) ==> {
            &&& canonical_kept(old(store).host().model, final(store).host().model)
            &&& building.snapshot.after == after
            &&& building.snapshot.frontier_valid == anchored
            &&& group_begun(old(store).host().model, after).value matches Ok(first) && build_made(
                group_begun(old(store).host().model, after).model,
                first,
                anchored,
                old(sort).pending(),
                final(store).host().model,
                building.snapshot,
            )
        },
        result matches Err(error) ==> !(old(store).host().reliable && old(sort).reliable()) || (error
            == Error::Allocation && group_begun(old(store).host().model, after).value is Ok)
            || preparation_fails(
            old(store).host().model,
            after,
            anchored,
            old(sort).pending(),
            limit as int,
            *stats,
            error,
        ),
{
    let ghost base = store.host().model;
    proof {
        reveal(preparation_fails);
        beginning_keeps(base, after);
    }
    let snapshot: GroupSnapshot = begin(store, after)?;
    let ghost begun = store.host().model;
    let mut members: Vec<Member> = Vec::new();
    let mut bytes: Vec<u8> = Vec::new();
    if !try_reserve_exact(&mut members, limit) || !try_reserve_exact(&mut bytes, MEMBER_BYTES) {
        return Err(Error::Allocation);
    }
    let building: Building = assemble(
        store,
        sort,
        snapshot,
        anchored,
        limit,
        stats,
        members,
        bytes,
    )?;
    proof {
        kept_joins(base, begun, store.host().model);
    }
    Ok(building)
}

/// Publishes a built snapshot.
fn conclude<S: PageStore>(store: &mut S, snapshot: &GroupSnapshot) -> (result: Result<(u32, u32)>)
    ensures
        same_host(old(store).host(), final(store).host()),
        result matches Ok((_, written)) ==> {
            &&& canonical_kept(old(store).host().model, final(store).host().model)
            &&& concluded(
                old(store).host().model,
                final(store).host().model,
                *snapshot,
                written,
            )
        },
        result matches Ok((reclaimed, written)) ==> snapshot_published(
            old(store).host().model,
            *snapshot,
        ).value == Ok::<(u32, u32), Error>((reclaimed, written)),
        result matches Err(error) ==> !old(store).host().reliable || snapshot_published(
            old(store).host().model,
            *snapshot,
        ).value == Err::<(u32, u32), Error>(error),
{
    proof {
        reveal(concluded);
        publishing_keeps(store.host().model, *snapshot);
    }
    publish(store, snapshot)
}

/// Why a built snapshot cannot be published, or what was done cannot be counted.
#[verifier::opaque]
pub open spec fn conclusion_fails(
    before: StoreModel,
    captured: StoreModel,
    built: StoreModel,
    snapshot: GroupSnapshot,
    error: Error,
) -> bool {
    let published = snapshot_published(built, snapshot);
    match published.value {
        Err(refused) => error == refused,
        Ok((reclaimed, written)) => {
            let extended = published.model.pages.len() - captured.pages.len();
            ||| extended < 0 && error == Error::InvalidState
            ||| recovered_pages(before) + reclaimed > u32::MAX && error == Error::Limit("group pages")
            ||| written < extended && error == Error::InvalidState
        },
    }
}

/// Whether both recoveries succeed and everything live can be captured.
pub open spec fn gathers(before: StoreModel, anchored: bool) -> bool {
    let first = group_recovered(before);
    let second = recovered(first.model);
    &&& first.value is Ok
    &&& second.value is Ok
    &&& recovered_pages(before) <= u32::MAX
    &&& captured(second.model, anchored) is Ok
}

/// Whether a rebuild comes to its own allocations: everything was gathered and a
/// segment begun.
#[verifier::opaque]
pub open spec fn build_begins(before: StoreModel, anchored: bool) -> bool {
    let base = recovered(group_recovered(before).model).model;
    gathers(before, anchored) && group_begun(base, captured(base, anchored)->Ok_0.after).value is Ok
}

/// A failure to gather is the only outcome where gathering fails.
pub proof fn gathering_failure_is_final(before: StoreModel, anchored: bool, error: Error)
    requires
        !gathers(before, anchored),
        rebuild_fails(before, anchored, error),
    ensures
        gather_fails(before, anchored, error),
        !build_begins(before, anchored),
{
    reveal(rebuild_fails);
    reveal(build_begins);
}

proof fn build_begun(
    before: StoreModel,
    base: StoreModel,
    anchored: bool,
    stats: BuildStats,
    after: Option<OwnerRef>,
)
    requires
        gathered(before, base, anchored, stats, after),
        recovered_pages(before) <= u32::MAX,
        group_begun(base, after).value is Ok,
    ensures
        build_begins(before, anchored),
{
    reveal(gathered);
    reveal(build_begins);
}

/// Why a rebuild fails with ample memory and a host and a sort that do not:
/// gathering does, or the segment cannot be begun, or the captured records, in
/// order, do not build a snapshot, or the built snapshot cannot be concluded.
#[verifier::opaque]
pub open spec fn rebuild_fails(before: StoreModel, anchored: bool, error: Error) -> bool {
    let base = recovered(group_recovered(before).model).model;
    let limit = 256 * before.layout.max_offset();
    gather_fails(before, anchored, error) || (gathers(before, anchored) && {
        let all = captured(base, anchored)->Ok_0;
        ||| exists|rows: Seq<Seq<u8>>, stats: BuildStats| #[trigger]
            preparation_fails(base, all.after, anchored, rows, limit, stats, error)
                && records_ascend(rows) && rows.to_multiset() == all.records.to_multiset()
                && stats.documents == all.documents && stats.postings == all.postings
                && stats.frontier_terms == all.frontier
        ||| exists|built: StoreModel, snapshot: GroupSnapshot| #[trigger]
            built_of_captured(base, anchored, built, snapshot) && conclusion_fails(
                before,
                base,
                built,
                snapshot,
                error,
            )
    })
}

proof fn gathering_failed(before: StoreModel, anchored: bool, error: Error)
    requires
        gather_fails(before, anchored, error),
    ensures
        rebuild_fails(before, anchored, error),
{
    reveal(rebuild_fails);
}

proof fn preparing_failed(
    before: StoreModel,
    base: StoreModel,
    anchored: bool,
    rows: Seq<Seq<u8>>,
    stats: BuildStats,
    after: Option<OwnerRef>,
    error: Error,
)
    requires
        gathered(before, base, anchored, stats, after),
        recovered_pages(before) <= u32::MAX,
        records_ascend(rows),
        rows.to_multiset() == captured(base, anchored)->Ok_0.records.to_multiset(),
        preparation_fails(
            base,
            after,
            anchored,
            rows,
            256 * before.layout.max_offset(),
            stats,
            error,
        ),
    ensures
        rebuild_fails(before, anchored, error),
{
    reveal(rebuild_fails);
    reveal(gathered);
}

proof fn conclusion_refused(
    before: StoreModel,
    base: StoreModel,
    built: StoreModel,
    snapshot: GroupSnapshot,
    error: Error,
)
    requires
        snapshot_published(built, snapshot).value == Err::<(u32, u32), Error>(error),
    ensures
        conclusion_fails(before, base, built, snapshot, error),
{
    reveal(conclusion_fails);
}

proof fn uncounted(
    before: StoreModel,
    base: StoreModel,
    built: StoreModel,
    snapshot: GroupSnapshot,
    after: StoreModel,
    written: u32,
    error: Error,
)
    requires
        concluded(built, after, snapshot, written),
        ({
            let extended = after.pages.len() - base.pages.len();
            let reclaimed = snapshot_published(built, snapshot).value->Ok_0.0;
            ||| extended < 0 && error == Error::InvalidState
            ||| recovered_pages(before) + reclaimed > u32::MAX && error == Error::Limit("group pages")
            ||| written < extended && error == Error::InvalidState
        }),
    ensures
        conclusion_fails(before, base, built, snapshot, error),
{
    reveal(conclusion_fails);
    reveal(concluded);
}

proof fn concluding_failed(
    before: StoreModel,
    base: StoreModel,
    anchored: bool,
    stats: BuildStats,
    after: Option<OwnerRef>,
    built: StoreModel,
    snapshot: GroupSnapshot,
    error: Error,
)
    requires
        gathered(before, base, anchored, stats, after),
        recovered_pages(before) <= u32::MAX,
        built_of_captured(base, anchored, built, snapshot),
        conclusion_fails(before, base, built, snapshot, error),
    ensures
        rebuild_fails(before, anchored, error),
{
    reveal(rebuild_fails);
    reveal(gathered);
}

/// Builds a complete supplemental snapshot under exclusive reader and writer
/// barriers. No canonical page is removed; publication changes only grouped
/// metadata. Resident core scratch is bounded by `memory_bytes`; host sort memory
/// is separate.
///
/// # Errors
/// Rejects incomplete coverage, duplicate live coordinates, corruption and host
/// errors. Errors leave the old snapshot active or the complete new snapshot
/// published. Recovery frees interrupted output; callers must not retry using the
/// consumed sort.
#[verifier::rlimit(60)]
#[verifier::spinoff_prover]
pub fn rebuild<S: PageStore, T: GroupSort>(store: &mut S, sort: &mut T, memory_bytes: usize) -> (result:
    Result<BuildStats>)
    requires
        old(sort).held().len() == 0,
    ensures
        same_host(old(store).host(), final(store).host()),
        result matches Ok(stats) ==> rebuilds(
            old(store).host().model,
            final(store).host().model,
            old(store).host().anchored,
            stats,
        ),
        memory_bytes < build_room(old(store).host().model.layout, old(store).host().anchored)
            ==> result == Err::<BuildStats, Error>(Error::Limit("group build scratch"))
            && final(store).host() == old(store).host(),
        result matches Err(error) ==> {
            ||| memory_bytes < build_room(old(store).host().model.layout, old(store).host().anchored)
            ||| !(old(store).host().reliable && old(sort).reliable())
            ||| error == Error::Allocation && build_begins(
                old(store).host().model,
                old(store).host().anchored,
            )
            ||| rebuild_fails(old(store).host().model, old(store).host().anchored, error)
        },
{
    let ghost before = store.host().model;
    let anchored: bool = store.frontier_anchors();
    let layout: HeapLayout = store.layout();
    let limit: usize = 256 * layout.max_offset() as usize;
    let required: usize = if anchored {
        build_memory_with_anchors(layout)
    } else {
        build_memory(layout)
    };
    if memory_bytes < required {
        return Err(Error::Limit("group build scratch"));
    }
    let (stats, after): (BuildStats, Option<OwnerRef>) = match gather(store, sort) {
        Ok(all) => all,
        Err(error) => {
            proof {
                if old(store).host().reliable && old(sort).reliable() {
                    gathering_failed(before, anchored, error);
                }
            }
            return Err(error);
        },
    };
    let ghost base = store.host().model;
    let ghost records = sort.held();
    sort.finish()?;
    let ghost rows = sort.pending();
    store.event(Stage::GroupSortReady)?;
    let blocks: u32 = store.blocks()?;
    proof {
        let all = captured(base, anchored)->Ok_0;
        assert(old(sort).held() =~= Seq::<Seq<u8>>::empty());
        assert(Seq::<Seq<u8>>::empty() + all.records =~= all.records);
        assert(records_ascend(rows));
    }
    let building: Building = match prepare(store, sort, after, anchored, limit, &stats) {
        Ok(building) => building,
        Err(error) => {
            proof {
                if old(store).host().reliable && old(sort).reliable() {
                    if error == Error::Allocation && group_begun(base, after).value is Ok {
                        build_begun(before, base, anchored, stats, after);
                    } else {
                        preparing_failed(before, base, anchored, rows, stats, after, error);
                    }
                }
            }
            return Err(error);
        },
    };
    let ghost built = store.host().model;
    proof {
        assert(built_of_captured(base, anchored, built, building.snapshot));
    }
    let (reclaimed, written): (u32, u32) = match conclude(store, &building.snapshot) {
        Ok(done) => done,
        Err(error) => {
            proof {
                if old(store).host().reliable {
                    conclusion_refused(before, base, built, building.snapshot, error);
                    concluding_failed(
                        before,
                        base,
                        anchored,
                        stats,
                        after,
                        built,
                        building.snapshot,
                        error,
                    );
                }
            }
            return Err(error);
        },
    };
    proof {
        kept_joins(base, built, store.host().model);
    }
    let now: u32 = store.blocks()?;
    let ghost end = building.snapshot;
    if now < blocks {
        proof {
            uncounted(before, base, built, end, store.host().model, written, Error::InvalidState);
            concluding_failed(before, base, anchored, stats, after, built, end, Error::InvalidState);
        }
        return Err(Error::InvalidState);
    }
    let extended: u32 = now - blocks;
    let reclaimed_pages: u32 = match stats.reclaimed_pages.checked_add(reclaimed) {
        Some(sum) => sum,
        None => {
            proof {
                let error = Error::Limit("group pages");
                uncounted(before, base, built, end, store.host().model, written, error);
                concluding_failed(before, base, anchored, stats, after, built, end, error);
            }
            return Err(Error::Limit("group pages"));
        },
    };
    if written < extended {
        proof {
            uncounted(before, base, built, end, store.host().model, written, Error::InvalidState);
            concluding_failed(before, base, anchored, stats, after, built, end, Error::InvalidState);
        }
        return Err(Error::InvalidState);
    }
    let done: BuildStats = BuildStats {
        groups: building.groups,
        term_groups: building.term_groups,
        reclaimed_pages,
        written_pages: written,
        reused_pages: written - extended,
        ..stats
    };
    assert(gathered(old(store).host().model, base, anchored, done, building.snapshot.after)) by {
        reveal(gathered);
    }
    proof {
        reveal(rebuilds);
        assert(rebuilt(
            old(store).host().model,
            store.host().model,
            anchored,
            done,
            base,
            built,
            building.snapshot,
        ));
    }
    Ok(done)
}

} // verus!
