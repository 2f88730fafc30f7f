//! What holds between storing and reading owners and grouped state.

use super::grouped_model::{
    delta_magic, delta_state, delta_state_code, group_delta_at, group_delta_code, group_deltas,
    group_deltas_code, group_journal_at, group_journal_code, group_retired_at, group_retired_code,
    group_retirees, group_retirees_code, owner_slot_at, owner_slot_code, single_code, single_magic,
    single_state, snapshot_at, snapshot_code, unstorable_delta, zeros, GroupDelta, GroupJournal,
    GroupModel, GroupRetired, GroupSnapshot,
};
use super::laws::owner_ref_round_trip;
use super::model::{
    owner_record, relocated, Image, OwnerModel, OwnerRef, RewritePhase, INLINE_BYTES, NO_BLOCK,
};
use crate::codec::bytes::{
    group_bytes, le_inside, le_shift, le_u16, le_u16_of_bytes, le_u32, le_u32_of_bytes, le_u64,
    le_u64_of_bytes, splice_fields, splice_u16, u16_bytes, u32_bytes, u64_bytes,
};
use crate::codec::records::Publication;
use crate::error::Error;
use crate::identity::{coordinate_error, group_identity, HeapLayout, Incarnation, RootTid};
use vstd::prelude::*;

verus! {

broadcast use {group_bytes, group_identity};

/// Equal bytes hold equal numbers.
pub proof fn le_equal(left: Seq<u8>, at: int, right: Seq<u8>, place: int, len: int)
    requires
        0 <= at,
        0 <= place,
        0 <= len,
        at + len <= left.len(),
        place + len <= right.len(),
        left.subrange(at, at + len) == right.subrange(place, place + len),
    ensures
        len >= 2 ==> le_u16(left, at) == le_u16(right, place),
        len >= 4 ==> le_u32(left, at) == le_u32(right, place),
        len >= 8 ==> le_u64(left, at) == le_u64(right, place),
{
    le_shift(left, at, len);
    le_shift(right, place, len);
}

pub(crate) proof fn relocated_bytes(bytes: Seq<u8>, slots: nat)
    requires
        20 + 40 * slots <= bytes.len(),
        relocated(bytes, slots) is Ok,
    ensures
        ({
            let moved = relocated(bytes, slots)->Ok_0;
            &&& moved.len() == bytes.len()
            &&& forall|s: int|
                0 <= s < slots ==> #[trigger] le_u16(moved, 52 + 40 * s) == (if le_u16(
                    bytes,
                    52 + 40 * s,
                ) == 0 {
                    0
                } else {
                    le_u16(bytes, 52 + 40 * s) + 40
                })
            &&& forall|i: int|
                0 <= i < bytes.len() && (i < 20 || i >= 20 + 40 * slots || !(32 <= (i - 20) % 40
                    < 34)) ==> moved[i] == bytes[i]
        }),
    decreases slots,
{
    if slots > 0 {
        let few = (slots - 1) as nat;
        relocated_bytes(bytes, few);
        let before = relocated(bytes, few)->Ok_0;
        let moved = relocated(bytes, slots)->Ok_0;
        let at: int = 52 + 40 * few as int;
        let offset = le_u16(before, at);
        assert(before.subrange(at, at + 2) =~= bytes.subrange(at, at + 2));
        le_equal(before, at, bytes, at, 2);
        if offset != 0 {
            splice_u16(before, at, (offset + 40) as u16);
            assert forall|s: int| 0 <= s < few implies #[trigger] le_u16(moved, 52 + 40 * s)
                == le_u16(before, 52 + 40 * s) by {
                splice_fields(before, at, u16_bytes((offset + 40) as u16), 52 + 40 * s);
            }
        }
        assert forall|s: int| 0 <= s < slots implies #[trigger] le_u16(moved, 52 + 40 * s) == (
        if le_u16(bytes, 52 + 40 * s) == 0 {
            0
        } else {
            le_u16(bytes, 52 + 40 * s) + 40
        }) by {
            if s < few {
                assert(le_u16(moved, 52 + 40 * s) == le_u16(before, 52 + 40 * s));
            }
        }
    }
}

/// A new owner reads back with what it was given, allocated and not live.
pub proof fn append_owner_reads_back(
    image: Image,
    incarnation: Incarnation,
    root: RootTid,
    tokens: u32,
    terms: u32,
    payload: Seq<u8>,
    layout: HeapLayout,
)
    requires
        image.appended_owner(incarnation, root, tokens, terms, payload) matches Ok(Some(_)),
        incarnation.get() != 0,
        coordinate_error(root.block(), root.offset(), layout) is None,
    ensures
        ({
            let (reference, after) = image.appended_owner(
                incarnation,
                root,
                tokens,
                terms,
                payload,
            )->Ok_0->Some_0;
            &&& after.owner_count() == Ok::<u16, Error>((reference.slot + 1) as u16)
            &&& after.owner(reference.slot, layout) == Ok::<OwnerModel, Error>(
                OwnerModel {
                    reference,
                    root,
                    publication: Publication::Allocated,
                    live: false,
                    tokens,
                    terms,
                    data_head: NO_BLOCK,
                    data_bytes: payload.len() as u32,
                    inline: if payload.len() <= INLINE_BYTES {
                        payload
                    } else {
                        Seq::empty()
                    },
                },
            )
        }),
{
    let (reference, after) = image.appended_owner(
        incarnation,
        root,
        tokens,
        terms,
        payload,
    )->Ok_0->Some_0;
    let count = image.owner_count()->Ok_0;
    let at = 20 + count * 40;
    let moved = relocated(image.bytes, count as nat)->Ok_0;
    relocated_bytes(image.bytes, count as nat);
    let inline = if payload.len() <= INLINE_BYTES {
        payload
    } else {
        Seq::empty()
    };
    let place = image.bytes.len() + 40;
    let inline_offset: u16 = if inline.len() == 0 {
        0
    } else {
        place as u16
    };
    let record = owner_record(
        incarnation,
        root,
        tokens,
        terms,
        payload.len() as u32,
        inline_offset,
        inline.len() as u16,
    );
    let joined = moved.take(at) + record + moved.skip(at) + inline;
    let bytes = after.bytes;
    assert(record.len() == 40);
    splice_u16(joined, 16, (count + 1) as u16);
    splice_fields(joined, 16, u16_bytes((count + 1) as u16), 18);
    assert(joined.subrange(18, 20) =~= image.bytes.subrange(18, 20));
    le_equal(joined, 18, image.bytes, 18, 2);
    assert(bytes.subrange(at, at + 40) =~= record);
    record_fields(
        bytes,
        at,
        incarnation,
        root,
        tokens,
        terms,
        payload.len() as u32,
        inline_offset,
        inline.len() as u16,
    );
    if inline.len() != 0 {
        assert(bytes.subrange(place as int, (place + inline.len()) as int) =~= inline);
    }
}

proof fn record_fields(
    bytes: Seq<u8>,
    at: int,
    incarnation: Incarnation,
    root: RootTid,
    tokens: u32,
    terms: u32,
    data_bytes: u32,
    inline_offset: u16,
    inline_len: u16,
)
    requires
        0 <= at,
        at + 40 <= bytes.len(),
        bytes.subrange(at, at + 40) == owner_record(
            incarnation,
            root,
            tokens,
            terms,
            data_bytes,
            inline_offset,
            inline_len,
        ),
    ensures
        le_u64(bytes, at) == incarnation.get(),
        le_u32(bytes, at + 8) == root.block(),
        le_u16(bytes, at + 12) == root.offset(),
        bytes[at + 14] == 0,
        bytes[at + 15] == 0,
        le_u32(bytes, at + 16) == tokens,
        le_u32(bytes, at + 20) == terms,
        le_u32(bytes, at + 24) == NO_BLOCK,
        le_u32(bytes, at + 28) == data_bytes,
        le_u16(bytes, at + 32) == inline_offset,
        le_u16(bytes, at + 34) == inline_len,
        le_u32(bytes, at + 36) == 0,
{
    let record = bytes.subrange(at, at + 40);
    assert(bytes.subrange(at, at + 8) =~= record.subrange(0, 8));
    assert(record.subrange(0, 8) =~= u64_bytes(incarnation.get()));
    assert(bytes.subrange(at + 8, at + 12) =~= record.subrange(8, 12));
    assert(record.subrange(8, 12) =~= u32_bytes(root.block()));
    assert(bytes.subrange(at + 12, at + 14) =~= record.subrange(12, 14));
    assert(record.subrange(12, 14) =~= u16_bytes(root.offset()));
    assert(bytes[at + 14] == record[14] && bytes[at + 15] == record[15]);
    assert(bytes.subrange(at + 16, at + 20) =~= record.subrange(16, 20));
    assert(record.subrange(16, 20) =~= u32_bytes(tokens));
    assert(bytes.subrange(at + 20, at + 24) =~= record.subrange(20, 24));
    assert(record.subrange(20, 24) =~= u32_bytes(terms));
    assert(bytes.subrange(at + 24, at + 28) =~= record.subrange(24, 28));
    assert(record.subrange(24, 28) =~= u32_bytes(NO_BLOCK));
    assert(bytes.subrange(at + 28, at + 32) =~= record.subrange(28, 32));
    assert(record.subrange(28, 32) =~= u32_bytes(data_bytes));
    assert(bytes.subrange(at + 32, at + 34) =~= record.subrange(32, 34));
    assert(record.subrange(32, 34) =~= u16_bytes(inline_offset));
    assert(bytes.subrange(at + 34, at + 36) =~= record.subrange(34, 36));
    assert(record.subrange(34, 36) =~= u16_bytes(inline_len));
    assert(bytes.subrange(at + 36, at + 40) =~= record.subrange(36, 40));
    assert(record.subrange(36, 40) =~= u32_bytes(0));
    le_u64_of_bytes(bytes, at, incarnation.get());
    le_u32_of_bytes(bytes, at + 8, root.block());
    le_u16_of_bytes(bytes, at + 12, root.offset());
    le_u32_of_bytes(bytes, at + 16, tokens);
    le_u32_of_bytes(bytes, at + 20, terms);
    le_u32_of_bytes(bytes, at + 24, NO_BLOCK);
    le_u32_of_bytes(bytes, at + 28, data_bytes);
    le_u16_of_bytes(bytes, at + 32, inline_offset);
    le_u16_of_bytes(bytes, at + 34, inline_len);
    le_u32_of_bytes(bytes, at + 36, 0);
}

/// Appending an owner leaves every earlier owner as it was, inline payload included.
pub proof fn append_owner_keeps_others(
    image: Image,
    incarnation: Incarnation,
    root: RootTid,
    tokens: u32,
    terms: u32,
    payload: Seq<u8>,
    layout: HeapLayout,
    slot: u16,
)
    requires
        image.appended_owner(incarnation, root, tokens, terms, payload) matches Ok(Some(_)),
        slot < image.owner_count()->Ok_0,
        image.owner(slot, layout) is Ok,
    ensures
        image.appended_owner(
            incarnation,
            root,
            tokens,
            terms,
            payload,
        )->Ok_0->Some_0.1.owner(slot, layout) == image.owner(slot, layout),
{
    let after = image.appended_owner(
        incarnation,
        root,
        tokens,
        terms,
        payload,
    )->Ok_0->Some_0.1;
    let old_bytes = image.bytes;
    let count = image.owner_count()->Ok_0;
    let at = 20 + count * 40;
    let moved = relocated(image.bytes, count as nat)->Ok_0;
    relocated_bytes(image.bytes, count as nat);
    let inline = if payload.len() <= INLINE_BYTES {
        payload
    } else {
        Seq::empty()
    };
    let place = image.bytes.len() + 40;
    let record = owner_record(
        incarnation,
        root,
        tokens,
        terms,
        payload.len() as u32,
        if inline.len() == 0 {
            0
        } else {
            place as u16
        },
        inline.len() as u16,
    );
    let joined = moved.take(at) + record + moved.skip(at) + inline;
    let bytes = after.bytes;
    assert(record.len() == 40);
    splice_u16(joined, 16, (count + 1) as u16);
    splice_fields(joined, 16, u16_bytes((count + 1) as u16), 18);
    assert(joined.subrange(18, 20) =~= old_bytes.subrange(18, 20));
    le_equal(joined, 18, old_bytes, 18, 2);
    let spot = 20 + slot * 40;
    assert(bytes.subrange(spot, spot + 32) =~= old_bytes.subrange(spot, spot + 32));
    assert(bytes.subrange(spot + 34, spot + 40) =~= old_bytes.subrange(spot + 34, spot + 40));
    inside_equal(bytes, spot, old_bytes, 32);
    inside_tail(bytes, spot + 34, old_bytes);
    assert(bytes[spot + 14] == bytes.subrange(spot, spot + 32)[14]);
    assert(bytes[spot + 15] == bytes.subrange(spot, spot + 32)[15]);
    assert(old_bytes[spot + 14] == old_bytes.subrange(spot, spot + 32)[14]);
    assert(old_bytes[spot + 15] == old_bytes.subrange(spot, spot + 32)[15]);
    assert(bytes.subrange(spot + 32, spot + 34) =~= moved.subrange(spot + 32, spot + 34));
    le_equal(bytes, spot + 32, moved, spot + 32, 2);
    assert(le_u16(moved, 52 + 40 * slot) == le_u16(moved, spot + 32));
    let from = le_u16(old_bytes, spot + 32) as int;
    let len = le_u16(old_bytes, spot + 34) as int;
    if len != 0 {
        assert(bytes.subrange(from + 40, from + 40 + len) =~= old_bytes.subrange(from, from + len));
    }
}

proof fn inside_equal(left: Seq<u8>, at: int, right: Seq<u8>, len: int)
    requires
        0 <= at,
        len == 32,
        at + len <= left.len(),
        at + len <= right.len(),
        left.subrange(at, at + len) == right.subrange(at, at + len),
    ensures
        le_u64(left, at) == le_u64(right, at),
        le_u32(left, at + 8) == le_u32(right, at + 8),
        le_u16(left, at + 12) == le_u16(right, at + 12),
        le_u32(left, at + 16) == le_u32(right, at + 16),
        le_u32(left, at + 20) == le_u32(right, at + 20),
        le_u32(left, at + 24) == le_u32(right, at + 24),
        le_u32(left, at + 28) == le_u32(right, at + 28),
{
    le_inside(left, at, len, 0);
    le_inside(right, at, len, 0);
    le_inside(left, at, len, 8);
    le_inside(right, at, len, 8);
    le_inside(left, at, len, 12);
    le_inside(right, at, len, 12);
    le_inside(left, at, len, 16);
    le_inside(right, at, len, 16);
    le_inside(left, at, len, 20);
    le_inside(right, at, len, 20);
    le_inside(left, at, len, 24);
    le_inside(right, at, len, 24);
    le_inside(left, at, len, 28);
    le_inside(right, at, len, 28);
}

proof fn inside_tail(left: Seq<u8>, at: int, right: Seq<u8>)
    requires
        0 <= at,
        at + 6 <= left.len(),
        at + 6 <= right.len(),
        left.subrange(at, at + 6) == right.subrange(at, at + 6),
    ensures
        le_u16(left, at) == le_u16(right, at),
        le_u32(left, at + 2) == le_u32(right, at + 2),
{
    le_inside(left, at, 6, 0);
    le_inside(right, at, 6, 0);
    le_inside(left, at, 6, 2);
    le_inside(right, at, 6, 2);
}

/// Whether every number in the state is one that its type can hold.
pub open spec fn state_typed(state: GroupModel) -> bool {
    &&& state.deltas.len() == 16
    &&& state.retired.len() == 17
    &&& state.active matches Some(active) ==> snapshot_typed(active)
    &&& state.journal matches Some(journal) ==> journal.id.get() != 0
    &&& forall|i: int|
        0 <= i < 16 && (#[trigger] state.deltas[i]) is Some ==> snapshot_typed(
            state.deltas[i]->Some_0.snapshot,
        ) && owner_typed(state.deltas[i]->Some_0.before)
    &&& forall|i: int|
        0 <= i < 17 && (#[trigger] state.retired[i]) is Some ==> state.retired[i]->Some_0.id.get()
            != 0
}

pub open spec fn owner_typed(owner: Option<OwnerRef>) -> bool {
    owner matches Some(owner) ==> owner.incarnation.get() != 0
}

pub open spec fn snapshot_typed(snapshot: GroupSnapshot) -> bool {
    snapshot.id.get() != 0 && owner_typed(snapshot.after)
}

/// Whether an optional owner reference can be stored.
pub open spec fn owner_storable(owner: Option<OwnerRef>) -> bool {
    owner matches Some(owner) ==> owner.valid()
}

proof fn owner_slot_round_trip(bytes: Seq<u8>, at: int, owner: Option<OwnerRef>)
    requires
        0 <= at,
        at + 16 <= bytes.len(),
        bytes.subrange(at, at + 16) == owner_slot_code(owner),
        owner_typed(owner),
        owner_storable(owner),
    ensures
        owner_slot_at(bytes, at) == Ok::<Option<OwnerRef>, Error>(owner),
{
    let slot = bytes.subrange(at, at + 16);
    if let Some(reference) = owner {
        assert(slot.subrange(0, 16) =~= slot);
        owner_ref_round_trip(slot, 0, reference);
        if slot == zeros(16) {
            reveal(le_u32);
            assert(slot[0] == 0 && slot[1] == 0 && slot[2] == 0 && slot[3] == 0);
            assert(le_u32(slot, 0) == 0);
            assert(false);
        }
    }
}

proof fn snapshot_round_trip(bytes: Seq<u8>, at: int, snapshot: Option<GroupSnapshot>)
    requires
        0 <= at,
        at + 48 <= bytes.len(),
        bytes.subrange(at, at + 48) == snapshot_code(snapshot),
        snapshot matches Some(value) ==> snapshot_typed(value) && owner_storable(value.after)
            && value.frontier_root != Some(0u32),
    ensures
        snapshot_at(bytes, at) == Ok::<Option<GroupSnapshot>, Error>(snapshot),
{
    let code = bytes.subrange(at, at + 48);
    let (id, head, tail, root, frontier, flag, after): (
        u64,
        u32,
        u32,
        u32,
        u32,
        u32,
        Option<OwnerRef>,
    ) = match snapshot {
        Some(value) => (
            value.id.get(),
            value.head,
            value.tail,
            value.root,
            match value.frontier_root {
                Some(root) => root,
                None => 0,
            },
            if value.frontier_valid {
                1
            } else {
                0
            },
            value.after,
        ),
        None => (0, NO_BLOCK, NO_BLOCK, NO_BLOCK, 0, 0, None),
    };
    assert(code =~= u64_bytes(id) + u32_bytes(head) + u32_bytes(tail) + u32_bytes(root)
        + u32_bytes(frontier) + u32_bytes(flag) + u32_bytes(0) + owner_slot_code(after));
    assert(bytes.subrange(at, at + 8) =~= code.subrange(0, 8));
    assert(code.subrange(0, 8) =~= u64_bytes(id));
    assert(bytes.subrange(at + 8, at + 12) =~= code.subrange(8, 12));
    assert(code.subrange(8, 12) =~= u32_bytes(head));
    assert(bytes.subrange(at + 12, at + 16) =~= code.subrange(12, 16));
    assert(code.subrange(12, 16) =~= u32_bytes(tail));
    assert(bytes.subrange(at + 16, at + 20) =~= code.subrange(16, 20));
    assert(code.subrange(16, 20) =~= u32_bytes(root));
    assert(bytes.subrange(at + 20, at + 24) =~= code.subrange(20, 24));
    assert(code.subrange(20, 24) =~= u32_bytes(frontier));
    assert(bytes.subrange(at + 24, at + 28) =~= code.subrange(24, 28));
    assert(code.subrange(24, 28) =~= u32_bytes(flag));
    assert(bytes.subrange(at + 28, at + 32) =~= code.subrange(28, 32));
    assert(code.subrange(28, 32) =~= u32_bytes(0));
    assert(bytes.subrange(at + 32, at + 48) =~= code.subrange(32, 48));
    assert(code.subrange(32, 48) =~= owner_slot_code(after));
    le_u64_of_bytes(bytes, at, id);
    le_u32_of_bytes(bytes, at + 8, head);
    le_u32_of_bytes(bytes, at + 12, tail);
    le_u32_of_bytes(bytes, at + 16, root);
    le_u32_of_bytes(bytes, at + 20, frontier);
    le_u32_of_bytes(bytes, at + 24, flag);
    le_u32_of_bytes(bytes, at + 28, 0);
    owner_slot_round_trip(bytes, at + 32, after);
}

proof fn group_journal_round_trip(bytes: Seq<u8>, at: int, journal: Option<GroupJournal>)
    requires
        0 <= at,
        at + 24 <= bytes.len(),
        bytes.subrange(at, at + 24) == group_journal_code(journal),
        journal matches Some(value) ==> value.id.get() != 0,
    ensures
        group_journal_at(bytes, at) == Ok::<Option<GroupJournal>, Error>(journal),
{
    let code = bytes.subrange(at, at + 24);
    let (id, head, tail, phase): (u64, u32, u32, u32) = match journal {
        Some(value) => (
            value.id.get(),
            value.head,
            value.tail,
            match value.phase {
                RewritePhase::Building => 1,
                RewritePhase::Retiring => 2,
            },
        ),
        None => (0, NO_BLOCK, NO_BLOCK, 0),
    };
    assert(code =~= u64_bytes(id) + u32_bytes(head) + u32_bytes(tail) + u32_bytes(phase)
        + u32_bytes(0));
    assert(bytes.subrange(at, at + 8) =~= code.subrange(0, 8));
    assert(code.subrange(0, 8) =~= u64_bytes(id));
    assert(bytes.subrange(at + 8, at + 12) =~= code.subrange(8, 12));
    assert(code.subrange(8, 12) =~= u32_bytes(head));
    assert(bytes.subrange(at + 12, at + 16) =~= code.subrange(12, 16));
    assert(code.subrange(12, 16) =~= u32_bytes(tail));
    assert(bytes.subrange(at + 16, at + 20) =~= code.subrange(16, 20));
    assert(code.subrange(16, 20) =~= u32_bytes(phase));
    assert(bytes.subrange(at + 20, at + 24) =~= code.subrange(20, 24));
    assert(code.subrange(20, 24) =~= u32_bytes(0));
    le_u64_of_bytes(bytes, at, id);
    le_u32_of_bytes(bytes, at + 8, head);
    le_u32_of_bytes(bytes, at + 12, tail);
    le_u32_of_bytes(bytes, at + 16, phase);
    le_u32_of_bytes(bytes, at + 20, 0);
}

proof fn code_lengths(
    snapshot: Option<GroupSnapshot>,
    owner: Option<OwnerRef>,
    journal: Option<GroupJournal>,
    delta: Option<GroupDelta>,
    retired: Option<GroupRetired>,
)
    ensures
        snapshot_code(snapshot).len() == 48,
        owner_slot_code(owner).len() == 16,
        group_journal_code(journal).len() == 24,
        group_delta_code(delta).len() == 72,
        group_retired_code(retired).len() == 16,
{
    if let Some(value) = snapshot {
        if let Some(owner) = value.after {
            assert(owner.code().len() == 16);
        }
    }
    if let Some(value) = delta {
        if let Some(owner) = value.snapshot.after {
            assert(owner.code().len() == 16);
        }
        if let Some(owner) = value.before {
            assert(owner.code().len() == 16);
        }
    }
    if let Some(owner) = owner {
        assert(owner.code().len() == 16);
    }
}

proof fn group_delta_round_trip(bytes: Seq<u8>, at: int, delta: Option<GroupDelta>)
    requires
        0 <= at,
        at + 72 <= bytes.len(),
        bytes.subrange(at, at + 72) == group_delta_code(delta),
        delta matches Some(value) ==> snapshot_typed(value.snapshot) && owner_typed(value.before)
            && owner_storable(value.snapshot.after) && owner_storable(value.before)
            && value.snapshot.frontier_root != Some(0u32),
    ensures
        group_delta_at(bytes, at) == Ok::<Option<GroupDelta>, Error>(delta),
{
    let code = bytes.subrange(at, at + 72);
    let (snapshot, before, level): (Option<GroupSnapshot>, Option<OwnerRef>, u8) = match delta {
        Some(value) => (Some(value.snapshot), value.before, value.level),
        None => (None, None, 0),
    };
    code_lengths(snapshot, before, None, delta, None);
    assert(code =~= snapshot_code(snapshot) + owner_slot_code(before) + seq![level] + zeros(7));
    assert(bytes.subrange(at, at + 48) =~= code.subrange(0, 48));
    assert(code.subrange(0, 48) =~= snapshot_code(snapshot));
    assert(bytes.subrange(at + 48, at + 64) =~= code.subrange(48, 64));
    assert(code.subrange(48, 64) =~= owner_slot_code(before));
    assert(bytes[at + 64] == code[64]);
    assert(bytes.subrange(at + 65, at + 72) =~= code.subrange(65, 72));
    assert(code.subrange(65, 72) =~= zeros(7));
    snapshot_round_trip(bytes, at, snapshot);
    owner_slot_round_trip(bytes, at + 48, before);
}

proof fn group_retired_round_trip(bytes: Seq<u8>, at: int, retired: Option<GroupRetired>)
    requires
        0 <= at,
        at + 16 <= bytes.len(),
        bytes.subrange(at, at + 16) == group_retired_code(retired),
        retired matches Some(value) ==> value.id.get() != 0,
    ensures
        group_retired_at(bytes, at) == Ok::<Option<GroupRetired>, Error>(retired),
{
    let code = bytes.subrange(at, at + 16);
    let (id, head, tail): (u64, u32, u32) = match retired {
        Some(value) => (value.id.get(), value.head, value.tail),
        None => (0, NO_BLOCK, NO_BLOCK),
    };
    assert(bytes.subrange(at, at + 8) =~= code.subrange(0, 8));
    assert(code.subrange(0, 8) =~= u64_bytes(id));
    assert(bytes.subrange(at + 8, at + 12) =~= code.subrange(8, 12));
    assert(code.subrange(8, 12) =~= u32_bytes(head));
    assert(bytes.subrange(at + 12, at + 16) =~= code.subrange(12, 16));
    assert(code.subrange(12, 16) =~= u32_bytes(tail));
    le_u64_of_bytes(bytes, at, id);
    le_u32_of_bytes(bytes, at + 8, head);
    le_u32_of_bytes(bytes, at + 12, tail);
}

/// Whether the deltas up to `count` can be stored.
pub open spec fn deltas_storable(deltas: Seq<Option<GroupDelta>>) -> bool {
    forall|i: int|
        0 <= i < deltas.len() && (#[trigger] deltas[i]) is Some ==> {
            let delta = deltas[i]->Some_0;
            &&& snapshot_typed(delta.snapshot)
            &&& owner_typed(delta.before)
            &&& owner_storable(delta.snapshot.after)
            &&& owner_storable(delta.before)
            &&& delta.snapshot.frontier_root != Some(0u32)
        }
}

proof fn group_deltas_round_trip(bytes: Seq<u8>, deltas: Seq<Option<GroupDelta>>)
    requires
        80 + 72 * deltas.len() <= bytes.len(),
        bytes.subrange(80, (80 + 72 * deltas.len()) as int) == group_deltas_code(deltas),
        deltas_storable(deltas),
    ensures
        group_deltas(bytes, deltas.len()) == Ok::<Seq<Option<GroupDelta>>, Error>(deltas),
        group_deltas_code(deltas).len() == 72 * deltas.len(),
    decreases deltas.len(),
{
    if deltas.len() == 0 {
        assert(deltas =~= Seq::empty());
    } else {
        let few = deltas.drop_last();
        let n = few.len() as int;
        let code = group_deltas_code(deltas);
        code_lengths(None, None, None, deltas.last(), None);
        assert(code.len() == 72 * deltas.len());
        assert(group_deltas_code(few).len() == 72 * n);
        assert(bytes.subrange(80, 80 + 72 * n) =~= code.subrange(0, 72 * n));
        assert(code.subrange(0, 72 * n) =~= group_deltas_code(few));
        assert forall|i: int| 0 <= i < few.len() && (#[trigger] few[i]) is Some implies {
            let delta = few[i]->Some_0;
            &&& snapshot_typed(delta.snapshot)
            &&& owner_typed(delta.before)
            &&& owner_storable(delta.snapshot.after)
            &&& owner_storable(delta.before)
            &&& delta.snapshot.frontier_root != Some(0u32)
        } by {
            assert(deltas[i] == few[i]);
        }
        group_deltas_round_trip(bytes, few);
        assert(bytes.subrange(80 + 72 * n, 80 + 72 * n + 72) =~= code.subrange(
            72 * n,
            72 * n + 72,
        ));
        assert(code.subrange(72 * n, 72 * n + 72) =~= group_delta_code(deltas.last()));
        assert(deltas[n] == deltas.last());
        group_delta_round_trip(bytes, 80 + 72 * n, deltas.last());
        assert(few.push(deltas.last()) =~= deltas);
    }
}

proof fn group_retirees_round_trip(bytes: Seq<u8>, retired: Seq<Option<GroupRetired>>)
    requires
        1232 + 16 * retired.len() <= bytes.len(),
        bytes.subrange(1232, (1232 + 16 * retired.len()) as int) == group_retirees_code(retired),
        forall|i: int|
            0 <= i < retired.len() && (#[trigger] retired[i]) is Some
                ==> retired[i]->Some_0.id.get() != 0,
    ensures
        group_retirees(bytes, retired.len()) == Ok::<Seq<Option<GroupRetired>>, Error>(retired),
        group_retirees_code(retired).len() == 16 * retired.len(),
    decreases retired.len(),
{
    if retired.len() == 0 {
        assert(retired =~= Seq::empty());
    } else {
        let few = retired.drop_last();
        let n = few.len() as int;
        let code = group_retirees_code(retired);
        assert(code.len() == 16 * retired.len());
        assert(group_retirees_code(few).len() == 16 * n);
        assert(bytes.subrange(1232, 1232 + 16 * n) =~= code.subrange(0, 16 * n));
        assert(code.subrange(0, 16 * n) =~= group_retirees_code(few));
        assert forall|i: int| 0 <= i < few.len() && (#[trigger] few[i]) is Some implies few[i]->Some_0.id.get()
            != 0 by {
            assert(retired[i] == few[i]);
        }
        group_retirees_round_trip(bytes, few);
        assert(bytes.subrange(1232 + 16 * n, 1232 + 16 * n + 16) =~= code.subrange(
            16 * n,
            16 * n + 16,
        ));
        assert(code.subrange(16 * n, 16 * n + 16) =~= group_retired_code(retired.last()));
        assert(retired[n] == retired.last());
        group_retired_round_trip(bytes, 1232 + 16 * n, retired.last());
        assert(few.push(retired.last()) =~= retired);
    }
}

proof fn list_code_lengths(deltas: Seq<Option<GroupDelta>>, retired: Seq<Option<GroupRetired>>)
    ensures
        group_deltas_code(deltas).len() == 72 * deltas.len(),
        group_retirees_code(retired).len() == 16 * retired.len(),
    decreases deltas.len() + retired.len(),
{
    if deltas.len() > 0 {
        code_lengths(None, None, None, deltas.last(), None);
        list_code_lengths(deltas.drop_last(), retired);
    } else if retired.len() > 0 {
        list_code_lengths(deltas, retired.drop_last());
    }
}

proof fn delta_state_round_trip(state: GroupModel)
    requires
        state_typed(state),
        state.valid(),
        state.active matches Some(active) ==> owner_storable(active.after),
        deltas_storable(state.deltas),
    ensures
        delta_state(delta_state_code(state)) == Ok::<GroupModel, Error>(state),
        delta_state_code(state).len() == 1504,
{
    let code = delta_state_code(state);
    list_code_lengths(state.deltas, state.retired);
    code_lengths(state.active, None, state.journal, None, None);
    assert(code.len() == 1504);
    assert(code.take(4) =~= delta_magic());
    assert(code.subrange(4, 6) =~= u16_bytes(1));
    assert(code.subrange(6, 8) =~= u16_bytes(0));
    le_u16_of_bytes(code, 4, 1);
    le_u16_of_bytes(code, 6, 0);
    assert(code.subrange(8, 56) =~= snapshot_code(state.active));
    assert(code.subrange(56, 80) =~= group_journal_code(state.journal));
    assert(code.subrange(80, 1232) =~= group_deltas_code(state.deltas));
    assert(code.subrange(1232, 1504) =~= group_retirees_code(state.retired));
    snapshot_round_trip(code, 8, state.active);
    group_journal_round_trip(code, 56, state.journal);
    group_deltas_round_trip(code, state.deltas);
    group_retirees_round_trip(code, state.retired);
}

proof fn single_round_trip(state: GroupModel)
    requires
        state_typed(state),
        state.valid(),
        !state.has_deltas(),
        !state.has_retired(),
        state.active matches Some(active) ==> owner_storable(active.after),
    ensures
        single_state(single_code(state)) == Ok::<GroupModel, Error>(state),
        single_code(state).len() == 72,
{
    let code = single_code(state);
    let (id, head, tail, root, frontier, flag, version, after): (
        u64,
        u32,
        u32,
        u32,
        u32,
        u16,
        u16,
        Option<OwnerRef>,
    ) = match state.active {
        Some(active) => (
            active.id.get(),
            active.head,
            active.tail,
            active.root,
            match active.frontier_root {
                Some(root) => root,
                None => 0,
            },
            if active.frontier_valid {
                1
            } else {
                0
            },
            if active.frontier_root is Some {
                2
            } else {
                1
            },
            active.after,
        ),
        None => (0, NO_BLOCK, NO_BLOCK, NO_BLOCK, 0, 0, 1, None),
    };
    code_lengths(None, after, state.journal, None, None);
    assert(code =~= single_magic() + u16_bytes(version) + u16_bytes(flag) + u64_bytes(id)
        + u32_bytes(head) + u32_bytes(tail) + u32_bytes(root) + u32_bytes(frontier)
        + owner_slot_code(after) + group_journal_code(state.journal));
    assert(code.take(4) =~= single_magic());
    assert(code.subrange(4, 6) =~= u16_bytes(version));
    assert(code.subrange(6, 8) =~= u16_bytes(flag));
    assert(code.subrange(8, 16) =~= u64_bytes(id));
    assert(code.subrange(16, 20) =~= u32_bytes(head));
    assert(code.subrange(20, 24) =~= u32_bytes(tail));
    assert(code.subrange(24, 28) =~= u32_bytes(root));
    assert(code.subrange(28, 32) =~= u32_bytes(frontier));
    assert(code.subrange(32, 48) =~= owner_slot_code(after));
    assert(code.subrange(48, 72) =~= group_journal_code(state.journal));
    le_u16_of_bytes(code, 4, version);
    le_u16_of_bytes(code, 6, flag);
    le_u64_of_bytes(code, 8, id);
    le_u32_of_bytes(code, 16, head);
    le_u32_of_bytes(code, 20, tail);
    le_u32_of_bytes(code, 24, root);
    le_u32_of_bytes(code, 28, frontier);
    owner_slot_round_trip(code, 32, after);
    group_journal_round_trip(code, 48, state.journal);
    assert forall|i: int| 0 <= i < 16 implies (#[trigger] state.deltas[i]) is None by {}
    assert forall|i: int| 0 <= i < 17 implies (#[trigger] state.retired[i]) is None by {}
    assert(state.deltas =~= GroupModel::none().deltas);
    assert(state.retired =~= GroupModel::none().retired);
}

proof fn storable_deltas(state: GroupModel, count: nat)
    requires
        state_typed(state),
        state.valid(),
        unstorable_delta(state.deltas, count) is None,
        count <= 16,
    ensures
        deltas_storable(state.deltas.take(count as int)),
    decreases count,
{
    if count > 0 {
        storable_deltas(state, (count - 1) as nat);
        let few = state.deltas.take(count - 1);
        let many = state.deltas.take(count as int);
        assert forall|i: int| 0 <= i < many.len() && (#[trigger] many[i]) is Some implies {
            let delta = many[i]->Some_0;
            &&& snapshot_typed(delta.snapshot)
            &&& owner_typed(delta.before)
            &&& owner_storable(delta.snapshot.after)
            &&& owner_storable(delta.before)
            &&& delta.snapshot.frontier_root != Some(0u32)
        } by {
            assert(state.deltas[i] is Some);
            if i < count - 1 {
                assert(few[i] == many[i]);
            }
        }
    }
}

/// Grouped state reads back as it was stored.
pub proof fn grouped_state_round_trip(image: Image, state: GroupModel)
    requires
        image.bytes.len() >= 4160,
        state_typed(state),
        image.stored_state(state) is Ok,
    ensures
        ({
            let code = image.stored_state(state)->Ok_0;
            let after = Image { bytes: image.bytes.take(4160) + code, ..image };
            after.grouped_state() == Ok::<GroupModel, Error>(state)
        }),
{
    let code = image.stored_state(state)->Ok_0;
    let after = Image { bytes: image.bytes.take(4160) + code, ..image };
    assert(after.bytes.subrange(32, 40) =~= image.bytes.subrange(32, 40));
    le_equal(after.bytes, 32, image.bytes, 32, 8);
    if !state.has_deltas() && !state.has_retired() {
        single_round_trip(state);
    } else {
        storable_deltas(state, 16);
        assert(state.deltas.take(16) =~= state.deltas);
        delta_state_round_trip(state);
    }
    assert(after.bytes.subrange(4160, after.bytes.len() as int) =~= code);
}

} // verus!
