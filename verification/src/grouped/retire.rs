//! Retirement by a stable physical-death predicate, not snapshot visibility.
//! Edits are staged before a private liveness image is modified.

use super::bitmap::{
    bitmap_at, bitmap_len, entries_packed, entry_len, entry_packed, entry_start, layout_width,
    offsets_len, payload_end, span_inside, Bitmap, BitmapKind, BitmapModel,
};
use super::members::{
    page_mask, root_page, root_within, same_mask, Member, Members, MembersModel,
};
use super::{header_at, GroupKey, OffsetMask};
use crate::callbacks::RootFilter;
use crate::codec::bytes::{group_bytes, le_u16, le_u32, le_u64};
use crate::error::{Error, Result};
use crate::identity::{coordinate_error, group_identity, RootTid};
use crate::mask::{
    byte_bit, count, count_below, count_grows, mask_next, masks_equal, member,
    members as mask_members, members_range, Pages,
};
use crate::mutable::page::laws_state::le_equal;
use vstd::prelude::*;

verus! {

broadcast use {group_bytes, group_identity, GroupKey::of_parts};

proof fn byte_cleared(byte: u8, bit: u8, other: u8)
    requires
        bit < 8,
        other < 8,
    ensures
        byte_bit(byte & !(1u8 << bit), other as int) == (other != bit && byte_bit(
            byte,
            other as int,
        )),
        (byte & (1u8 << bit) != 0) == byte_bit(byte, bit as int),
{
    assert(bit < 8 && other < 8 ==> {
        &&& (((byte & !(1u8 << bit)) >> other) & 1u8 == 1u8) == (other != bit && (byte >> other)
            & 1u8 == 1u8)
        &&& (byte & (1u8 << bit) != 0) == ((byte >> bit) & 1u8 == 1u8)
    }) by (bit_vector);
}

/// Records with the same first bytes have the same header.
pub proof fn same_header(left: Seq<u8>, right: Seq<u8>)
    requires
        left.len() == right.len(),
        left.len() >= 72,
        left.take(72) == right.take(72),
    ensures
        header_at(left) == header_at(right),
{
    assert(left.take(4) =~= left.take(72).take(4));
    assert(right.take(4) =~= right.take(72).take(4));
    assert(left[6] == left.take(72)[6] && right[6] == right.take(72)[6]);
    assert(left[7] == left.take(72)[7] && right[7] == right.take(72)[7]);
    field_same(left, right, 4, 2);
    field_same(left, right, 8, 4);
    field_same(left, right, 12, 4);
    field_same(left, right, 16, 8);
    field_same(left, right, 24, 8);
    field_same(left, right, 32, 2);
    field_same(left, right, 34, 2);
    field_same(left, right, 36, 4);
    field_same(left, right, 40, 8);
    field_same(left, right, 48, 8);
    field_same(left, right, 56, 8);
    field_same(left, right, 64, 8);
}

proof fn field_same(left: Seq<u8>, right: Seq<u8>, at: int, len: int)
    requires
        left.len() == right.len(),
        left.len() >= 72,
        left.take(72) == right.take(72),
        0 <= at,
        0 <= len,
        at + len <= 72,
    ensures
        len >= 2 ==> le_u16(left, at) == le_u16(right, at),
        len >= 4 ==> le_u32(left, at) == le_u32(right, at),
        len >= 8 ==> le_u64(left, at) == le_u64(right, at),
{
    assert(left.subrange(at, at + len) =~= left.take(72).subrange(at, at + len));
    assert(right.subrange(at, at + len) =~= right.take(72).subrange(at, at + len));
    le_equal(left, at, right, at, len);
}

proof fn same_entries(left: Seq<u8>, right: Seq<u8>, body: int, index: int)
    requires
        left.len() == right.len(),
        body <= left.len(),
        left.take(body) == right.take(body),
        0 <= index,
        76 + 4 * index <= body,
    ensures
        entry_start(left, index) == entry_start(right, index),
        entry_len(left, index) == entry_len(right, index),
        left[75 + 4 * index] == right[75 + 4 * index],
{
    let at = 72 + 4 * index;
    assert(left.subrange(at, at + 2) =~= left.take(body).subrange(at, at + 2));
    assert(right.subrange(at, at + 2) =~= right.take(body).subrange(at, at + 2));
    le_equal(left, at, right, at, 2);
    assert(left[at + 2] == left.take(body)[at + 2] && right[at + 2] == right.take(body)[at + 2]);
    assert(left[at + 3] == left.take(body)[at + 3] && right[at + 3] == right.take(body)[at + 3]);
}

proof fn same_payload_end(left: Seq<u8>, right: Seq<u8>, body: int, index: int)
    requires
        left.len() == right.len(),
        body <= left.len(),
        left.take(body) == right.take(body),
        0 <= index,
        72 + 4 * index <= body,
    ensures
        payload_end(left, index) == payload_end(right, index),
    decreases index,
{
    if index > 0 {
        same_payload_end(left, right, body, index - 1);
        same_entries(left, right, body, index - 1);
    }
}

/// A record whose payloads alone change keeps its header and its spans.
pub proof fn same_directory(left: Seq<u8>, right: Seq<u8>)
    requires
        left.len() == right.len(),
        bitmap_at(left) is Ok,
        left.take(72 + 4 * count(bitmap_at(left)->Ok_0.mask) as int) == right.take(
            72 + 4 * count(bitmap_at(left)->Ok_0.mask) as int,
        ),
    ensures
        bitmap_at(right) == bitmap_at(left),
        forall|page: int| #[trigger]
            (BitmapModel { header: bitmap_at(left)->Ok_0, bytes: left }).span(page) == (
            BitmapModel { header: bitmap_at(left)->Ok_0, bytes: right }).span(page),
{
    let header = bitmap_at(left)->Ok_0;
    let pages = count(header.mask) as int;
    let body = 72 + 4 * pages;
    let width = layout_width(header.key.layout());
    assert(left.take(72) =~= left.take(body).take(72));
    assert(right.take(72) =~= right.take(body).take(72));
    same_header(left, right);
    assert forall|k: int| 0 <= k < pages implies #[trigger] entry_packed(right, width, k) by {
        assert(entry_packed(left, width, k));
        same_entries(left, right, body, k);
        same_payload_end(left, right, body, k);
    }
    assert(entries_packed(right, width, pages));
    same_payload_end(left, right, body, pages);
    let one = BitmapModel { header, bytes: left };
    let two = BitmapModel { header, bytes: right };
    assert forall|page: int| #[trigger] one.span(page) == two.span(page) by {
        if member(header.mask, page) {
            count_grows(header.mask, page, 256);
            same_entries(left, right, body, count_below(header.mask, page) as int);
        }
    }
}

/// Payloads of different pages do not overlap.
pub proof fn spans_apart(model: BitmapModel, low: int, high: int)
    requires
        model.wf(),
        member(model.header.mask, low),
        member(model.header.mask, high),
        low < high,
    ensures
        model.span(low)->Some_0.0 + model.span(low)->Some_0.1 <= model.span(high)->Some_0.0,
{
    let mask = model.header.mask;
    let width = layout_width(model.header.key.layout());
    let first = count_below(mask, low) as int;
    let second = count_below(mask, high) as int;
    count_grows(mask, low, high);
    count_grows(mask, high, 256);
    assert(entry_packed(model.bytes, width, first));
    assert(entry_packed(model.bytes, width, second));
    ends_apart(model.bytes, first, second);
}

proof fn ends_apart(bytes: Seq<u8>, low: int, high: int)
    requires
        0 <= low < high,
    ensures
        payload_end(bytes, low) + entry_len(bytes, low) <= payload_end(bytes, high),
    decreases high - low,
{
    if low < high - 1 {
        ends_apart(bytes, low, high - 1);
    }
}

/// Whether `after` is `before` without the marks that `dead` names, and
/// nothing else changed.
pub open spec fn cleared(
    before: BitmapModel,
    after: BitmapModel,
    dead: spec_fn(int, int) -> bool,
) -> bool {
    &&& after.wf()
    &&& after.header == before.header
    &&& after.bytes.len() == before.bytes.len()
    &&& after.bytes.take(72 + 4 * count(before.header.mask) as int) == before.bytes.take(
        72 + 4 * count(before.header.mask) as int,
    )
    &&& forall|page: int, index: int|
        #![trigger after.holds(page, index)]
        after.holds(page, index) == (before.holds(page, index) && !dead(page, index))
}

/// Clearing one mark of a record clears exactly that mark.
proof fn clear_one(model: BitmapModel, page: int, bit: int)
    requires
        model.wf(),
        member(model.header.mask, page),
        0 <= bit < 8 * model.payload(page).len(),
    ensures
        ({
            let at = model.span(page)->Some_0.0 + bit / 8;
            let bytes = model.bytes.update(
                at,
                model.bytes[at] & !(1u8 << ((bit % 8) as u8)),
            );
            let after = BitmapModel { header: model.header, bytes };
            &&& 72 <= at < model.bytes.len()
            &&& cleared(model, after, |p: int, i: int| p == page && i == bit)
            &&& (model.bytes[at] & (1u8 << ((bit % 8) as u8)) != 0) == model.holds(page, bit)
        }),
{
    span_inside(model, page);
    let (start, len) = model.span(page)->Some_0;
    let at = start + bit / 8;
    let body = 72 + 4 * count(model.header.mask) as int;
    let bytes = model.bytes.update(at, model.bytes[at] & !(1u8 << ((bit % 8) as u8)));
    let after = BitmapModel { header: model.header, bytes };
    assert(bytes.take(body) =~= model.bytes.take(body));
    same_directory(model.bytes, bytes);
    byte_cleared(model.bytes[at], (bit % 8) as u8, (bit % 8) as u8);
    assert(model.payload(page)[bit / 8] == model.bytes[at]);
    let dead = |p: int, i: int| p == page && i == bit;
    assert forall|p: int, i: int|
        #![trigger after.holds(p, i)]
        after.holds(p, i) == (model.holds(p, i) && !dead(p, i)) by {
        assert(model.span(p) == after.span(p));
        if member(model.header.mask, p) {
            span_inside(model, p);
            let (other, size) = model.span(p)->Some_0;
            if p < page {
                spans_apart(model, p, page);
            } else if p > page {
                spans_apart(model, page, p);
            }
            if 0 <= i < 8 * size {
                assert(after.payload(p)[i / 8] == bytes[other + i / 8]);
                assert(model.payload(p)[i / 8] == model.bytes[other + i / 8]);
                if p == page && i / 8 == bit / 8 {
                    byte_cleared(model.bytes[at], (bit % 8) as u8, (i % 8) as u8);
                }
            }
        }
    }
}

/// Clears one matching incarnation in a private liveness image, idempotently.
/// The host must durably publish this image before the heap slot can be reused.
/// This function does not acquire locks, write logs or certify visibility.
///
/// # Errors
/// Rejects a foreign segment, unknown root or wrong owner before any mutation.
pub fn retire(members: &Members<'_>, live: &mut [u8], found: Member) -> (result: Result<bool>)
    ensures
        ({
            let page = root_page(found.root);
            let bit = found.root.offset() - 1;
            match bitmap_at(old(live)@) {
                Err(error) => result is Err && final(live)@ == old(live)@ && (
                members@.members.contains(found) ==> result == Err::<bool, Error>(error)),
                Ok(header) => {
                    let before = BitmapModel { header, bytes: old(live)@ };
                    if retirable(members@, before, found) {
                        result == Ok::<bool, Error>(before.holds(page, bit)) && cleared(
                            before,
                            BitmapModel { header, bytes: final(live)@ },
                            |p: int, i: int| p == page && i == bit,
                        )
                    } else {
                        result == Err::<bool, Error>(Error::InvalidState) && final(live)@ == old(live)@
                    }
                },
            }
        }),
{
    let total: usize = members.len();
    let known: bool = match members.find(found.root)? {
        Some(member) => member.incarnation == found.incarnation,
        None => false,
    };
    proof {
        if members@.members.contains(found) {
            let i = choose|i: int|
                0 <= i < members@.members.len() && members@.members[i] == found;
            assert(members@.members[i].root == found.root);
            assert forall|j: int|
                0 <= j < members@.members.len() && (#[trigger] members@.members[j]).root
                    == found.root implies j == i by {
                if j < i {
                    assert(members@.members[j].root.key() < members@.members[i].root.key());
                } else if j > i {
                    assert(members@.members[i].root.key() < members@.members[j].root.key());
                }
            }
        }
    }
    if !known {
        assert(!members@.members.contains(found));
        return Err(Error::InvalidState);
    }
    assert(members@.members.contains(found));
    let page: u8 = (found.root.block() % 256) as u8;
    let bit: usize = found.root.offset() as usize - 1;
    let view: Bitmap<'_> = Bitmap::open(live)?;
    let ghost before = view@;
    if view.kind() != BitmapKind::Liveness || view.key() != members.key() || !same_mask(
        view.pages(),
        members.mask(),
    ) {
        return Err(Error::InvalidState);
    }
    if view.offsets(page).is_err() {
        return Err(Error::InvalidState);
    }
    proof {
        super::members::mask_of_members(members@.members, page as int);
        let i = choose|i: int| 0 <= i < members@.members.len() && members@.members[i] == found;
        assert(root_page(members@.members[i].root) == page);
        assert(root_within(members@.key, members@.members[i].root));
        assert(members@.holds(page as int, bit as int));
        span_inside(before, page as int);
    }
    let base: u32 = members.key().base();
    let all: OffsetMask = match members.page_offsets(page) {
        Ok(all) => all,
        Err(_) => {
            assert(false);
            return Err(Error::InvalidState);
        },
    };
    let (start, len): (usize, usize) = match view.span(page) {
        Some(span) => span,
        None => {
            assert(false);
            return Err(Error::InvalidState);
        },
    };
    proof {
        super::members::member_page_fits(members@, page as int, all@);
        assert forall|mask: Seq<u64>| #[trigger]
            page_mask(members@, page as int, mask) implies mask == all@ by {
            assert forall|b: int| 0 <= b < 64 * mask.len() implies member(mask, b) == member(
                all@,
                b,
            ) by {}
            masks_equal(mask, all@);
        }
        assert(page_mask(members@, page as int, all@));
        assert(member(all@, bit as int));
        crate::mask::top_bounds(all@, 512);
    }
    let expected: usize = bitmap_len(members.key(), &all)?;
    if len != expected {
        return Err(Error::InvalidState);
    }
    let at: usize = start + bit / 8;
    let place: u8 = (bit % 8) as u8;
    proof {
        clear_one(before, page as int, bit as int);
    }
    let byte: u8 = live[at];
    let mask: u8 = 1u8 << place;
    let changed: bool = byte & mask != 0;
    live[at] = byte & !mask;
    Ok(changed)
}

/// Whether a member can be retired in a liveness record: it is known, and the
/// record belongs to the membership and is sound on its page.
pub open spec fn retirable(members: MembersModel, live: BitmapModel, found: Member) -> bool {
    let page = root_page(found.root);
    &&& members.members.contains(found)
    &&& live.kind() == BitmapKind::Liveness
    &&& live.header.key == members.key
    &&& live.header.mask == members.mask
    &&& live.payload_valid(page)
    &&& forall|mask: Seq<u64>| #[trigger]
        page_mask(members, page, mask) ==> live.payload(page).len() == offsets_len(mask)
}

/// The root at offset bit `index` of a page.
pub open spec fn page_root(key: GroupKey, page: int, index: int) -> RootTid {
    RootTid::of((key.base() + page) as u32, (index + 1) as u16)
}

/// How many marked roots of a page, from bit `index` on, a filter removes.
pub open spec fn removed_on(
    live: BitmapModel,
    page: int,
    index: int,
    removes: spec_fn(RootTid) -> bool,
) -> nat
    decreases 512 - index,
{
    if index >= 512 {
        0
    } else {
        removed_on(live, page, index + 1, removes) + if live.holds(page, index) && removes(
            page_root(live.header.key, page, index),
        ) {
            1nat
        } else {
            0
        }
    }
}

/// How many marked roots, from a page on, a filter removes.
pub open spec fn removed_from(
    live: BitmapModel,
    page: int,
    removes: spec_fn(RootTid) -> bool,
) -> nat
    decreases 256 - page,
{
    if page >= 256 {
        0
    } else {
        removed_on(live, page, 0, removes) + removed_from(live, page + 1, removes)
    }
}

/// The marked roots of a page, from bit `index` on.
pub open spec fn live_on(live: BitmapModel, page: int, index: int) -> Seq<RootTid>
    decreases 512 - index,
{
    if index >= 512 {
        Seq::empty()
    } else if live.holds(page, index) {
        seq![page_root(live.header.key, page, index)] + live_on(live, page, index + 1)
    } else {
        live_on(live, page, index + 1)
    }
}

/// The marked roots of a record from a page on, in ascending order.
pub open spec fn live_from(live: BitmapModel, page: int) -> Seq<RootTid>
    decreases 256 - page,
{
    if page >= 256 {
        Seq::empty()
    } else {
        live_on(live, page, 0) + live_from(live, page + 1)
    }
}

proof fn live_gap(live: BitmapModel, page: int, low: int, high: int)
    requires
        0 <= low <= high <= 512,
        forall|i: int| low <= i < high ==> !live.holds(page, i),
    ensures
        live_on(live, page, low) == live_on(live, page, high),
    decreases high - low,
{
    if low < high {
        live_gap(live, page, low + 1, high);
    }
}

proof fn live_absent(live: BitmapModel, low: int, high: int)
    requires
        0 <= low <= high <= 256,
        forall|page: int| low <= page < high ==> !#[trigger] member(live.header.mask, page),
    ensures
        live_from(live, low) == live_from(live, high),
    decreases high - low,
{
    if low < high {
        live_absent(live, low + 1, high);
        assert(!member(live.header.mask, low));
        assert forall|i: int| 0 <= i < 512 implies !live.holds(low, i) by {}
        live_gap(live, low, 0, 512);
        assert(live_from(live, low) =~= live_from(live, low + 1));
    }
}

proof fn removed_gap(
    live: BitmapModel,
    page: int,
    low: int,
    high: int,
    removes: spec_fn(RootTid) -> bool,
)
    requires
        0 <= low <= high <= 512,
        forall|i: int| low <= i < high ==> !live.holds(page, i),
    ensures
        removed_on(live, page, low, removes) == removed_on(live, page, high, removes),
    decreases high - low,
{
    if low < high {
        removed_gap(live, page, low + 1, high, removes);
    }
}

proof fn removed_absent(
    live: BitmapModel,
    low: int,
    high: int,
    removes: spec_fn(RootTid) -> bool,
)
    requires
        0 <= low <= high <= 256,
        forall|page: int| low <= page < high ==> !#[trigger] member(live.header.mask, page),
    ensures
        removed_from(live, low, removes) == removed_from(live, high, removes),
    decreases high - low,
{
    if low < high {
        removed_absent(live, low + 1, high, removes);
        assert(!member(live.header.mask, low));
        assert forall|i: int| 0 <= i < 512 implies !live.holds(low, i) by {}
        removed_gap(live, low, 0, 512, removes);
    }
}

/// Whether every payload of a liveness record is valid.
pub open spec fn payloads_valid(live: BitmapModel) -> bool {
    forall|page: int| #[trigger] member(live.header.mask, page) ==> live.payload_valid(page)
}

proof fn root_valid(live: BitmapModel, page: int, bit: int)
    requires
        live.wf(),
        0 <= page < 256,
        live.payload_valid(page),
        live.holds(page, bit),
    ensures
        live.header.key.block_of(page) is Ok,
        coordinate_error(
            (live.header.key.base() + page) as u32,
            (bit + 1) as u16,
            live.header.key.layout(),
        ) is None,
        0 <= bit < 512,
        live.header.key.base() + page < u32::MAX,
{
    span_inside(live, page);
    let payload = live.payload(page);
    let domain = live.header.key.layout().max_offset() as int;
    if bit >= domain {
        let tail = (domain % 8) as u8;
        assert(payload.len() <= (domain + 7) / 8);
        assert(bit / 8 == payload.len() - 1);
        crate::mask::high_bits_clear(payload.last(), tail, (bit % 8) as u8);
    }
}

/// Clears the roots of one page that the filter removes in a staged copy.
#[verifier::loop_isolation(false)]
fn retire_page<F: RootFilter>(
    view: &Bitmap<'_>,
    page: u8,
    filter: &mut F,
    staged: &mut Vec<u8>,
    Ghost(dead): Ghost<spec_fn(int, int) -> bool>,
    Ghost(removes): Ghost<spec_fn(RootTid) -> bool>,
) -> (result: Result<u32>)
    requires
        view@.wf(),
        member(view@.header.mask, page as int),
        cleared(view@, BitmapModel { header: view@.header, bytes: old(staged)@ }, dead),
        forall|root: RootTid| #[trigger] removes(root) == old(filter).removes(root),
    ensures
        forall|root: RootTid| final(filter).removes(root) == old(filter).removes(root),
        final(filter).certain() == old(filter).certain(),
        !view@.payload_valid(page as int) ==> result == Err::<u32, Error>(Error::InvalidState),
        view@.payload_valid(page as int) && old(filter).certain() ==> result is Ok,
        result matches Ok(removed) ==> {
            &&& final(filter).asked() == old(filter).asked() + live_on(view@, page as int, 0)
            &&& view@.payload_valid(page as int)
            &&& removed == removed_on(view@, page as int, 0, removes)
            &&& removed <= 512
            &&& cleared(
                view@,
                BitmapModel { header: view@.header, bytes: final(staged)@ },
                |p: int, i: int|
                    dead(p, i) || (p == page && removes(
                        page_root(view@.header.key, page as int, i),
                    )),
            )
        },
{
    let offsets: OffsetMask = view.offsets(page)?;
    let (start, len): (usize, usize) = match view.span(page) {
        Some(span) => span,
        None => {
            assert(false);
            return Err(Error::InvalidState);
        },
    };
    let key: GroupKey = view.key();
    let base: u32 = key.base();
    let ghost model = view@;
    let ghost marks = |at: int|
        {
            |p: int, i: int|
                dead(p, i) || (p == page && i < at && removes(
                    page_root(model.header.key, page as int, i),
                ))
        };
    let mut removed: u32 = 0;
    let mut at: usize = 0;
    let mut more: bool = true;
    let ghost goal = filter.asked() + live_on(model, page as int, 0);
    proof {
        let now = BitmapModel { header: model.header, bytes: staged@ };
        assert forall|p: int, i: int|
            #![trigger now.holds(p, i)]
            now.holds(p, i) == (model.holds(p, i) && !marks(0)(p, i)) by {
            if i < 0 {
                assert(!model.holds(p, i));
            }
        }
        assert(cleared(model, now, marks(0)));
    }
    while more
        invariant
            at <= 512,
            removed <= at,
            filter.certain() == old(filter).certain(),
            filter.asked() + live_on(model, page as int, at as int) == goal,
            forall|root: RootTid| #[trigger] filter.removes(root) == old(filter).removes(root),
            removed + removed_on(model, page as int, at as int, removes) == removed_on(
                model,
                page as int,
                0,
                removes,
            ),
            cleared(model, BitmapModel { header: model.header, bytes: staged@ }, marks(at as int)),
            !more ==> at == 512,
        decreases 512 - at, (if more { 1int } else { 0int }),
    {
        let next: Option<usize> = mask_next(&offsets, at);
        let ghost limit = match next {
            Some(bit) => bit as int,
            None => 512,
        };
        proof {
            members_range(offsets@, at as int);
            assert forall|i: int| at <= i < limit implies !model.holds(page as int, i) by {
                if model.holds(page as int, i) {
                    assert(member(offsets@, i));
                    assert(mask_members(offsets@, at as int).contains(i));
                    if next is Some {
                        members_range(offsets@, limit + 1);
                        let list = mask_members(offsets@, at as int);
                        let k = choose|k: int| 0 <= k < list.len() && list[k] == i;
                        assert(list[0] == limit);
                        if k > 0 {
                            assert(list[0] < list[k]);
                        }
                    }
                }
            }
            removed_gap(model, page as int, at as int, limit, removes);
            live_gap(model, page as int, at as int, limit);
            let now = BitmapModel { header: model.header, bytes: staged@ };
            assert forall|p: int, i: int|
                #![trigger now.holds(p, i)]
                now.holds(p, i) == (model.holds(p, i) && !marks(limit)(p, i)) by {}
            assert(cleared(model, now, marks(limit)));
        }
        match next {
            None => {
                at = 512;
                more = false;
            },
            Some(bit) => {
                proof {
                    assert(model.holds(page as int, bit as int));
                    root_valid(model, page as int, bit as int);
                }
                let block: u32 = match key.block(page) {
                    Ok(block) => block,
                    Err(_) => {
                        assert(false);
                        return Err(Error::InvalidState);
                    },
                };
                let root: RootTid = match RootTid::new(block, (bit + 1) as u16, key.layout()) {
                    Ok(root) => root,
                    Err(_) => {
                        assert(false);
                        return Err(Error::InvalidState);
                    },
                };
                let ghost asked = filter.asked();
                let gone: bool = filter.removable(root)?;
                proof {
                    let rest = live_on(model, page as int, bit + 1);
                    assert(root == page_root(model.header.key, page as int, bit as int));
                    assert(asked + (seq![root] + rest) =~= asked.push(root) + rest);
                }
                let ghost now = BitmapModel { header: model.header, bytes: staged@ };
                if gone {
                    let index: usize = start + bit / 8;
                    let place: u8 = (bit % 8) as u8;
                    proof {
                        same_directory(model.bytes, now.bytes);
                        assert(model.span(page as int) == now.span(page as int));
                        clear_one(now, page as int, bit as int);
                    }
                    let byte: u8 = staged[index];
                    staged.set(index, byte & !(1u8 << place));
                    removed += 1;
                }
                proof {
                    let then_model = BitmapModel { header: model.header, bytes: staged@ };
                    assert forall|p: int, i: int|
                        #![trigger then_model.holds(p, i)]
                        then_model.holds(p, i) == (model.holds(p, i) && !marks(bit + 1)(
                            p,
                            i,
                        )) by {
                        assert(now.holds(p, i) == (model.holds(p, i) && !marks(bit as int)(p, i)));
                    }
                    assert(then_model.bytes.take(72 + 4 * count(model.header.mask) as int)
                        =~= model.bytes.take(72 + 4 * count(model.header.mask) as int));
                    assert(cleared(model, then_model, marks(bit + 1)));
                }
                at = bit + 1;
            },
        }
    }
    proof {
        let now = BitmapModel { header: model.header, bytes: staged@ };
        let target = |p: int, i: int|
            dead(p, i) || (p == page && removes(page_root(model.header.key, page as int, i)));
        assert forall|p: int, i: int|
            #![trigger now.holds(p, i)]
            now.holds(p, i) == (model.holds(p, i) && !target(p, i)) by {
            assert(now.holds(p, i) == (model.holds(p, i) && !marks(512)(p, i)));
            if p == page && model.holds(p, i) {
                root_valid(model, page as int, i);
            }
        }
        assert(cleared(model, now, target));
    }
    Ok(removed)
}

/// Clears all approved roots in one exact generation's private image.
/// The filter must mean globally removable, not invisible to one snapshot.
/// The host holds the writer interlock and publishes before heap slot reuse.
///
/// # Errors
/// Rejects foreign identities, corrupt payloads and filter errors before mutation.
#[verifier::loop_isolation(false)]
pub fn retire_roots<F: RootFilter>(bytes: &mut [u8], key: GroupKey, filter: &mut F) -> (result:
    Result<u32>)
    ensures
        forall|root: RootTid| final(filter).removes(root) == old(filter).removes(root),
        final(filter).certain() == old(filter).certain(),
        match bitmap_at(old(bytes)@) {
            Err(error) => result == Err::<u32, Error>(error) && final(bytes)@ == old(bytes)@,
            Ok(header) => {
                let before = BitmapModel { header, bytes: old(bytes)@ };
                let removes = |root: RootTid| old(filter).removes(root);
                match result {
                    Ok(removed) => {
                        &&& before.kind() == BitmapKind::Liveness
                        &&& header.key == key
                        &&& payloads_valid(before)
                        &&& removed == removed_from(before, 0, removes)
                        &&& final(filter).asked() == old(filter).asked() + live_from(before, 0)
                        &&& cleared(
                            before,
                            BitmapModel { header, bytes: final(bytes)@ },
                            |p: int, i: int| old(filter).removes(page_root(key, p, i)),
                        )
                    },
                    Err(error) => {
                        &&& final(bytes)@ == old(bytes)@
                        &&& before.kind() != BitmapKind::Liveness || header.key != key ==> error
                            == Error::InvalidState
                        &&& old(filter).certain() ==> error == Error::InvalidState && (before.kind()
                            != BitmapKind::Liveness || header.key != key || !payloads_valid(before))
                    },
                }
            },
        },
{
    let view: Bitmap<'_> = Bitmap::open(bytes)?;
    if view.kind() != BitmapKind::Liveness || view.key() != key {
        return Err(Error::InvalidState);
    }
    let ghost model = view@;
    let ghost removes = |root: RootTid| old(filter).removes(root);
    let length: usize = bytes.len();
    let mut staged: Vec<u8> = Vec::new();
    staged.extend_from_slice(bytes);
    assert(staged@ =~= bytes@);
    let mut pages: Pages = Pages::new(*view.pages());
    let ghost all = pages@;
    let ghost mut done: int = 0;
    let ghost goal = filter.asked() + live_from(model, 0);
    let mut removed: u32 = 0;
    let ghost mut from: int = 0;
    let ghost marks = |below: int|
        { |p: int, i: int| p < below && removes(page_root(key, p, i)) };
    proof {
        assert(all.skip(0) =~= all);
        members_range(model.header.mask, 0);
        let now = BitmapModel { header: model.header, bytes: staged@ };
        assert forall|p: int, i: int|
            #![trigger now.holds(p, i)]
            now.holds(p, i) == (model.holds(p, i) && !marks(0)(p, i)) by {
            if p < 0 {
                assert(!member(model.header.mask, p));
            }
        }
        assert(cleared(model, now, marks(0)));
    }
    loop
        invariant
            0 <= done <= all.len(),
            pages@ == all.skip(done),
            0 <= from <= 256,
            from == (if done == 0 {
                0
            } else {
                all[done - 1] + 1
            }),
            removed <= 512 * from,
            bytes@ == old(bytes)@,
            filter.certain() == old(filter).certain(),
            filter.asked() + live_from(model, from) == goal,
            staged@.len() == length,
            forall|root: RootTid| #[trigger] filter.removes(root) == old(filter).removes(root),
            removed + removed_from(model, from, removes) == removed_from(model, 0, removes),
            forall|k: int| 0 <= k < done ==> model.payload_valid(#[trigger] all[k]),
            cleared(model, BitmapModel { header: model.header, bytes: staged@ }, marks(from)),
        decreases pages@.len(),
    {
        proof {
            if done < all.len() {
                assert(pages@[0] == all[done]);
                assert(pages@.drop_first() =~= all.skip(done + 1));
            }
        }
        let ghost next_page = if done < all.len() {
            all[done]
        } else {
            256
        };
        proof {
            assert forall|page: int| from <= page < next_page implies !#[trigger] member(
                model.header.mask,
                page,
            ) by {
                if member(model.header.mask, page) {
                    assert(all.contains(page));
                    let k = choose|k: int| 0 <= k < all.len() && all[k] == page;
                    if k < done {
                        if k < done - 1 {
                            assert(all[k] < all[done - 1]);
                        }
                    } else if k > done {
                        assert(all[done] < all[k]);
                    }
                }
            }
            if done < all.len() {
                assert(member(model.header.mask, all[done]));
                if done > 0 {
                    assert(all[done - 1] < all[done]);
                }
            }
            removed_absent(model, from, next_page, removes);
            live_absent(model, from, next_page);
            let now = BitmapModel { header: model.header, bytes: staged@ };
            assert forall|p: int, i: int|
                #![trigger now.holds(p, i)]
                now.holds(p, i) == (model.holds(p, i) && !marks(next_page)(p, i)) by {
                if from <= p < next_page {
                    assert(!member(model.header.mask, p));
                }
            }
            assert(cleared(model, now, marks(next_page)));
        }
        match pages.next() {
            None => {
                proof {
                    assert forall|page: int| #[trigger] member(model.header.mask, page) implies model.payload_valid(
                    page) by {
                        assert(all.contains(page));
                        let k = choose|k: int| 0 <= k < all.len() && all[k] == page;
                        assert(model.payload_valid(all[k]));
                    }
                    let now = BitmapModel { header: model.header, bytes: staged@ };
                    let target = |p: int, i: int| old(filter).removes(page_root(key, p, i));
                    assert forall|p: int, i: int|
                        #![trigger now.holds(p, i)]
                        now.holds(p, i) == (model.holds(p, i) && !target(p, i)) by {
                        assert(now.holds(p, i) == (model.holds(p, i) && !marks(256)(p, i)));
                        if p >= 256 {
                            assert(!member(model.header.mask, p));
                        }
                    }
                    assert(cleared(model, now, target));
                }
                let mut i: usize = 0;
                while i < length
                    invariant
                        i <= length,
                        bytes@.len() == length,
                        staged@.len() == length,
                        forall|j: int| 0 <= j < i ==> bytes@[j] == staged@[j],
                    decreases length - i,
                {
                    bytes[i] = staged[i];
                    i += 1;
                }
                assert(bytes@ =~= staged@);
                return Ok(removed);
            },
            Some(page) => {
                let ghost dead = marks(page as int);
                let ghost asked = filter.asked();
                let count: u32 = retire_page(
                    &view,
                    page,
                    filter,
                    &mut staged,
                    Ghost(dead),
                    Ghost(removes),
                )?;
                proof {
                    let now = BitmapModel { header: model.header, bytes: staged@ };
                    assert forall|p: int, i: int|
                        #![trigger now.holds(p, i)]
                        now.holds(p, i) == (model.holds(p, i) && !marks(page + 1)(p, i)) by {}
                    assert(cleared(model, now, marks(page + 1)));
                    assert(asked + (live_on(model, page as int, 0) + live_from(model, page + 1))
                        =~= filter.asked() + live_from(model, page + 1));
                    done = done + 1;
                    from = page + 1;
                }
                removed = removed + count;
            },
        }
    }
}

/// Retiring is idempotent: what was cleared stays cleared, and clearing again
/// finds nothing.
pub proof fn retire_twice(
    before: BitmapModel,
    after: BitmapModel,
    removes: spec_fn(RootTid) -> bool,
    page: int,
)
    requires
        cleared(
            before,
            after,
            |p: int, i: int| removes(page_root(before.header.key, p, i)),
        ),
        0 <= page <= 256,
    ensures
        removed_from(after, page, removes) == 0,
        page == 0 ==> cleared(
            after,
            after,
            |p: int, i: int| removes(page_root(after.header.key, p, i)),
        ),
    decreases 256 - page,
{
    if page < 256 {
        retire_twice(before, after, removes, page + 1);
        nothing_removed(before, after, removes, page, 0);
    }
}

proof fn nothing_removed(
    before: BitmapModel,
    after: BitmapModel,
    removes: spec_fn(RootTid) -> bool,
    page: int,
    index: int,
)
    requires
        cleared(
            before,
            after,
            |p: int, i: int| removes(page_root(before.header.key, p, i)),
        ),
        0 <= index <= 512,
    ensures
        removed_on(after, page, index, removes) == 0,
    decreases 512 - index,
{
    if index < 512 {
        nothing_removed(before, after, removes, page, index + 1);
        assert(after.holds(page, index) == (before.holds(page, index) && !removes(
            page_root(before.header.key, page, index),
        )));
    }
}

} // verus!
