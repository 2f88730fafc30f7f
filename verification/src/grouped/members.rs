//! One immutable owner map and one shared, clear-only liveness image per group.
//! Retirement edits private bytes only; the host must log before heap reuse.

use super::bitmap::{
    bitmap_at, bitmap_code, bitmap_len, bitmap_opens, bitmap_round_trip, encode_bitmap, key_typed,
    offsets_fit, offsets_len, page_storable, pages_mask, pages_size, pages_storable, Bitmap, BitmapKind,
    BitmapModel, PageOffsets, MAX_BITMAP_BYTES,
};
use super::{
    header_at, header_code, header_round_trip, GroupKey, Header, HeaderModel, OffsetMask, PageMask,
    GROUP_PAGES, HEADER_BYTES, MEMBERS,
};
use crate::codec::bytes::{
    get_u16, get_u32, get_u64, group_bytes, le_u16, le_u16_of_bytes, le_u32, le_u32_of_bytes,
    le_u64, le_u64_of_bytes, splice, u16_bytes, u32_bytes, u64_bytes, Writer,
};
use crate::error::{Error, Result};
use crate::identity::{coordinate_error, group_identity, Incarnation, RootTid};
use crate::mask::{
    count, empty_mask, mask_insert, masks_equal, member, members_range, none, top_below, top_bounds,
    with_member, with_member_holds, Pages,
};
use vstd::prelude::*;

verus! {

broadcast use {group_bytes, group_identity, GroupKey::of_parts};

const MEMBER_BYTES: usize = 16;

#[derive(Clone, Copy, Debug, Eq, PartialEq, Structural)]
pub struct Member {
    pub root: RootTid,
    pub incarnation: Incarnation,
}

/// The page of the group that a root lies on.
pub open spec fn root_page(root: RootTid) -> int {
    (root.block() % 256) as int
}

/// Whether a root belongs to the group.
pub open spec fn root_within(key: GroupKey, root: RootTid) -> bool {
    root.block() - root.block() % 256 == key.base() && root.offset() <= key.layout().max_offset()
}

/// The member record at `index`.
pub open spec fn member_at(bytes: Seq<u8>, key: GroupKey, index: int) -> Result<Member> {
    let at = 72 + 16 * index;
    if le_u16(bytes, at + 6) != 0 {
        Err(Error::InvalidState)
    } else if coordinate_error(le_u32(bytes, at), le_u16(bytes, at + 4), key.layout()) is Some {
        Err(Error::InvalidState)
    } else if le_u64(bytes, at + 8) == 0 {
        Err(Error::InvalidState)
    } else {
        Ok(
            Member {
                root: RootTid::of(le_u32(bytes, at), le_u16(bytes, at + 4)),
                incarnation: Incarnation::of(le_u64(bytes, at + 8)),
            },
        )
    }
}

/// The first fault among members from `index` on.
pub open spec fn check_members(
    bytes: Seq<u8>,
    key: GroupKey,
    index: int,
    total: int,
    previous: Option<RootTid>,
) -> Result<()>
    decreases total - index,
{
    if index >= total {
        Ok(())
    } else {
        match member_at(bytes, key, index) {
            Err(error) => Err(error),
            Ok(found) => if !root_within(key, found.root) {
                Err(Error::InvalidState)
            } else if previous matches Some(earlier) && earlier.key() >= found.root.key() {
                Err(Error::DuplicateDocument)
            } else {
                check_members(bytes, key, index + 1, total, Some(found.root))
            },
        }
    }
}

/// The pages that members lie on.
pub open spec fn members_mask(members: Seq<Member>) -> Seq<u64>
    decreases members.len(),
{
    if members.len() == 0 {
        none(4)
    } else {
        with_member(members_mask(members.drop_last()), root_page(members.last().root))
    }
}

/// The member records of a membership.
pub open spec fn member_list(bytes: Seq<u8>, key: GroupKey, total: nat) -> Seq<Member> {
    Seq::new(total, |i: int| member_at(bytes, key, i)->Ok_0)
}

/// The header of a sound membership record.
pub open spec fn membership_at(bytes: Seq<u8>) -> Result<HeaderModel> {
    match header_at(bytes) {
        Err(error) => Err(error),
        Ok(header) => if header.kind != MEMBERS || header.count > 256
            * header.key.layout().max_offset() || bytes.len() != 72 + 16 * header.count {
            Err(Error::InvalidState)
        } else {
            match check_members(bytes, header.key, 0, header.count as int, None) {
                Err(error) => Err(error),
                Ok(_) => if members_mask(member_list(bytes, header.key, header.count as nat))
                    != header.mask {
                    Err(Error::InvalidState)
                } else {
                    Ok(header)
                },
            }
        },
    }
}

/// A membership: its key, its pages and its members by ascending root.
#[verifier::ext_equal]
pub struct MembersModel {
    pub key: GroupKey,
    pub mask: Seq<u64>,
    pub members: Seq<Member>,
}

impl MembersModel {
    pub open spec fn wf(self) -> bool {
        &&& self.mask.len() == 4
        &&& self.mask == members_mask(self.members)
        &&& self.members.len() <= 256 * 512
        &&& self.key.base() % 256 == 0
        &&& 1 <= self.key.layout().max_offset() <= 512
        &&& forall|i: int|
            0 <= i < self.members.len() ==> root_within(
                self.key,
                (#[trigger] self.members[i]).root,
            ) && self.members[i].root.block() != u32::MAX && self.members[i].root.offset() >= 1
        &&& forall|i: int, j: int|
            0 <= i < j < self.members.len() ==> (#[trigger] self.members[i]).root.key() < (
            #[trigger] self.members[j]).root.key()
    }

    /// The first member from `index` on whose root is not before `key`.
    pub open spec fn lower_bound(self, key: int, index: int) -> int
        decreases self.members.len() - index,
    {
        if index >= self.members.len() || self.members[index].root.key() >= key {
            index
        } else {
            self.lower_bound(key, index + 1)
        }
    }

    /// Whether some member has the given root.
    pub open spec fn has_root(self, root: RootTid) -> bool {
        exists|i: int| 0 <= i < self.members.len() && (#[trigger] self.members[i]).root == root
    }

    /// Whether a member lies at offset bit `index` of a page.
    pub open spec fn holds(self, page: int, index: int) -> bool {
        exists|i: int|
            0 <= i < self.members.len() && root_page((#[trigger] self.members[i]).root) == page
                && self.members[i].root.offset() == index + 1
    }
}

/// Sorted unique coordinates; owner identity is stored once, not once per term.
#[derive(Clone, Copy)]
pub struct Members<'a> {
    bytes: &'a [u8],
    header: Header,
}

impl<'a> View for Members<'a> {
    type V = MembersModel;

    closed spec fn view(&self) -> MembersModel {
        MembersModel {
            key: self.header.key,
            mask: self.header.mask@,
            members: member_list(self.bytes@, self.header.key, self.header.count as nat),
        }
    }
}

proof fn checked_members(
    bytes: Seq<u8>,
    key: GroupKey,
    index: int,
    total: int,
    previous: Option<RootTid>,
)
    requires
        0 <= index,
        check_members(bytes, key, index, total, previous) is Ok,
    ensures
        forall|i: int|
            index <= i < total ==> (#[trigger] member_at(bytes, key, i)) is Ok && root_within(
                key,
                member_at(bytes, key, i)->Ok_0.root,
            ) && member_at(bytes, key, i)->Ok_0.root.block() != u32::MAX && member_at(
                bytes,
                key,
                i,
            )->Ok_0.root.offset() >= 1,
        forall|i: int|
            index <= i < total && previous is Some ==> previous->Some_0.key() < (
            #[trigger] member_at(bytes, key, i))->Ok_0.root.key(),
        forall|i: int, j: int|
            index <= i < j < total ==> (#[trigger] member_at(bytes, key, i))->Ok_0.root.key() < (
            #[trigger] member_at(bytes, key, j))->Ok_0.root.key(),
    decreases total - index,
{
    if index < total {
        let found = member_at(bytes, key, index)->Ok_0;
        checked_members(bytes, key, index + 1, total, Some(found.root));
    }
}

proof fn membership_wf(bytes: Seq<u8>)
    requires
        membership_at(bytes) is Ok,
    ensures
        ({
            let header = membership_at(bytes)->Ok_0;
            let members = member_list(bytes, header.key, header.count as nat);
            (MembersModel { key: header.key, mask: header.mask, members }).wf()
        }),
{
    let header = membership_at(bytes)->Ok_0;
    checked_members(bytes, header.key, 0, header.count as int, None);
    let members = member_list(bytes, header.key, header.count as nat);
    assert forall|i: int, j: int| 0 <= i < j < members.len() implies (
    #[trigger] members[i]).root.key() < (#[trigger] members[j]).root.key() by {
        assert(member_at(bytes, header.key, i)->Ok_0.root.key() < member_at(
            bytes,
            header.key,
            j,
        )->Ok_0.root.key());
    }
    assert forall|i: int| 0 <= i < members.len() implies root_within(
        header.key,
        (#[trigger] members[i]).root,
    ) && members[i].root.block() != u32::MAX && members[i].root.offset() >= 1 by {
        assert(member_at(bytes, header.key, i) is Ok);
    }
}

impl<'a> Members<'a> {
    #[verifier::type_invariant]
    closed spec fn inv(self) -> bool {
        membership_at(self.bytes@) == Ok::<HeaderModel, Error>(self.header@)
    }

    /// Validates every membership record and the exact page summary.
    /// A coordinate cannot have two different occupants in the same segment.
    ///
    /// # Errors
    /// Rejects duplicate or unordered roots, invalid owners and foreign groups.
    #[verifier::loop_isolation(false)]
    pub fn open(bytes: &'a [u8]) -> (result: Result<Self>)
        ensures
            match membership_at(bytes@) {
                Ok(header) => result matches Ok(members) && members@ == (MembersModel {
                    key: header.key,
                    mask: header.mask,
                    members: member_list(bytes@, header.key, header.count as nat),
                }) && members@.wf(),
                Err(error) => result matches Err(e) && e == error,
            },
    {
        let header: Header = Header::read(bytes)?;
        let domain: u16 = header.key.layout().max_offset();
        if header.kind != MEMBERS || header.count as usize > GROUP_PAGES * domain as usize {
            return Err(Error::InvalidState);
        }
        let total: usize = header.count as usize;
        if bytes.len() != HEADER_BYTES + total * MEMBER_BYTES {
            return Err(Error::InvalidState);
        }
        let ghost list = member_list(bytes@, header.key, total as nat);
        let mut previous: Option<RootTid> = None;
        let mut mask: PageMask = [0u64; 4];
        let mut index: usize = 0;
        assert(mask@ =~= none(4));
        assert(list.take(0) =~= Seq::empty());
        while index < total
            invariant
                index <= total,
                mask@ == members_mask(list.take(index as int)),
                check_members(bytes@, header.key, 0, total as int, None) == check_members(
                    bytes@,
                    header.key,
                    index as int,
                    total as int,
                    previous,
                ),
            decreases total - index,
        {
            let found: Member = read_member(bytes, header.key, index)?;
            if !within(header.key, found.root) {
                return Err(Error::InvalidState);
            }
            if let Some(earlier) = previous {
                if earlier.key() >= found.root.key() {
                    return Err(Error::DuplicateDocument);
                }
            }
            mask_insert(&mut mask, (found.root.block() % 256) as usize);
            previous = Some(found.root);
            index += 1;
            proof {
                assert(list.take(index as int).drop_last() =~= list.take(index - 1));
                assert(list.take(index as int).last() == found);
            }
        }
        assert(list.take(total as int) =~= list);
        let mut i: usize = 0;
        while i < 4
            invariant
                i <= 4,
                forall|j: int| 0 <= j < i ==> mask@[j] == header.mask@[j],
            decreases 4 - i,
        {
            if mask[i] != header.mask[i] {
                assert(members_mask(list)[i as int] != header.mask@[i as int]);
                return Err(Error::InvalidState);
            }
            i += 1;
        }
        assert(mask@ =~= header.mask@);
        proof {
            membership_wf(bytes@);
        }
        Ok(Members { bytes, header })
    }

    pub fn key(&self) -> (key: GroupKey)
        ensures
            key == self@.key,
    {
        self.header.key
    }

    pub fn len(&self) -> (len: usize)
        ensures
            len == self@.members.len(),
            self@.wf(),
    {
        proof {
            use_type_invariant(self);
            membership_wf(self.bytes@);
        }
        self.header.count as usize
    }

    pub fn is_empty(&self) -> (empty: bool)
        ensures
            empty == (self@.members.len() == 0),
    {
        self.header.count == 0
    }

    pub(crate) fn mask(&self) -> (mask: &PageMask)
        ensures
            mask@ == self@.mask,
    {
        &self.header.mask
    }

    /// Reads one checked owner record without heap or relation I/O.
    ///
    /// # Errors
    /// Rejects an out-of-range member index.
    pub fn get(&self, index: usize) -> (result: Result<Member>)
        ensures
            result == (if index >= self@.members.len() {
                Err(Error::InvalidParameters)
            } else {
                Ok(self@.members[index as int])
            }),
            self@.wf(),
    {
        proof {
            use_type_invariant(self);
            membership_wf(self.bytes@);
            checked_members(self.bytes@, self.header.key, 0, self.header.count as int, None);
        }
        if index >= self.header.count as usize {
            return Err(Error::InvalidParameters);
        }
        proof {
            assert(member_at(self.bytes@, self.header.key, index as int) is Ok);
        }
        read_member(self.bytes, self.header.key, index)
    }

    /// Finds the single incarnation assigned to a coordinate.
    ///
    /// # Errors
    /// Propagates a malformed membership record.
    pub fn find(&self, root: RootTid) -> (result: Result<Option<Member>>)
        ensures
            match result {
                Ok(Some(found)) => found.root == root && exists|i: int|
                    0 <= i < self@.members.len() && (#[trigger] self@.members[i]) == found,
                Ok(None) => !self@.has_root(root),
                Err(_) => false,
            },
    {
        let total: usize = self.len();
        let index: usize = self.lower_bound(root.key());
        if index == total {
            proof {
                assert forall|i: int| 0 <= i < self@.members.len() implies (
                #[trigger] self@.members[i]).root != root by {}
            }
            return Ok(None);
        }
        let found: Member = self.get(index)?;
        if found.root == root {
            assert(self@.members[index as int] == found);
            Ok(Some(found))
        } else {
            proof {
                assert forall|i: int| 0 <= i < self@.members.len() implies (
                #[trigger] self@.members[i]).root != root by {
                    if i > index {
                        assert(self@.members[index as int].root.key() < self@.members[i].root.key());
                    }
                }
            }
            Ok(None)
        }
    }

    fn lower_bound(&self, key: u64) -> (bound: usize)
        ensures
            bound <= self@.members.len(),
            forall|i: int| 0 <= i < bound ==> (#[trigger] self@.members[i]).root.key() < key,
            forall|i: int|
                bound <= i < self@.members.len() ==> (#[trigger] self@.members[i]).root.key()
                    >= key,
            self@.wf(),
    {
        let total: usize = self.len();
        let mut lo: usize = 0;
        let mut hi: usize = total;
        while lo < hi
            invariant
                lo <= hi <= total,
                total == self@.members.len(),
                self@.wf(),
                forall|i: int| 0 <= i < lo ==> (#[trigger] self@.members[i]).root.key() < key,
                forall|i: int|
                    hi <= i < total ==> (#[trigger] self@.members[i]).root.key() >= key,
            decreases hi - lo,
        {
            let mid: usize = lo + (hi - lo) / 2;
            let found: Member = match self.get(mid) {
                Ok(found) => found,
                Err(_) => {
                    assert(false);
                    return 0;
                },
            };
            if found.root.key() < key {
                proof {
                    assert forall|i: int| 0 <= i <= mid implies (
                    #[trigger] self@.members[i]).root.key() < key by {
                        if i < mid {
                            assert(self@.members[i].root.key() < self@.members[mid as int].root.key());
                        }
                    }
                }
                lo = mid + 1;
            } else {
                proof {
                    assert forall|i: int| mid <= i < total implies (
                    #[trigger] self@.members[i]).root.key() >= key by {
                        if i > mid {
                            assert(self@.members[mid as int].root.key() < self@.members[i].root.key());
                        }
                    }
                }
                hi = mid;
            }
        }
        lo
    }

    /// The offsets of a page that have members.
    #[verifier::loop_isolation(false)]
    pub(crate) fn page_offsets(&self, page: u8) -> (result: Result<OffsetMask>)
        ensures
            match self@.key.block_of(page as int) {
                Err(error) => result == Err::<OffsetMask, Error>(error),
                Ok(_) => result matches Ok(mask) && page_mask(self@, page as int, mask@),
            },
            self@.wf(),
    {
        let total: usize = self.len();
        let block: u32 = self.header.key.block(page)?;
        let first: u64 = block as u64 * 0x1_0000;
        let base: u32 = self.header.key.base();
        let mut index: usize = self.lower_bound(first);
        let ghost start = index as int;
        let mut mask: OffsetMask = [0u64; 8];
        let mut more: bool = true;
        proof {
            empty_mask(mask@);
        }
        while index < total && more
            invariant
                start <= index <= total,
                forall|i: int|
                    start <= i < index ==> (#[trigger] self@.members[i]).root.block() == block,
                forall|b: int|
                    #![trigger member(mask@, b)]
                    0 <= b < 512 ==> member(mask@, b) == (exists|i: int|
                        start <= i < index && (#[trigger] self@.members[i]).root.offset() == b + 1),
                !more ==> index < total && self@.members[index as int].root.block() != block,
            decreases total - index, (if more { 1int } else { 0int }),
        {
            let found: Member = self.get(index)?;
            if found.root.block() != block {
                more = false;
            } else {
                let bit: usize = found.root.offset() as usize - 1;
                let ghost before = mask@;
                mask_insert(&mut mask, bit);
                index += 1;
                proof {
                    assert forall|b: int|
                        #![trigger member(mask@, b)]
                        0 <= b < 512 implies member(mask@, b) == (exists|i: int|
                        start <= i < index && (#[trigger] self@.members[i]).root.offset() == b
                            + 1) by {
                        assert(member(mask@, b) == (b == bit || member(before, b)));
                        if member(before, b) {
                            let i = choose|i: int|
                                start <= i < index - 1 && (
                                #[trigger] self@.members[i]).root.offset() == b + 1;
                            assert(self@.members[i].root.offset() == b + 1);
                        }
                        if b == bit {
                            assert(self@.members[index - 1].root.offset() == b + 1);
                        }
                        if exists|i: int|
                            start <= i < index && (#[trigger] self@.members[i]).root.offset() == b
                                + 1 {
                            let i = choose|i: int|
                                start <= i < index && (#[trigger] self@.members[i]).root.offset()
                                    == b + 1;
                            if i < index - 1 {
                                assert(member(before, b));
                            }
                        }
                    }
                }
            }
        }
        proof {
            assert forall|i: int| 0 <= i < total implies ((#[trigger] self@.members[i]).root.block()
                == block) == (start <= i < index) by {
                if i < start {
                    assert(self@.members[i].root.key() < first);
                } else if i >= index {
                    if i > index {
                        assert(self@.members[index as int].root.key() < self@.members[i].root.key());
                    }
                    assert(self@.members[index as int].root.key() >= first);
                }
            }
            assert forall|b: int|
                #![trigger member(mask@, b)]
                0 <= b < 512 implies member(mask@, b) == self@.holds(page as int, b) by {
                if member(mask@, b) {
                    let i = choose|i: int|
                        start <= i < index && (#[trigger] self@.members[i]).root.offset() == b + 1;
                    assert(root_page(self@.members[i].root) == page);
                }
                if self@.holds(page as int, b) {
                    let i = choose|i: int|
                        0 <= i < self@.members.len() && root_page(
                            (#[trigger] self@.members[i]).root,
                        ) == page && self@.members[i].root.offset() == b + 1;
                    assert(root_within(self@.key, self@.members[i].root));
                    assert(self@.members[i].root.block() == block);
                }
            }
        }
        Ok(mask)
    }
}

/// Whether a mask holds exactly the members of one page.
pub open spec fn page_mask(model: MembersModel, page: int, mask: Seq<u64>) -> bool {
    &&& mask.len() == 8
    &&& forall|b: int|
        #![trigger member(mask, b)]
        0 <= b < 512 ==> member(mask, b) == model.holds(page, b)
}

fn within(key: GroupKey, root: RootTid) -> (within: bool)
    ensures
        within == root_within(key, root),
{
    root.block() - root.block() % 256 == key.base() && root.offset() <= key.layout().max_offset()
}

fn read_member(bytes: &[u8], key: GroupKey, index: usize) -> (result: Result<Member>)
    requires
        72 + 16 * index + 16 <= bytes@.len(),
        index <= 0x2_0000,
    ensures
        result == member_at(bytes@, key, index as int),
{
    let at: usize = HEADER_BYTES + index * MEMBER_BYTES;
    let length: usize = bytes.len();
    assert(at + 16 <= length);
    if get_u16(bytes, at + 6) != 0 {
        return Err(Error::InvalidState);
    }
    let root: RootTid = match RootTid::new(
        get_u32(bytes, at),
        get_u16(bytes, at + 4),
        key.layout(),
    ) {
        Ok(root) => root,
        Err(_) => {
            return Err(Error::InvalidState);
        },
    };
    let incarnation: Incarnation = match Incarnation::new(get_u64(bytes, at + 8)) {
        Ok(incarnation) => incarnation,
        Err(_) => {
            return Err(Error::InvalidState);
        },
    };
    Ok(Member { root, incarnation })
}

/// A page is present exactly when some member lies on it.
pub proof fn mask_of_members(members: Seq<Member>, page: int)
    ensures
        members_mask(members).len() == 4,
        member(members_mask(members), page) <==> exists|i: int|
            0 <= i < members.len() && root_page((#[trigger] members[i]).root) == page,
    decreases members.len(),
{
    if members.len() == 0 {
        crate::mask::mask_logic(none(4), none(4), page);
    } else {
        let few = members.drop_last();
        mask_of_members(few, page);
        with_member_holds(members_mask(few), root_page(members.last().root), page);
        if member(members_mask(few), page) {
            let i = choose|i: int| 0 <= i < few.len() && root_page((#[trigger] few[i]).root) == page;
            assert(members[i] == few[i]);
        }
        if exists|i: int| 0 <= i < members.len() && root_page((#[trigger] members[i]).root) == page {
            let i = choose|i: int|
                0 <= i < members.len() && root_page((#[trigger] members[i]).root) == page;
            if i < few.len() {
                assert(few[i] == members[i]);
            }
        }
    }
}

/// Whether entries are the pages with members, in order, each with the offsets of
/// its members.
pub open spec fn lists_pages(model: MembersModel, pages: Seq<PageOffsets>) -> bool {
    &&& pages_storable(model.key, pages, pages.len() as int)
    &&& pages_mask(pages, pages.len() as int) == model.mask
    &&& forall|k: int|
        0 <= k < pages.len() ==> page_mask(
            model,
            (#[trigger] pages[k]).page as int,
            pages[k].offsets@,
        )
}

/// Whether a liveness record of the members has the given size.
pub open spec fn record_size(model: MembersModel, size: int) -> bool {
    exists|pages: Seq<PageOffsets>| #[trigger] lists_pages(model, pages) && size == pages_size(pages)
}

/// Whether bytes are a liveness record that marks exactly the members.
pub open spec fn marks_members(bytes: Seq<u8>, model: MembersModel) -> bool {
    &&& bitmap_at(bytes) matches Ok(header) && header.key == model.key && header.kind == 2
        && header.mask == model.mask
    &&& forall|page: int|
        #![trigger member(model.mask, page)]
        member(model.mask, page) ==> marks_page(
            BitmapModel { header: bitmap_at(bytes)->Ok_0, bytes },
            model,
            page,
        )
}

/// Whether a record marks exactly the members of one page, in the fewest bytes.
pub open spec fn marks_page(live: BitmapModel, model: MembersModel, page: int) -> bool {
    &&& live.payload_valid(page)
    &&& forall|b: int|
        #![trigger live.holds(page, b)]
        0 <= b < 512 ==> live.holds(page, b) == model.holds(page, b)
    &&& forall|mask: Seq<u64>| #[trigger]
        page_mask(model, page, mask) ==> live.payload(page).len() == offsets_len(mask)
}

/// A page with members has offsets that fit the layout.
pub proof fn member_page_fits(model: MembersModel, page: int, mask: Seq<u64>)
    requires
        model.wf(),
        member(model.mask, page),
        page_mask(model, page, mask),
    ensures
        offsets_fit(model.key, mask),
{
    mask_of_members(model.members, page);
    let i = choose|i: int|
        0 <= i < model.members.len() && root_page((#[trigger] model.members[i]).root) == page;
    let b = model.members[i].root.offset() - 1;
    assert(root_within(model.key, model.members[i].root));
    assert(model.holds(page, b));
    assert(member(mask, b));
    top_bounds(mask, 512);
    let top = top_below(mask, 512);
    assert(top > b);
    assert(member(mask, top - 1));
    assert(model.holds(page, top - 1));
    let j = choose|j: int|
        0 <= j < model.members.len() && root_page((#[trigger] model.members[j]).root) == page
            && model.members[j].root.offset() == top - 1 + 1;
    assert(root_within(model.key, model.members[j].root));
}

impl<'a> Members<'a> {
    /// Collects the offsets of every page that has members.
    #[verifier::loop_isolation(false)]
    fn member_pages(&self) -> (pages: Vec<PageOffsets>)
        ensures
            pages_storable(self@.key, pages@, pages@.len() as int),
            pages_mask(pages@, pages@.len() as int) == self@.mask,
            forall|k: int|
                0 <= k < pages@.len() ==> member(self@.mask, (#[trigger] pages@[k]).page as int)
                    && page_mask(self@, pages@[k].page as int, pages@[k].offsets@),
            forall|page: int|
                #![trigger member(self@.mask, page)]
                member(self@.mask, page) ==> exists|k: int|
                    0 <= k < pages@.len() && (#[trigger] pages@[k]).page == page,
            key_typed(self@.key),
    {
        proof {
            use_type_invariant(self);
            membership_wf(self.bytes@);
        }
        let ghost model = self@;
        let mut result: Vec<PageOffsets> = Vec::new();
        let mut iter: Pages = Pages::new(self.header.mask);
        let ghost all = iter@;
        let ghost mut done: int = 0;
        assert(all.skip(0) =~= all);
        proof {
            members_range(model.mask, 0);
        }
        loop
            invariant
                0 <= done <= all.len(),
                iter@ == all.skip(done),
                result@.len() == done,
                forall|k: int|
                    0 <= k < done ==> (#[trigger] result@[k]).page == all[k] && page_mask(
                        model,
                        all[k],
                        result@[k].offsets@,
                    ),
                pages_storable(model.key, result@, done),
            decreases iter@.len(),
        {
            proof {
                if done < all.len() {
                    assert(iter@[0] == all[done]);
                    assert(iter@.drop_first() =~= all.skip(done + 1));
                }
            }
            match iter.next() {
                None => {
                    proof {
                        assert forall|page: int|
                            #![trigger member(model.mask, page)]
                            member(model.mask, page) implies exists|k: int|
                            0 <= k < result@.len() && (#[trigger] result@[k]).page == page by {
                            assert(all.contains(page));
                            let k = choose|k: int| 0 <= k < all.len() && all[k] == page;
                            assert(result@[k].page == page);
                        }
                        assert forall|k: int| 0 <= k < result@.len() implies member(
                            model.mask,
                            (#[trigger] result@[k]).page as int,
                        ) by {
                            assert(member(model.mask, all[k]));
                        }
                        collected_mask(model, result@);
                    }
                    return result;
                },
                Some(page) => {
                    let ghost before = result@;
                    proof {
                        page_is_block(self.bytes@, page as int);
                    }
                    let offsets: OffsetMask = match self.page_offsets(page) {
                        Ok(offsets) => offsets,
                        Err(_) => {
                            assert(false);
                            [0u64; 8]
                        },
                    };
                    result.push(PageOffsets { page, offsets });
                    proof {
                        member_page_fits(model, page as int, offsets@);
                        if done > 0 {
                            assert(all[done - 1] < all[done]);
                            assert(before[done - 1].page == all[done - 1]);
                        }
                        assert forall|i: int| 0 <= i < done + 1 implies #[trigger] page_storable(
                            model.key,
                            result@,
                            i,
                        ) by {
                            if i < done {
                                assert(page_storable(model.key, before, i));
                            }
                        }
                        done = done + 1;
                    }
                },
            }
        }
    }

    /// Builds initial shared liveness from the complete immutable membership.
    ///
    /// # Errors
    /// Rejects insufficient output; nothing is written then.
    pub fn encode_liveness(&self, output: &mut [u8]) -> (result: Result<usize>)
        ensures
            final(output)@.len() == old(output)@.len(),
            match result {
                Ok(size) => size <= old(output)@.len() && marks_members(
                    final(output)@.take(size as int),
                    self@,
                ) && final(output)@.skip(size as int) == old(output)@.skip(size as int)
                    && record_size(self@, size as int),
                Err(error) => error == Error::Limit("bitmap group output") && final(output)@ == old(output)@ && old(output)@.len() < MAX_BITMAP_BYTES && exists|size: int| size > old(output)@.len() && #[trigger] record_size(self@, size),
            },
    {
        let pages: Vec<PageOffsets> = self.member_pages();
        let ghost model = self@;
        let ghost code = bitmap_code(model.key, BitmapKind::Liveness, pages@);
        proof {
            bitmap_opens(model.key, BitmapKind::Liveness, pages@);
            assert(lists_pages(model, pages@));
            assert(record_size(model, pages_size(pages@)));
        }
        let size: usize = encode_bitmap(
            self.header.key,
            BitmapKind::Liveness,
            pages.as_slice(),
            output,
        )?;
        proof {
            assert(output@.take(size as int) =~= code);
            assert(output@.skip(size as int) =~= old(output)@.skip(size as int));
            coded_marks(model, pages@);
        }
        Ok(size)
    }
}

/// The record of the pages of a membership marks exactly its members.
pub proof fn coded_marks(model: MembersModel, pages: Seq<PageOffsets>)
    requires
        key_typed(model.key),
        pages_storable(model.key, pages, pages.len() as int),
        pages_mask(pages, pages.len() as int) == model.mask,
        forall|k: int|
            0 <= k < pages.len() ==> page_mask(
                model,
                (#[trigger] pages[k]).page as int,
                pages[k].offsets@,
            ),
        forall|page: int|
            #![trigger member(model.mask, page)]
            member(model.mask, page) ==> exists|k: int|
                0 <= k < pages.len() && (#[trigger] pages[k]).page == page,
    ensures
        marks_members(bitmap_code(model.key, BitmapKind::Liveness, pages), model),
{
    let code = bitmap_code(model.key, BitmapKind::Liveness, pages);
    bitmap_opens(model.key, BitmapKind::Liveness, pages);
    let live = BitmapModel { header: bitmap_at(code)->Ok_0, bytes: code };
    assert forall|page: int|
        #![trigger member(model.mask, page)]
        member(model.mask, page) implies marks_page(live, model, page) by {
        let k = choose|k: int| 0 <= k < pages.len() && (#[trigger] pages[k]).page == page;
        assert(pages[k].page == page);
        bitmap_round_trip(model.key, BitmapKind::Liveness, pages, k, 0);
        assert forall|b: int|
            #![trigger live.holds(page, b)]
            0 <= b < 512 implies live.holds(page, b) == model.holds(page, b) by {
            bitmap_round_trip(model.key, BitmapKind::Liveness, pages, k, b);
            assert(member(pages[k].offsets@, b) == model.holds(page, b));
        }
        assert forall|mask: Seq<u64>| #[trigger] page_mask(model, page, mask) implies live.payload(
            page,
        ).len() == offsets_len(mask) by {
            assert forall|b: int| 0 <= b < 64 * mask.len() implies member(mask, b) == member(
                pages[k].offsets@,
                b,
            ) by {}
            masks_equal(mask, pages[k].offsets@);
            top_bounds(mask, 512);
        }
    }
}

proof fn page_is_block(bytes: Seq<u8>, page: int)
    requires
        membership_at(bytes) is Ok,
        member(membership_at(bytes)->Ok_0.mask, page),
    ensures
        membership_at(bytes)->Ok_0.key.block_of(page) is Ok,
{
}

/// Pages that cover exactly the pages of a membership have its mask.
pub proof fn collected_mask(model: MembersModel, pages: Seq<PageOffsets>)
    requires
        model.wf(),
        pages_storable(model.key, pages, pages.len() as int),
        forall|k: int|
            0 <= k < pages.len() ==> member(model.mask, (#[trigger] pages[k]).page as int),
        forall|page: int|
            #![trigger member(model.mask, page)]
            member(model.mask, page) ==> exists|k: int|
                0 <= k < pages.len() && (#[trigger] pages[k]).page == page,
    ensures
        pages_mask(pages, pages.len() as int) == model.mask,
{
    let total = pages.len() as int;
    super::bitmap::pages_bounds(model.key, pages, total);
    let mask = pages_mask(pages, total);
    assert forall|i: int| 0 <= i < 64 * mask.len() implies member(mask, i) == member(
        model.mask,
        i,
    ) by {
        if member(mask, i) {
            let k = choose|k: int| 0 <= k < total && #[trigger] pages[k].page == i;
            assert(member(model.mask, pages[k].page as int));
        }
        if member(model.mask, i) {
            let k = choose|k: int| 0 <= k < pages.len() && (#[trigger] pages[k]).page == i;
            assert(pages[k].page == i);
        }
    }
    masks_equal(mask, model.mask);
}

/// The stored form of members.
pub open spec fn members_code(members: Seq<Member>) -> Seq<u8>
    decreases members.len(),
{
    if members.len() == 0 {
        Seq::empty()
    } else {
        let last = members.last();
        members_code(members.drop_last()) + u32_bytes(last.root.block()) + u16_bytes(
            last.root.offset(),
        ) + u16_bytes(0) + u64_bytes(last.incarnation.get())
    }
}

/// A membership record.
pub open spec fn membership_code(key: GroupKey, members: Seq<Member>) -> Seq<u8> {
    header_code(
        HeaderModel {
            key,
            kind: MEMBERS,
            count: members.len() as u32,
            mask: members_mask(members),
        },
        (72 + 16 * members.len()) as u32,
    ) + members_code(members)
}

/// The first fault among members that are to be stored, from `index` on.
pub open spec fn members_fault(key: GroupKey, members: Seq<Member>, index: int) -> Option<Error>
    decreases members.len() - index,
{
    if index >= members.len() {
        None
    } else if !root_within(key, members[index].root) {
        Some(Error::InvalidState)
    } else if index > 0 && members[index - 1].root.key() >= members[index].root.key() {
        Some(Error::DuplicateDocument)
    } else {
        members_fault(key, members, index + 1)
    }
}

/// Why a membership cannot be stored in `room` bytes, if it cannot.
pub open spec fn membership_error(key: GroupKey, members: Seq<Member>, room: nat) -> Option<Error> {
    if members.len() > 256 * key.layout().max_offset() {
        Some(Error::Limit("group members"))
    } else if 72 + 16 * members.len() > room {
        Some(Error::Limit("group membership output"))
    } else {
        members_fault(key, members, 0)
    }
}

/// Encodes a complete, sorted membership into caller-owned bytes.
/// The host verifies canonical owner-to-root assignments under its writer lock.
/// Invalid input and insufficient capacity are rejected before writing.
///
/// # Errors
/// Rejects repeated roots, invalid owners, foreign groups and output limits.
#[verifier::loop_isolation(false)]
pub fn encode_members(key: GroupKey, members: &[Member], output: &mut [u8]) -> (result: Result<
    usize,
>)
    ensures
        match membership_error(key, members@, old(output)@.len()) {
            Some(error) => result == Err::<usize, Error>(error) && final(output)@ == old(output)@,
            None => result == Ok::<usize, Error>((72 + 16 * members@.len()) as usize)
                && membership_code(key, members@).len() == 72 + 16 * members@.len()
                && final(output)@ == splice(old(output)@, 0, membership_code(key, members@)),
        },
{
    let domain: u16 = key.layout().max_offset();
    let total: usize = members.len();
    if total > GROUP_PAGES * domain as usize {
        return Err(Error::Limit("group members"));
    }
    let length: usize = HEADER_BYTES + total * MEMBER_BYTES;
    if length > output.len() {
        return Err(Error::Limit("group membership output"));
    }
    let mut mask: PageMask = [0u64; 4];
    let mut index: usize = 0;
    assert(mask@ =~= none(4));
    assert(members@.take(0) =~= Seq::empty());
    while index < total
        invariant
            index <= total,
            mask@ == members_mask(members@.take(index as int)),
            members_fault(key, members@, 0) == members_fault(key, members@, index as int),
        decreases total - index,
    {
        let found: Member = members[index];
        if !within(key, found.root) {
            return Err(Error::InvalidState);
        }
        if index > 0 && members[index - 1].root.key() >= found.root.key() {
            return Err(Error::DuplicateDocument);
        }
        mask_insert(&mut mask, (found.root.block() % 256) as usize);
        index += 1;
        proof {
            assert(members@.take(index as int).drop_last() =~= members@.take(index - 1));
        }
    }
    assert(members@.take(total as int) =~= members@);
    let header: [u8; 72] = (Header { key, kind: MEMBERS, count: total as u32, mask }).array(
        length as u32,
    );
    let ghost before = output@;
    assert(before =~= splice(before, 0, Seq::empty()));
    assert(Seq::<u8>::empty() + header@ =~= header@);
    let mut writer: Writer = Writer::new(output);
    let a: crate::codec::Result<()> = writer.put(&header);
    assert(a is Ok);
    let mut index: usize = 0;
    assert(header@ + members_code(members@.take(0)) =~= header@);
    while index < total
        invariant
            index <= total,
            members_code(members@.take(index as int)).len() == 16 * index,
            writer.offset == 72 + 16 * index,
            writer.bytes@ == splice(
                before,
                0,
                header@ + members_code(members@.take(index as int)),
            ),
            final(writer.bytes)@ == after_borrow(output)@,
        decreases total - index,
    {
        let found: Member = members[index];
        let ghost done = header@ + members_code(members@.take(index as int));
        let b: crate::codec::Result<()> = writer.u32(found.root.block());
        let c: crate::codec::Result<()> = writer.u16(found.root.offset());
        let d: crate::codec::Result<()> = writer.u16(0);
        let e: crate::codec::Result<()> = writer.u64(found.incarnation.get());
        assert(b is Ok && c is Ok && d is Ok && e is Ok);
        index += 1;
        proof {
            assert(members@.take(index as int).drop_last() =~= members@.take(index - 1));
            assert(done + u32_bytes(found.root.block()) + u16_bytes(found.root.offset())
                + u16_bytes(0) + u64_bytes(found.incarnation.get()) =~= header@ + members_code(
                members@.take(index as int),
            ));
        }
    }
    assert(members@.take(total as int) =~= members@);
    Ok(length)
}

proof fn coded_member(members: Seq<Member>, index: int)
    requires
        0 <= index < members.len(),
    ensures
        members_code(members).len() == 16 * members.len(),
        members_code(members).subrange(16 * index, 16 * index + 16) == u32_bytes(
            members[index].root.block(),
        ) + u16_bytes(members[index].root.offset()) + u16_bytes(0) + u64_bytes(
            members[index].incarnation.get(),
        ),
    decreases members.len(),
{
    let code = members_code(members);
    let few = members.drop_last();
    if few.len() > 0 {
        coded_member(
            few,
            if index < few.len() {
                index
            } else {
                0
            },
        );
    } else {
        assert(members_code(few) =~= Seq::<u8>::empty());
    }
    if index < few.len() {
        assert(code.subrange(16 * index, 16 * index + 16) =~= members_code(few).subrange(
            16 * index,
            16 * index + 16,
        ));
    } else {
        assert(code.subrange(16 * index, 16 * index + 16) =~= u32_bytes(
            members[index].root.block(),
        ) + u16_bytes(members[index].root.offset()) + u16_bytes(0) + u64_bytes(
            members[index].incarnation.get(),
        ));
    }
}

/// Whether every number of a member is one that its type can hold.
pub open spec fn member_typed(found: Member) -> bool {
    found.root.block() != u32::MAX && found.root.offset() >= 1 && found.incarnation.get() != 0
}

proof fn member_of_code(key: GroupKey, members: Seq<Member>, index: int)
    requires
        0 <= index < members.len(),
        members.len() <= 256 * 512,
        root_within(key, members[index].root),
        member_typed(members[index]),
    ensures
        member_at(membership_code(key, members), key, index) == Ok::<Member, Error>(
            members[index],
        ),
{
    let bytes = membership_code(key, members);
    let at = 72 + 16 * index;
    let found = members[index];
    coded_member(members, index);
    mask_of_members(members, 0);
    let code = members_code(members).subrange(16 * index, 16 * index + 16);
    assert(bytes.subrange(at, at + 16) =~= code);
    assert(bytes.subrange(at, at + 4) =~= code.subrange(0, 4));
    assert(code.subrange(0, 4) =~= u32_bytes(found.root.block()));
    assert(bytes.subrange(at + 4, at + 6) =~= code.subrange(4, 6));
    assert(code.subrange(4, 6) =~= u16_bytes(found.root.offset()));
    assert(bytes.subrange(at + 6, at + 8) =~= code.subrange(6, 8));
    assert(code.subrange(6, 8) =~= u16_bytes(0));
    assert(bytes.subrange(at + 8, at + 16) =~= code.subrange(8, 16));
    assert(code.subrange(8, 16) =~= u64_bytes(found.incarnation.get()));
    le_u32_of_bytes(bytes, at, found.root.block());
    le_u16_of_bytes(bytes, at + 4, found.root.offset());
    le_u16_of_bytes(bytes, at + 6, 0);
    le_u64_of_bytes(bytes, at + 8, found.incarnation.get());
}

proof fn checked_of_code(key: GroupKey, members: Seq<Member>, index: int)
    requires
        0 <= index <= members.len(),
        members.len() <= 256 * 512,
        members_fault(key, members, index) is None,
        forall|i: int| 0 <= i < members.len() ==> member_typed(#[trigger] members[i]),
    ensures
        check_members(
            membership_code(key, members),
            key,
            index,
            members.len() as int,
            if index == 0 {
                None
            } else {
                Some(members[index - 1].root)
            },
        ) == Ok::<(), Error>(()),
        forall|i: int|
            index <= i < members.len() ==> root_within(key, (#[trigger] members[i]).root),
    decreases members.len() - index,
{
    if index < members.len() {
        member_of_code(key, members, index);
        checked_of_code(key, members, index + 1);
    }
}

/// A membership reads back as it was stored.
pub proof fn membership_round_trip(key: GroupKey, members: Seq<Member>)
    requires
        key_typed(key),
        members.len() <= 256 * key.layout().max_offset(),
        members_fault(key, members, 0) is None,
        forall|i: int| 0 <= i < members.len() ==> member_typed(#[trigger] members[i]),
    ensures
        ({
            let bytes = membership_code(key, members);
            &&& membership_at(bytes) matches Ok(header) && header.key == key && header.mask
                == members_mask(members)
            &&& member_list(bytes, key, members.len()) == members
        }),
{
    let bytes = membership_code(key, members);
    let header = HeaderModel {
        key,
        kind: MEMBERS,
        count: members.len() as u32,
        mask: members_mask(members),
    };
    if members.len() > 0 {
        coded_member(members, 0);
    }
    mask_of_members(members, 255);
    checked_of_code(key, members, 0);
    assert(bytes.take(72) =~= header_code(header, bytes.len() as u32));
    if key.base() == u32::MAX - 255 && member(header.mask, 255) {
        let i = choose|i: int|
            0 <= i < members.len() && root_page((#[trigger] members[i]).root) == 255;
        assert(member_typed(members[i]));
        assert(root_within(key, members[i].root));
    }
    header_round_trip(header, bytes);
    assert forall|i: int| 0 <= i < members.len() implies #[trigger] member_list(
        bytes,
        key,
        members.len(),
    )[i] == members[i] by {
        member_of_code(key, members, i);
    }
    assert(member_list(bytes, key, members.len()) =~= members);
}

/// Whether a liveness record belongs to a membership and marks members only.
pub open spec fn segment_valid(model: MembersModel, live: BitmapModel) -> bool {
    &&& live.kind() == BitmapKind::Liveness
    &&& live.header.key == model.key
    &&& live.header.mask == model.mask
    &&& forall|page: int|
        #![trigger member(model.mask, page)]
        member(model.mask, page) ==> page_consistent(model, live, page)
}

/// Whether one page of a liveness record is valid, has the width of its
/// membership and marks members only.
pub open spec fn page_consistent(model: MembersModel, live: BitmapModel, page: int) -> bool {
    &&& live.payload_valid(page)
    &&& forall|mask: Seq<u64>| #[trigger]
        page_mask(model, page, mask) ==> live.payload(page).len() == offsets_len(mask)
    &&& forall|b: int|
        #![trigger live.holds(page, b)]
        0 <= b < 512 && live.holds(page, b) ==> model.holds(page, b)
}

/// A membership with its liveness.
#[verifier::ext_equal]
pub struct SegmentModel {
    pub members: MembersModel,
    pub live: BitmapModel,
}

/// A consistent private snapshot of generation membership and shared liveness.
/// Opening is a full liveness validation, separate from per-term query pruning.
pub struct SegmentGroup<'a> {
    members: Members<'a>,
    live: Bitmap<'a>,
}

impl<'a> View for SegmentGroup<'a> {
    type V = SegmentModel;

    closed spec fn view(&self) -> SegmentModel {
        SegmentModel { members: self.members@, live: self.live@ }
    }
}

impl<'a> SegmentGroup<'a> {
    #[verifier::type_invariant]
    closed spec fn inv(self) -> bool {
        segment_valid(self.members@, self.live@)
    }

    /// Binds one liveness image to the exact immutable membership identity.
    ///
    /// # Errors
    /// Rejects foreign identities, changed geometry and live nonmembers.
    #[verifier::loop_isolation(false)]
    pub fn open(members: &'a [u8], live: &'a [u8]) -> (result: Result<Self>)
        ensures
            match membership_at(members@) {
                Err(error) => result matches Err(e) && e == error,
                Ok(header) => match bitmap_at(live@) {
                    Err(error) => result matches Err(e) && e == error,
                    Ok(live_header) => {
                        let model = MembersModel {
                            key: header.key,
                            mask: header.mask,
                            members: member_list(members@, header.key, header.count as nat),
                        };
                        let bitmap = BitmapModel { header: live_header, bytes: live@ };
                        if segment_valid(model, bitmap) {
                            result matches Ok(group) && group@ == (SegmentModel {
                                members: model,
                                live: bitmap,
                            })
                        } else {
                            result matches Err(e) && e == Error::InvalidState
                        }
                    },
                },
            },
    {
        let members_bytes: &'a [u8] = members;
        let members: Members<'a> = Members::open(members_bytes)?;
        let live: Bitmap<'a> = Bitmap::open(live)?;
        if live.kind() != BitmapKind::Liveness || live.key() != members.key() || !same_mask(
            live.pages(),
            members.mask(),
        ) {
            return Err(Error::InvalidState);
        }
        let ghost model = members@;
        let ghost bitmap = live@;
        let mut iter: Pages = Pages::new(*members.mask());
        let ghost all = iter@;
        let ghost mut done: int = 0;
        assert(all.skip(0) =~= all);
        proof {
            members_range(model.mask, 0);
        }
        loop
            invariant
                0 <= done <= all.len(),
                iter@ == all.skip(done),
                forall|k: int|
                    0 <= k < done ==> page_consistent(model, bitmap, #[trigger] all[k]),
            decreases iter@.len(),
        {
            proof {
                if done < all.len() {
                    assert(iter@[0] == all[done]);
                    assert(iter@.drop_first() =~= all.skip(done + 1));
                }
            }
            match iter.next() {
                None => {
                    proof {
                        assert forall|page: int|
                            #![trigger member(model.mask, page)]
                            member(model.mask, page) implies page_consistent(
                            model,
                            bitmap,
                            page,
                        ) by {
                            assert(all.contains(page));
                            let k = choose|k: int| 0 <= k < all.len() && all[k] == page;
                            assert(page_consistent(model, bitmap, all[k]));
                        }
                    }
                    return Ok(SegmentGroup { members, live });
                },
                Some(page) => {
                    proof {
                        assert(member(model.mask, all[done]));
                        page_is_block(members_bytes@, page as int);
                    }
                    if !consistent_page(&members, &live, page) {
                        assert(!page_consistent(model, bitmap, page as int));
                        return Err(Error::InvalidState);
                    }
                    proof {
                        done = done + 1;
                    }
                },
            }
        }
    }

    pub fn key(&self) -> (key: GroupKey)
        ensures
            key == self@.members.key,
    {
        self.members.key()
    }

    pub fn members(&self) -> (members: &Members<'a>)
        ensures
            members@ == self@.members,
            segment_valid(self@.members, self@.live),
            self@.members.wf(),
    {
        proof {
            use_type_invariant(self);
        }
        let total: usize = self.members.len();
        &self.members
    }

    pub(crate) fn live(&self) -> (live: &Bitmap<'a>)
        ensures
            live@ == self@.live,
            segment_valid(self@.members, self@.live),
    {
        proof {
            use_type_invariant(self);
        }
        &self.live
    }
}

pub(crate) fn same_mask(left: &PageMask, right: &PageMask) -> (same: bool)
    ensures
        same == (left@ == right@),
{
    let mut i: usize = 0;
    while i < 4
        invariant
            i <= 4,
            forall|j: int| 0 <= j < i ==> left@[j] == right@[j],
        decreases 4 - i,
    {
        if left[i] != right[i] {
            assert(left@[i as int] != right@[i as int]);
            return false;
        }
        i += 1;
    }
    assert(left@ =~= right@);
    true
}

#[verifier::loop_isolation(false)]
fn consistent_page(members: &Members<'_>, live: &Bitmap<'_>, page: u8) -> (consistent: bool)
    requires
        members@.wf(),
        live@.wf(),
        member(members@.mask, page as int),
        members@.key.block_of(page as int) is Ok,
        live@.header.key == members@.key,
        live@.header.mask == members@.mask,
    ensures
        consistent == page_consistent(members@, live@, page as int),
{
    let all: OffsetMask = match members.page_offsets(page) {
        Ok(all) => all,
        Err(_) => {
            assert(false);
            return false;
        },
    };
    let current: OffsetMask = match live.offsets(page) {
        Ok(current) => current,
        Err(_) => {
            return false;
        },
    };
    proof {
        member_page_fits(members@, page as int, all@);
        assert forall|mask: Seq<u64>| #[trigger]
            page_mask(members@, page as int, mask) implies mask == all@ by {
            assert forall|b: int| 0 <= b < 64 * mask.len() implies member(mask, b) == member(
                all@,
                b,
            ) by {}
            masks_equal(mask, all@);
        }
        assert(page_mask(members@, page as int, all@));
    }
    let expected: usize = match bitmap_len(members.key(), &all) {
        Ok(expected) => expected,
        Err(_) => {
            assert(false);
            return false;
        },
    };
    if live.payload_bytes(page) != expected {
        return false;
    }
    let mut i: usize = 0;
    while i < 8
        invariant
            i <= 8,
            forall|j: int| 0 <= j < i ==> current@[j] & !all@[j] == 0,
        decreases 8 - i,
    {
        if current[i] & !all[i] != 0 {
            proof {
                let extra = current@[i as int] & !all@[i as int];
                crate::mask::word_empty(extra);
                let k = choose|k: int| 0 <= k < 64 && #[trigger] crate::mask::bit(extra, k);
                crate::mask::bit_logic(current@[i as int], all@[i as int], k as u64);
                let b = 64 * i + k;
                assert(b / 64 == i && b % 64 == k);
                assert(member(current@, b) && !member(all@, b));
                assert(live@.holds(page as int, b));
            }
            return false;
        }
        i += 1;
    }
    proof {
        assert forall|b: int|
            #![trigger live@.holds(page as int, b)]
            0 <= b < 512 && live@.holds(page as int, b) implies members@.holds(page as int, b) by {
            assert(member(current@, b));
            let w = b / 64;
            crate::mask::word_empty(current@[w] & !all@[w]);
            crate::mask::bit_logic(current@[w], all@[w], (b % 64) as u64);
            assert(!crate::mask::bit(current@[w] & !all@[w], b % 64));
            assert(member(all@, b));
        }
    }
    true
}

} // verus!
