//! Checked logical compaction over consistent private segment snapshots.
//! The host owns source pinning, fresh identity reservation and publication.

use super::bitmap::{
    bitmap_code, bitmap_opens, encode_bitmap, key_typed, pages_storable, Bitmap, BitmapKind,
    BitmapModel, PageOffsets,
};
use super::members::{
    coded_marks, collected_mask, marks_members, mask_of_members, members_code, members_mask,
    membership_code, page_mask, root_page, root_within, segment_valid, Member, Members,
    MembersModel, SegmentGroup, SegmentModel,
};
use super::{GroupKey, Header, OffsetMask, PageMask, HEADER_BYTES, MEMBERS};
use crate::callbacks::Interrupt;
use crate::codec::bytes::{group_bytes, splice, u16_bytes, u32_bytes, u64_bytes, Writer};
use crate::error::{Error, Result};
use crate::identity::group_identity;
use crate::mask::{
    byte_member, empty_mask, mask_has, mask_insert, member, members_range, none, same_bits, Pages,
};
use vstd::prelude::*;

verus! {

broadcast use {group_bytes, group_identity, GroupKey::of_parts};

pub const MAX_MERGE_SOURCES: usize = 16;

/// Whether a member of a segment is still live.
pub open spec fn member_live(segment: SegmentModel, found: Member) -> bool {
    segment.live.holds(root_page(found.root), found.root.offset() - 1)
}

/// The live members of a segment from `index` on, by ascending root.
pub open spec fn live_from(segment: SegmentModel, index: int) -> Seq<Member>
    decreases segment.members.members.len() - index,
{
    if index >= segment.members.members.len() {
        Seq::empty()
    } else if member_live(segment, segment.members.members[index]) {
        seq![segment.members.members[index]] + live_from(segment, index + 1)
    } else {
        live_from(segment, index + 1)
    }
}

/// Whether some segment has the member live.
pub open spec fn live_somewhere(sources: Seq<SegmentModel>, found: Member) -> bool {
    exists|i: int| 0 <= i < sources.len() && (#[trigger] live_from(sources[i], 0)).contains(found)
}

/// Whether live members that share a root are the same member.
pub open spec fn agreeing(sources: Seq<SegmentModel>) -> bool {
    forall|one: Member, other: Member|
        #![trigger live_somewhere(sources, one), live_somewhere(sources, other)]
        live_somewhere(sources, one) && live_somewhere(sources, other) && one.root == other.root
            ==> one == other
}

/// Whether a list is the merge of the live members: strictly ascending by root,
/// and exactly what is live somewhere.
pub open spec fn is_merge(list: Seq<Member>, sources: Seq<SegmentModel>) -> bool {
    &&& forall|i: int, j: int|
        0 <= i < j < list.len() ==> (#[trigger] list[i]).root.key() < (
        #[trigger] list[j]).root.key()
    &&& forall|found: Member| #[trigger] list.contains(found) <==> live_somewhere(sources, found)
    &&& agreeing(sources)
}

/// The models of sources.
pub open spec fn source_models(sources: Seq<&SegmentGroup<'_>>) -> Seq<SegmentModel> {
    sources.map_values(|source: &SegmentGroup<'_>| source@)
}

proof fn live_members_are_members(segment: SegmentModel, index: int)
    requires
        0 <= index,
        segment.members.wf(),
    ensures
        forall|k: int|
            0 <= k < live_from(segment, index).len() ==> segment.members.members.contains(
                #[trigger] live_from(segment, index)[k],
            ) && member_live(segment, live_from(segment, index)[k]),
        forall|i: int|
            index <= i < segment.members.members.len() && member_live(
                segment,
                #[trigger] segment.members.members[i],
            ) ==> live_from(segment, index).contains(segment.members.members[i]),
        forall|k: int|
            0 <= k < live_from(segment, index).len() && index < segment.members.members.len()
                ==> segment.members.members[index].root.key() <= (#[trigger] live_from(
                segment,
                index,
            )[k]).root.key(),
        forall|j: int, k: int|
            0 <= j < k < live_from(segment, index).len() ==> (#[trigger] live_from(
                segment,
                index,
            )[j]).root.key() < (#[trigger] live_from(segment, index)[k]).root.key(),
        live_from(segment, index).len() <= segment.members.members.len() - index || index
            > segment.members.members.len(),
    decreases segment.members.members.len() - index,
{
    let members = segment.members.members;
    if index < members.len() {
        live_members_are_members(segment, index + 1);
        let list = live_from(segment, index);
        let rest = live_from(segment, index + 1);
        if member_live(segment, members[index]) {
            assert forall|k: int| 0 <= k < list.len() implies members.contains(#[trigger] list[k])
                && member_live(segment, list[k]) && members[index].root.key()
                <= list[k].root.key() by {
                if k > 0 {
                    assert(list[k] == rest[k - 1]);
                    if index + 1 < members.len() {
                        assert(members[index].root.key() < members[index + 1].root.key());
                        assert(members[index + 1].root.key() <= rest[k - 1].root.key());
                    }
                } else {
                    assert(members[index] == list[0]);
                }
            }
            assert forall|j: int, k: int| 0 <= j < k < list.len() implies (
            #[trigger] list[j]).root.key() < (#[trigger] list[k]).root.key() by {
                assert(list[k] == rest[k - 1]);
                if j > 0 {
                    assert(list[j] == rest[j - 1]);
                } else if index + 1 < members.len() {
                    assert(members[index].root.key() < members[index + 1].root.key());
                    assert(members[index + 1].root.key() <= rest[k - 1].root.key());
                }
            }
            assert forall|i: int|
                index <= i < members.len() && member_live(
                    segment,
                    #[trigger] members[i],
                ) implies list.contains(members[i]) by {
                if i > index {
                    assert(rest.contains(members[i]));
                    let k = choose|k: int| 0 <= k < rest.len() && rest[k] == members[i];
                    assert(list[k + 1] == members[i]);
                } else {
                    assert(list[0] == members[i]);
                }
            }
        } else {
            assert(list == rest);
            assert forall|k: int| 0 <= k < list.len() implies members[index].root.key() <= (
            #[trigger] list[k]).root.key() by {
                if index + 1 < members.len() {
                    assert(members[index].root.key() < members[index + 1].root.key());
                    assert(members[index + 1].root.key() <= rest[k].root.key());
                }
            }
        }
    }
}

/// Walks the live members of one source.
struct Cursor<'a, 'data> {
    source: &'a SegmentGroup<'data>,
    index: usize,
    page: Option<u8>,
    live: OffsetMask,
    current: Option<Member>,
}

impl<'a, 'data> Cursor<'a, 'data> {
    /// The live members from the current one on.
    spec fn rest(self) -> Seq<Member> {
        match self.current {
            Some(found) => seq![found] + live_from(self.source@, self.index as int),
            None => Seq::empty(),
        }
    }

    spec fn wf(self) -> bool {
        &&& self.index <= self.source@.members.members.len()
        &&& self.source@.members.wf()
        &&& self.page matches Some(page) ==> same_bits(
            self.live@,
            self.source@.live.payload(page as int),
        )
    }

    /// Moves to the next live member.
    #[verifier::loop_isolation(false)]
    fn advance<I: Interrupt>(&mut self, interrupt: &mut I) -> (result: Result<()>)
        requires
            old(self).wf(),
        ensures
            final(self).source == old(self).source,
            final(interrupt).patient() == old(interrupt).patient(),
            old(interrupt).patient() ==> result is Ok,
            result is Ok ==> final(self).wf() && final(self).rest() == live_from(
                old(self).source@,
                old(self).index as int,
            ),
    {
        self.current = None;
        let total: usize = self.source.members().len();
        let ghost segment = self.source@;
        while self.index < total
            invariant
                self.wf(),
                self.source == old(self).source,
                interrupt.patient() == old(interrupt).patient(),
                self.current is None,
                live_from(segment, old(self).index as int) == live_from(
                    segment,
                    self.index as int,
                ),
            decreases total - self.index,
        {
            if self.index % 128 == 0 {
                interrupt.interrupt()?;
            }
            let found: Member = self.source.members().get(self.index)?;
            self.index += 1;
            let page: u8 = (found.root.block() % 256) as u8;
            let cached: bool = match self.page {
                Some(current) => current == page,
                None => false,
            };
            if !cached {
                let live: &Bitmap<'_> = self.source.live();
                assert(live@.payload_valid(page as int)) by {
                    if member(segment.members.mask, page as int) {
                        assert(super::members::page_consistent(
                            segment.members,
                            segment.live,
                            page as int,
                        ));
                    } else {
                        assert(live@.payload(page as int).len() == 0);
                    }
                }
                self.live = live.offsets(page)?;
                self.page = Some(page);
            }
            let bit: usize = found.root.offset() as usize - 1;
            let live: bool = mask_has(&self.live, bit);
            assert(live == member_live(segment, found)) by {
                assert(member(self.live@, bit as int) == byte_member(
                    segment.live.payload(page as int),
                    bit as int,
                ));
            }
            if live {
                self.current = Some(found);
                return Ok(());
            }
        }
        assert(live_from(segment, self.index as int) =~= Seq::empty());
        Ok(())
    }
}

/// How the rests of all sources relate to what was emitted.
spec fn merging(
    sources: Seq<SegmentModel>,
    rests: Seq<Seq<Member>>,
    emitted: Seq<Member>,
) -> bool {
    &&& rests.len() == sources.len()
    &&& forall|i: int, j: int|
        0 <= i < j < emitted.len() ==> (#[trigger] emitted[i]).root.key() < (
        #[trigger] emitted[j]).root.key()
    &&& forall|k: int|
        0 <= k < emitted.len() ==> live_somewhere(sources, #[trigger] emitted[k])
    &&& forall|i: int|
        0 <= i < sources.len() ==> #[trigger] splits(
            live_from(sources[i], 0),
            rests[i],
            emitted,
        )
}

/// Whether a live list is a part that was emitted followed by the rest, which
/// lies beyond everything emitted.
spec fn splits(live: Seq<Member>, rest: Seq<Member>, emitted: Seq<Member>) -> bool {
    &&& rest.len() <= live.len()
    &&& rest == live.skip(live.len() - rest.len())
    &&& forall|k: int|
        0 <= k < live.len() - rest.len() ==> emitted.contains(#[trigger] live[k])
    &&& forall|k: int, e: int|
        0 <= k < rest.len() && 0 <= e < emitted.len() ==> (#[trigger] emitted[e]).root.key() < (
        #[trigger] rest[k]).root.key()
}

/// Merges live members; each coordinate is emitted once, and all live copies
/// must name one owner.
#[verifier::loop_isolation(false)]
#[verifier::rlimit(50)]
fn visit<I: Interrupt>(sources: &[&SegmentGroup<'_>], interrupt: &mut I) -> (result: Result<
    Vec<Member>,
>)
    requires
        sources@.len() <= 16,
    ensures
        final(interrupt).patient() == old(interrupt).patient(),
        old(interrupt).patient() && agreeing(source_models(sources@)) ==> result is Ok,
        result matches Err(error) ==> !old(interrupt).patient() || error == Error::InvalidState,
        result matches Ok(list) ==> is_merge(list@, source_models(sources@)) && (forall|i: int|
            0 <= i < sources@.len() ==> (#[trigger] sources@[i])@.members.wf() && segment_valid(
                sources@[i]@.members,
                sources@[i]@.live,
            )),
{
    interrupt.interrupt()?;
    let ghost models = source_models(sources@);
    let mut cursors: Vec<Cursor<'_, '_>> = Vec::new();
    let mut i: usize = 0;
    while i < sources.len()
        invariant
            i <= sources@.len(),
            cursors@.len() == i,
            interrupt.patient() == old(interrupt).patient(),
            forall|k: int|
                0 <= k < i ==> (#[trigger] cursors@[k]).wf() && cursors@[k].source == sources@[k]
                    && cursors@[k].rest() == live_from(models[k], 0) && models[k].members.wf()
                    && segment_valid(models[k].members, models[k].live),
        decreases sources@.len() - i,
    {
        let source: &SegmentGroup<'_> = sources[i];
        let members: &Members<'_> = source.members();
        let mut cursor: Cursor<'_, '_> = Cursor {
            source,
            index: 0,
            page: None,
            live: [0u64; 8],
            current: None,
        };
        cursor.advance(interrupt)?;
        cursors.push(cursor);
        i += 1;
    }
    proof {
        assert forall|k: int| 0 <= k < models.len() implies (#[trigger] models[k]).members.wf()
            && segment_valid(models[k].members, models[k].live) by {
            assert(cursors@[k].wf());
        }
        assert forall|i: int| 0 <= i < sources@.len() implies (
        #[trigger] sources@[i])@.members.wf() && segment_valid(
            sources@[i]@.members,
            sources@[i]@.live,
        ) by {
            assert(models[i].members.wf());
        }
    }
    let mut list: Vec<Member> = Vec::new();
    let ghost mut rests: Seq<Seq<Member>> = Seq::new(
        sources@.len(),
        |k: int| live_from(models[k], 0),
    );
    proof {
        assert forall|k: int| 0 <= k < models.len() implies #[trigger] splits(
            live_from(models[k], 0),
            rests[k],
            list@,
        ) by {
            let live = live_from(models[k], 0);
            assert(live.skip(0) =~= live);
        }
    }
    let ghost mut budget: nat = rest_total(rests, sources@.len() as int);
    loop
        invariant
            cursors@.len() == sources@.len(),
            interrupt.patient() == old(interrupt).patient(),
            rests.len() == sources@.len(),
            forall|k: int|
                0 <= k < sources@.len() ==> (#[trigger] cursors@[k]).wf() && cursors@[k].source
                    == sources@[k] && cursors@[k].rest() == rests[k],
            merging(models, rests, list@),
            budget == rest_total(rests, sources@.len() as int),
        decreases budget,
    {
        // the least current root, of the first source that has it
        let mut least: Option<Member> = None;
        let mut i: usize = 0;
        while i < sources.len()
            invariant
                i <= sources@.len(),
                cursors@.len() == sources@.len(),
                match least {
                    None => forall|k: int| 0 <= k < i ==> (#[trigger] rests[k]).len() == 0,
                    Some(found) => {
                        &&& exists|k: int|
                            0 <= k < i && (#[trigger] rests[k]).len() > 0 && rests[k][0] == found
                        &&& forall|k: int|
                            0 <= k < i && (#[trigger] rests[k]).len() > 0 ==> found.root.key()
                                <= rests[k][0].root.key()
                    },
                },
            decreases sources@.len() - i,
        {
            let head: Option<Member> = cursors[i].current;
            assert(cursors@[i as int].rest() == rests[i as int]);
            if let Some(found) = head {
                assert(rests[i as int].len() > 0 && rests[i as int][0] == found);
                match least {
                    None => {
                        least = Some(found);
                    },
                    Some(best) => {
                        if found.root.key() < best.root.key() {
                            least = Some(found);
                        }
                    },
                }
            } else {
                assert(rests[i as int].len() == 0);
            }
            i += 1;
        }
        let found: Member = match least {
            None => {
                proof {
                    finished_merge(models, rests, list@);
                }
                return Ok(list);
            },
            Some(found) => found,
        };
        let ghost chosen = choose|k: int|
            0 <= k < sources@.len() && (#[trigger] rests[k]).len() > 0 && rests[k][0] == found;
        let ghost before = rests;
        let mut i: usize = 0;
        while i < sources.len()
            invariant
                i <= sources@.len(),
                cursors@.len() == sources@.len(),
                interrupt.patient() == old(interrupt).patient(),
                rests.len() == sources@.len(),
                forall|k: int|
                    0 <= k < sources@.len() ==> (#[trigger] cursors@[k]).wf() && cursors@[k].source
                        == sources@[k] && cursors@[k].rest() == rests[k],
                forall|k: int|
                    0 <= k < i ==> #[trigger] rests[k] == (if before[k].len() > 0
                        && before[k][0].root == found.root {
                        before[k].drop_first()
                    } else {
                        before[k]
                    }),
                forall|k: int|
                    0 <= k < i && (#[trigger] before[k]).len() > 0 && before[k][0].root
                        == found.root ==> before[k][0] == found,
                forall|k: int| i <= k < sources@.len() ==> #[trigger] rests[k] == before[k],
            decreases sources@.len() - i,
        {
            let ghost earlier = cursors@;
            assert(cursors@[i as int].rest() == rests[i as int]);
            assert(rests[i as int] == before[i as int]);
            let head: Option<Member> = cursors[i].current;
            if let Some(current) = head {
                assert(before[i as int].len() > 0 && before[i as int][0] == current);
                if current.root == found.root {
                    if current.incarnation != found.incarnation {
                        proof {
                            rest_live(models, before, list@, i as int);
                            rest_live(models, before, list@, chosen);
                            assert(live_somewhere(models, current) && live_somewhere(
                                models,
                                found,
                            ));
                        }
                        return Err(Error::InvalidState);
                    }
                    cursors[i].advance(interrupt)?;
                    proof {
                        assert(before[i as int].drop_first() =~= live_from(
                            models[i as int],
                            earlier[i as int].index as int,
                        ));
                        rests = rests.update(i as int, before[i as int].drop_first());
                        assert forall|k: int| 0 <= k < sources@.len() implies (
                        #[trigger] cursors@[k]).wf() && cursors@[k].source == sources@[k]
                            && cursors@[k].rest() == rests[k] by {
                            if k != i {
                                assert(cursors@[k] == earlier[k]);
                            }
                        }
                    }
                }
            } else {
                assert(before[i as int].len() == 0);
            }
            i += 1;
        }
        let ghost emitted = list@;
        list.push(found);
        proof {
            step_merge(models, before, rests, emitted, found, chosen);
            rest_total_step(before, rests, sources@.len() as int, chosen);
            budget = rest_total(rests, sources@.len() as int);
        }
    }
}

/// What is left of a source is live.
proof fn rest_live(
    sources: Seq<SegmentModel>,
    rests: Seq<Seq<Member>>,
    emitted: Seq<Member>,
    index: int,
)
    requires
        merging(sources, rests, emitted),
        0 <= index < sources.len(),
        rests[index].len() > 0,
    ensures
        live_somewhere(sources, rests[index][0]),
{
    let live = live_from(sources[index], 0);
    let rest = rests[index];
    assert(splits(live, rest, emitted));
    assert(live.skip(live.len() - rest.len())[0] == live[live.len() - rest.len()]);
    assert(live.contains(rest[0]));
}

/// The number of members that the first `count` rests hold.
spec fn rest_total(rests: Seq<Seq<Member>>, count: int) -> nat
    decreases count,
{
    if count <= 0 {
        0
    } else {
        rest_total(rests, count - 1) + rests[count - 1].len()
    }
}

proof fn rest_total_step(
    before: Seq<Seq<Member>>,
    after: Seq<Seq<Member>>,
    count: int,
    chosen: int,
)
    requires
        0 <= count <= before.len(),
        before.len() == after.len(),
        0 <= chosen < before.len(),
        forall|k: int| 0 <= k < before.len() ==> (#[trigger] after[k]).len() <= before[k].len(),
        after[chosen].len() < before[chosen].len(),
    ensures
        rest_total(after, count) <= rest_total(before, count),
        chosen < count ==> rest_total(after, count) < rest_total(before, count),
    decreases count,
{
    if count > 0 {
        rest_total_step(before, after, count - 1, chosen);
        assert(after[count - 1].len() <= before[count - 1].len());
    }
}

proof fn finished_merge(
    sources: Seq<SegmentModel>,
    rests: Seq<Seq<Member>>,
    emitted: Seq<Member>,
)
    requires
        merging(sources, rests, emitted),
        forall|k: int| 0 <= k < rests.len() ==> (#[trigger] rests[k]).len() == 0,
    ensures
        is_merge(emitted, sources),
{
    assert forall|found: Member| #[trigger] emitted.contains(found) <==> live_somewhere(
        sources,
        found,
    ) by {
        if emitted.contains(found) {
            let k = choose|k: int| 0 <= k < emitted.len() && emitted[k] == found;
            assert(live_somewhere(sources, emitted[k]));
        }
        if live_somewhere(sources, found) {
            let i = choose|i: int|
                0 <= i < sources.len() && (#[trigger] live_from(sources[i], 0)).contains(found);
            let live = live_from(sources[i], 0);
            assert(splits(live, rests[i], emitted));
            assert(rests[i].len() == 0);
            let k = choose|k: int| 0 <= k < live.len() && live[k] == found;
            assert(emitted.contains(live[k]));
        }
    }
    assert forall|one: Member, other: Member|
        #![trigger live_somewhere(sources, one), live_somewhere(sources, other)]
        live_somewhere(sources, one) && live_somewhere(sources, other) && one.root
            == other.root implies one == other by {
        assert(emitted.contains(one) && emitted.contains(other));
        let j = choose|j: int| 0 <= j < emitted.len() && emitted[j] == one;
        let k = choose|k: int| 0 <= k < emitted.len() && emitted[k] == other;
        if j < k {
            assert(emitted[j].root.key() < emitted[k].root.key());
        } else if k < j {
            assert(emitted[k].root.key() < emitted[j].root.key());
        }
    }
}

proof fn step_merge(
    sources: Seq<SegmentModel>,
    before: Seq<Seq<Member>>,
    after: Seq<Seq<Member>>,
    emitted: Seq<Member>,
    found: Member,
    chosen: int,
)
    requires
        merging(sources, before, emitted),
        after.len() == before.len(),
        forall|i: int| 0 <= i < sources.len() ==> (#[trigger] sources[i]).members.wf(),
        0 <= chosen < before.len(),
        before[chosen].len() > 0,
        before[chosen][0] == found,
        forall|k: int|
            0 <= k < before.len() && (#[trigger] before[k]).len() > 0 ==> found.root.key()
                <= before[k][0].root.key(),
        forall|k: int|
            0 <= k < before.len() ==> #[trigger] after[k] == (if before[k].len() > 0
                && before[k][0].root == found.root {
                before[k].drop_first()
            } else {
                before[k]
            }),
        forall|k: int|
            0 <= k < before.len() && (#[trigger] before[k]).len() > 0 && before[k][0].root
                == found.root ==> before[k][0] == found,
    ensures
        merging(sources, after, emitted.push(found)),
{
    let more = emitted.push(found);
    let home = live_from(sources[chosen], 0);
    assert(splits(home, before[chosen], emitted));
    assert(home.contains(found)) by {
        let k = home.len() - before[chosen].len();
        assert(home.skip(k)[0] == home[k]);
    }
    assert(live_somewhere(sources, found)) by {
        assert(live_from(sources[chosen], 0).contains(found));
    }
    assert forall|i: int, j: int| 0 <= i < j < more.len() implies (
    #[trigger] more[i]).root.key() < (#[trigger] more[j]).root.key() by {
        if j == emitted.len() {
            assert(emitted[i].root.key() < before[chosen][0].root.key());
        } else {
            assert(emitted[i].root.key() < emitted[j].root.key());
        }
    }
    assert forall|k: int| 0 <= k < more.len() implies live_somewhere(
        sources,
        #[trigger] more[k],
    ) by {
        if k < emitted.len() {
            assert(live_somewhere(sources, emitted[k]));
        }
    }
    assert forall|i: int| 0 <= i < sources.len() implies #[trigger] splits(
        live_from(sources[i], 0),
        after[i],
        more,
    ) by {
        let live = live_from(sources[i], 0);
        let rest = before[i];
        let next = after[i];
        assert(splits(live, rest, emitted));
        assert(sources[i].members.wf());
        live_members_are_members(sources[i], 0);
        let drop = rest.len() > 0 && rest[0].root == found.root;
        let n = live.len() - rest.len();
        if drop {
            assert(live.skip(n).drop_first() =~= live.skip(n + 1));
            assert(live.skip(n)[0] == live[n]);
        }
        assert forall|k: int| 0 <= k < live.len() - next.len() implies more.contains(
            #[trigger] live[k],
        ) by {
            if k < n {
                assert(emitted.contains(live[k]));
                let e = choose|e: int| 0 <= e < emitted.len() && emitted[e] == live[k];
                assert(more[e] == live[k]);
            } else {
                assert(more[emitted.len() as int] == found);
            }
        }
        assert forall|k: int, e: int|
            0 <= k < next.len() && 0 <= e < more.len() implies (#[trigger] more[e]).root.key() < (
        #[trigger] next[k]).root.key() by {
            let from = if drop {
                k + 1
            } else {
                k
            };
            assert(next[k] == rest[from]);
            if e < emitted.len() {
                assert(emitted[e].root.key() < rest[from].root.key());
            } else {
                assert(rest[0] == live[n] && rest[from] == live[n + from]);
                if from > 0 {
                    assert(live[n].root.key() < live[n + from].root.key());
                }
                if !drop {
                    assert(found.root.key() <= rest[0].root.key());
                    assert(rest[0].root != found.root);
                    found.root.key_order(rest[0].root);
                } else {
                    assert(found.root.key() <= rest[0].root.key());
                }
            }
        }
    }
}

/// The merge of the live members of sources that agree.
pub open spec fn merge_of(sources: Seq<SegmentModel>) -> Seq<Member> {
    choose|list: Seq<Member>| is_merge(list, sources)
}

proof fn ascending_unique(left: Seq<Member>, right: Seq<Member>)
    requires
        forall|i: int, j: int|
            0 <= i < j < left.len() ==> (#[trigger] left[i]).root.key() < (
            #[trigger] left[j]).root.key(),
        forall|i: int, j: int|
            0 <= i < j < right.len() ==> (#[trigger] right[i]).root.key() < (
            #[trigger] right[j]).root.key(),
        forall|found: Member| #[trigger] left.contains(found) <==> right.contains(found),
    ensures
        left == right,
    decreases left.len(),
{
    if left.len() == 0 {
        if right.len() > 0 {
            assert(right.contains(right[0]));
            assert(left.contains(right[0]));
        }
        assert(left =~= right);
    } else {
        let last = left.last();
        assert(left[left.len() - 1] == last);
        assert(left.contains(last));
        assert(right.contains(last));
        let other = right.last();
        assert(right[right.len() - 1] == other);
        assert(right.contains(other));
        assert(left.contains(other));
        let i = choose|i: int| 0 <= i < right.len() && right[i] == last;
        let j = choose|j: int| 0 <= j < left.len() && left[j] == other;
        if i < right.len() - 1 {
            assert(right[i].root.key() < right[right.len() - 1].root.key());
        }
        if j < left.len() - 1 {
            assert(left[j].root.key() < left[left.len() - 1].root.key());
        }
        assert(last == other);
        let short = left.drop_last();
        let few = right.drop_last();
        assert forall|found: Member| #[trigger] short.contains(found) <==> few.contains(found) by {
            if short.contains(found) {
                let k = choose|k: int| 0 <= k < short.len() && short[k] == found;
                assert(left[k] == found);
                assert(left.contains(found));
                assert(left[k].root.key() < left[left.len() - 1].root.key());
                let m = choose|m: int| 0 <= m < right.len() && right[m] == found;
                assert(few[m] == found);
            }
            if few.contains(found) {
                let k = choose|k: int| 0 <= k < few.len() && few[k] == found;
                assert(right[k] == found);
                assert(right.contains(found));
                assert(right[k].root.key() < right[right.len() - 1].root.key());
                assert(left.contains(found));
                let m = choose|m: int| 0 <= m < left.len() && left[m] == found;
                assert(short[m] == found);
            }
        }
        ascending_unique(short, few);
        assert(left =~= short.push(last));
        assert(right =~= few.push(last));
    }
}

proof fn merge_unique(list: Seq<Member>, sources: Seq<SegmentModel>)
    requires
        is_merge(list, sources),
    ensures
        merge_of(sources) == list,
{
    let other = merge_of(sources);
    assert forall|found: Member| #[trigger] list.contains(found) <==> other.contains(found) by {
        assert(list.contains(found) <==> live_somewhere(sources, found));
        assert(other.contains(found) <==> live_somewhere(sources, found));
    }
    ascending_unique(list, other);
}

/// Whether sources can be merged under a key: the same group and relation, a
/// fresh segment number, and no source twice.
pub open spec fn source_bound(key: GroupKey, sources: Seq<SegmentModel>, index: int) -> bool {
    let other = sources[index].members.key;
    &&& other.base() == key.base()
    &&& other.relation() == key.relation()
    &&& other.layout() == key.layout()
    &&& other.segment() != key.segment()
    &&& forall|i: int| 0 <= i < index ==> (#[trigger] sources[i]).members.key != other
}

pub open spec fn sources_bound(key: GroupKey, sources: Seq<SegmentModel>) -> bool {
    forall|i: int| 0 <= i < sources.len() ==> #[trigger] source_bound(key, sources, i)
}

/// What a merge has to store: its key, its sources and the merged members.
#[verifier::ext_equal]
pub struct PlanModel {
    pub key: GroupKey,
    pub sources: Seq<SegmentModel>,
}

impl PlanModel {
    /// The merged members.
    pub open spec fn members(self) -> Seq<Member> {
        merge_of(self.sources)
    }

    /// The merged membership.
    pub open spec fn membership(self) -> MembersModel {
        MembersModel {
            key: self.key,
            mask: members_mask(self.members()),
            members: self.members(),
        }
    }

    pub open spec fn wf(self) -> bool {
        &&& self.sources.len() <= 16
        &&& sources_bound(self.key, self.sources)
        &&& is_merge(self.members(), self.sources)
        &&& self.membership().wf()
        &&& forall|i: int|
            0 <= i < self.sources.len() ==> (#[trigger] self.sources[i]).members.wf()
                && segment_valid(self.sources[i].members, self.sources[i].live)
    }
}

proof fn merged_rank(key: GroupKey, list: Seq<Member>, index: int)
    requires
        0 <= index < list.len(),
        1 <= key.layout().max_offset() <= 512,
        key.base() % 256 == 0,
        forall|i: int|
            0 <= i < list.len() ==> root_within(key, (#[trigger] list[i]).root)
                && list[i].root.offset() >= 1,
        forall|i: int, j: int|
            0 <= i < j < list.len() ==> (#[trigger] list[i]).root.key() < (
            #[trigger] list[j]).root.key(),
    ensures
        root_page(list[index].root) * key.layout().max_offset() + list[index].root.offset() - 1
            >= index,
    decreases index,
{
    let width = key.layout().max_offset() as int;
    let page = root_page(list[index].root);
    assert(root_within(key, list[index].root));
    if index > 0 {
        merged_rank(key, list, index - 1);
        let low = list[index - 1].root;
        let high = list[index].root;
        assert(root_within(key, low));
        assert(low.key() < high.key());
        low.key_order(high);
        let before = root_page(low);
        if low.block() < high.block() {
            assert(before + 1 <= page);
            assert(page * width >= (before + 1) * width) by (nonlinear_arith)
                requires
                    before + 1 <= page,
                    width >= 1,
            ;
            assert((before + 1) * width == before * width + width) by (nonlinear_arith);
        }
    } else {
        assert(page * width >= 0) by (nonlinear_arith)
            requires
                page >= 0,
                width >= 1,
        ;
    }
}

proof fn merged_wf(key: GroupKey, sources: Seq<SegmentModel>, list: Seq<Member>)
    requires
        is_merge(list, sources),
        sources_bound(key, sources),
        key.base() % 256 == 0,
        1 <= key.layout().max_offset() <= 512,
        forall|i: int| 0 <= i < sources.len() ==> (#[trigger] sources[i]).members.wf(),
    ensures
        (MembersModel { key, mask: members_mask(list), members: list }).wf(),
        list.len() <= 256 * key.layout().max_offset(),
{
    assert forall|i: int| 0 <= i < list.len() implies root_within(key, (#[trigger] list[i]).root)
        && list[i].root.block() != u32::MAX && list[i].root.offset() >= 1 by {
        assert(list.contains(list[i]));
        assert(live_somewhere(sources, list[i]));
        let s = choose|s: int|
            0 <= s < sources.len() && (#[trigger] live_from(sources[s], 0)).contains(list[i]);
        assert(source_bound(key, sources, s));
        assert(sources[s].members.wf());
        live_members_are_members(sources[s], 0);
        let live = live_from(sources[s], 0);
        let k = choose|k: int| 0 <= k < live.len() && live[k] == list[i];
        assert(sources[s].members.members.contains(live[k]));
        let m = choose|m: int|
            0 <= m < sources[s].members.members.len() && sources[s].members.members[m] == live[k];
        assert(root_within(sources[s].members.key, sources[s].members.members[m].root));
    }
    mask_of_members(list, 0);
    if list.len() > 0 {
        let last = list.len() - 1;
        let width = key.layout().max_offset() as int;
        merged_rank(key, list, last);
        let page = root_page(list[last].root);
        assert(root_within(key, list[last].root));
        assert(page * width <= 255 * width) by (nonlinear_arith)
            requires
                page <= 255,
                width >= 1,
        ;
    }
}

/// Where a source marks an offset live, the merge has a member, and nowhere else.
proof fn merged_holds(plan: PlanModel, page: int, b: int)
    requires
        plan.wf(),
        0 <= b < 512,
    ensures
        plan.membership().holds(page, b) <==> exists|s: int|
            0 <= s < plan.sources.len() && (#[trigger] plan.sources[s]).live.holds(page, b),
{
    let list = plan.members();
    let model = plan.membership();
    if model.holds(page, b) {
        let i = choose|i: int|
            0 <= i < list.len() && root_page((#[trigger] list[i]).root) == page
                && list[i].root.offset() == b + 1;
        assert(list.contains(list[i]));
        assert(live_somewhere(plan.sources, list[i]));
        let s = choose|s: int|
            0 <= s < plan.sources.len() && (#[trigger] live_from(plan.sources[s], 0)).contains(
                list[i],
            );
        assert(plan.sources[s].members.wf());
        live_members_are_members(plan.sources[s], 0);
        let live = live_from(plan.sources[s], 0);
        let k = choose|k: int| 0 <= k < live.len() && live[k] == list[i];
        assert(member_live(plan.sources[s], live[k]));
        assert(plan.sources[s].live.holds(page, b));
    }
    if exists|s: int|
        0 <= s < plan.sources.len() && (#[trigger] plan.sources[s]).live.holds(page, b) {
        let s = choose|s: int|
            0 <= s < plan.sources.len() && (#[trigger] plan.sources[s]).live.holds(page, b);
        let segment = plan.sources[s];
        assert(segment.members.wf());
        assert(member(segment.live.header.mask, page));
        assert(member(segment.members.mask, page));
        assert(super::members::page_consistent(segment.members, segment.live, page));
        assert(segment.members.holds(page, b));
        let m = choose|m: int|
            0 <= m < segment.members.members.len() && root_page(
                (#[trigger] segment.members.members[m]).root,
            ) == page && segment.members.members[m].root.offset() == b + 1;
        let found = segment.members.members[m];
        assert(member_live(segment, found));
        live_members_are_members(segment, 0);
        assert(live_from(plan.sources[s], 0).contains(found));
        assert(live_somewhere(plan.sources, found));
        assert(list.contains(found));
        let i = choose|i: int| 0 <= i < list.len() && list[i] == found;
        assert(root_page(list[i].root) == page && list[i].root.offset() == b + 1);
    }
}

/// The liveness of a merged source is valid on every page.
proof fn live_payload_valid(plan: PlanModel, index: int, page: int)
    requires
        plan.wf(),
        0 <= index < plan.sources.len(),
    ensures
        plan.sources[index].live.payload_valid(page),
{
    let source = plan.sources[index];
    assert(source.members.wf());
    if member(source.members.mask, page) {
        assert(super::members::page_consistent(source.members, source.live, page));
    } else {
        assert(source.live.payload(page).len() == 0);
    }
}

/// A page with members is a block.
proof fn member_page_block(model: MembersModel, page: int)
    requires
        model.wf(),
        member(model.mask, page),
    ensures
        model.key.block_of(page) is Ok,
{
    mask_of_members(model.members, page);
    let i = choose|i: int|
        0 <= i < model.members.len() && root_page((#[trigger] model.members[i]).root) == page;
    assert(root_within(model.key, model.members[i].root));
}

/// Marked offsets that are all those of live members fit the layout, and their
/// page is a block.
proof fn live_page_fits(plan: PlanModel, page: int, mask: Seq<u64>)
    requires
        plan.wf(),
        mask.len() == 8,
        0 <= page < 256,
        exists|b: int| 0 <= b < 512 && #[trigger] member(mask, b),
        forall|b: int|
            0 <= b < 512 && #[trigger] member(mask, b) ==> plan.membership().holds(page, b),
    ensures
        super::bitmap::offsets_fit(plan.key, mask),
        plan.key.block_of(page) is Ok,
{
    let model = plan.membership();
    crate::mask::top_bounds(mask, 512);
    let top = crate::mask::top_below(mask, 512);
    let some = choose|b: int| 0 <= b < 512 && #[trigger] member(mask, b);
    assert(top > some);
    assert(member(mask, top - 1));
    assert(model.holds(page, top - 1));
    let j = choose|j: int|
        0 <= j < model.members.len() && root_page((#[trigger] model.members[j]).root) == page
            && model.members[j].root.offset() == top - 1 + 1;
    assert(root_within(model.key, model.members[j].root));
}

/// A validated live-owner merge; no target bytes or source pointers are retained
/// beyond their borrows. Retired occupants never enter target membership.
pub struct MergePlan<'a, 'data> {
    key: GroupKey,
    sources: &'a [&'a SegmentGroup<'data>],
    mask: PageMask,
    count: u32,
}

impl<'a, 'data> View for MergePlan<'a, 'data> {
    type V = PlanModel;

    closed spec fn view(&self) -> PlanModel {
        PlanModel { key: self.key, sources: source_models(self.sources@) }
    }
}

impl<'a, 'data> MergePlan<'a, 'data> {
    #[verifier::type_invariant]
    closed spec fn inv(self) -> bool {
        &&& self@.wf()
        &&& self.mask@ == self@.membership().mask
        &&& self.count == self@.members().len()
        &&& key_typed(self.key)
        &&& self@.members().len() <= 256 * self.key.layout().max_offset()
    }

    /// Checks fresh identity and rejects live generations sharing one coordinate.
    /// The caller must supply complete documents, not partial per-term flushes.
    ///
    /// # Errors
    /// Rejects foreign groups, repeated sources, identity reuse and live conflicts.
    #[verifier::loop_isolation(false)]
    pub fn new<I: Interrupt>(
        key: GroupKey,
        sources: &'a [&'a SegmentGroup<'data>],
        interrupt: &mut I,
    ) -> (result: Result<Self>)
        ensures
            if sources@.len() > 16 {
                result matches Err(e) && e == Error::Limit("group merge sources")
            } else if !sources_bound(key, source_models(sources@)) {
                result matches Err(e) && e == Error::InvalidState
            } else {
                &&& !agreeing(source_models(sources@)) ==> result is Err
                &&& result matches Err(e) ==> !old(interrupt).patient() || (e == Error::InvalidState
                    && !agreeing(source_models(sources@)))
                &&& result matches Ok(plan) ==> plan@ == (PlanModel {
                    key,
                    sources: source_models(sources@),
                }) && plan@.wf()
            },
    {
        let total: usize = sources.len();
        if total > MAX_MERGE_SOURCES {
            return Err(Error::Limit("group merge sources"));
        }
        let ghost models = source_models(sources@);
        let mut index: usize = 0;
        while index < total
            invariant
                index <= total,
                forall|i: int| 0 <= i < index ==> #[trigger] source_bound(key, models, i),
            decreases total - index,
        {
            let other: GroupKey = sources[index].key();
            if other.base() != key.base() || other.relation() != key.relation() || other.layout()
                != key.layout() || other.segment() == key.segment() {
                assert(!source_bound(key, models, index as int));
                return Err(Error::InvalidState);
            }
            let mut prior: usize = 0;
            while prior < index
                invariant
                    prior <= index,
                    forall|i: int|
                        0 <= i < prior ==> (#[trigger] models[i]).members.key
                            != models[index as int].members.key,
                decreases index - prior,
            {
                if sources[prior].key() == other {
                    assert(models[prior as int].members.key == models[index as int].members.key);
                    assert(!source_bound(key, models, index as int));
                    return Err(Error::InvalidState);
                }
                prior += 1;
            }
            assert(source_bound(key, models, index as int));
            index += 1;
        }
        let list: Vec<Member> = visit(sources, interrupt)?;
        let base: u32 = key.base();
        let relation: u64 = key.relation().get();
        let segment: u64 = key.segment().get();
        let domain: u16 = key.layout().max_offset();
        proof {
            merge_unique(list@, models);
            assert forall|i: int| 0 <= i < models.len() implies (
            #[trigger] models[i]).members.wf() && segment_valid(
                models[i].members,
                models[i].live,
            ) by {
                assert(sources@[i]@.members.wf());
            }
            merged_wf(key, models, list@);
            layout_self(key.layout());
        }
        let mut mask: PageMask = [0u64; 4];
        let mut index: usize = 0;
        assert(mask@ =~= none(4));
        assert(list@.take(0) =~= Seq::empty());
        while index < list.len()
            invariant
                index <= list@.len(),
                mask@ == members_mask(list@.take(index as int)),
            decreases list@.len() - index,
        {
            mask_insert(&mut mask, (list[index].root.block() % 256) as usize);
            index += 1;
            assert(list@.take(index as int).drop_last() =~= list@.take(index - 1));
        }
        assert(list@.take(list@.len() as int) =~= list@);
        Ok(MergePlan { key, sources, mask, count: list.len() as u32 })
    }

    pub fn key(&self) -> (key: GroupKey)
        ensures
            key == self@.key,
    {
        self.key
    }

    pub fn len(&self) -> (len: u32)
        ensures
            len == self@.members().len(),
            self@.wf(),
    {
        proof {
            use_type_invariant(self);
        }
        self.count
    }

    pub fn is_empty(&self) -> (empty: bool)
        ensures
            empty == (self@.members().len() == 0),
    {
        proof {
            use_type_invariant(self);
        }
        self.count == 0
    }

    /// Encodes one root/incarnation pair for each distinct surviving owner.
    ///
    /// # Errors
    /// Rejects insufficient capacity before writing any target bytes.
    #[verifier::loop_isolation(false)]
    pub fn encode_members<I: Interrupt>(&self, output: &mut [u8], interrupt: &mut I) -> (result:
        Result<usize>)
        ensures
            match result {
                Ok(size) => {
                    let code = membership_code(self@.key, self@.members());
                    &&& size == code.len() == 72 + 16 * self@.members().len()
                    &&& size <= old(output)@.len()
                    &&& final(output)@ == splice(old(output)@, 0, code)
                },
                Err(error) => {
                    &&& final(output)@ == old(output)@
                    &&& !old(interrupt).patient() || (error == Error::Limit(
                        "merged membership output",
                    ) && 72 + 16 * self@.members().len() > old(output)@.len())
                },
            },
            72 + 16 * self@.members().len() > old(output)@.len() ==> result is Err,
    {
        proof {
            use_type_invariant(self);
        }
        interrupt.interrupt()?;
        let length: usize = HEADER_BYTES + self.count as usize * 16;
        if output.len() < length {
            return Err(Error::Limit("merged membership output"));
        }
        let list: Vec<Member> = visit(self.sources, interrupt)?;
        proof {
            merge_unique(list@, self@.sources);
        }
        let header: [u8; 72] = (Header {
            key: self.key,
            kind: MEMBERS,
            count: self.count,
            mask: self.mask,
        }).array(length as u32);
        let ghost before = output@;
        assert(before =~= splice(before, 0, Seq::empty()));
        assert(Seq::<u8>::empty() + header@ =~= header@);
        let mut writer: Writer = Writer::new(output);
        let a: crate::codec::Result<()> = writer.put(&header);
        assert(a is Ok);
        let mut index: usize = 0;
        assert(list@.take(0) =~= Seq::empty());
        assert(header@ + members_code(list@.take(0)) =~= header@);
        while index < list.len()
            invariant
                index <= list@.len(),
                members_code(list@.take(index as int)).len() == 16 * index,
                writer.offset == 72 + 16 * index,
                writer.bytes@ == splice(
                    before,
                    0,
                    header@ + members_code(list@.take(index as int)),
                ),
                final(writer.bytes)@ == after_borrow(output)@,
            decreases list@.len() - index,
        {
            let found: Member = list[index];
            let ghost done = header@ + members_code(list@.take(index as int));
            let b: crate::codec::Result<()> = writer.u32(found.root.block());
            let c: crate::codec::Result<()> = writer.u16(found.root.offset());
            let d: crate::codec::Result<()> = writer.u16(0);
            let e: crate::codec::Result<()> = writer.u64(found.incarnation.get());
            assert(b is Ok && c is Ok && d is Ok && e is Ok);
            index += 1;
            proof {
                assert(list@.take(index as int).drop_last() =~= list@.take(index - 1));
                assert(done + u32_bytes(found.root.block()) + u16_bytes(found.root.offset())
                    + u16_bytes(0) + u64_bytes(found.incarnation.get()) =~= header@ + members_code(
                    list@.take(index as int),
                ));
            }
        }
        assert(list@.take(list@.len() as int) =~= list@);
        Ok(length)
    }

    /// Joins the live offsets of all sources on one page.
    #[verifier::loop_isolation(false)]
    fn live_offsets(&self, page: u8) -> (result: Result<OffsetMask>)
        ensures
            result is Ok,
            result matches Ok(mask) ==> page_mask(self@.membership(), page as int, mask@),
    {
        proof {
            use_type_invariant(self);
        }
        let ghost models = self@.sources;
        let mut mask: OffsetMask = [0u64; 8];
        let mut index: usize = 0;
        proof {
            empty_mask(mask@);
        }
        while index < self.sources.len()
            invariant
                index <= self.sources@.len(),
                forall|b: int|
                    #![trigger member(mask@, b)]
                    0 <= b < 512 ==> member(mask@, b) == (exists|s: int|
                        0 <= s < index && (#[trigger] models[s]).live.holds(page as int, b)),
            decreases self.sources@.len() - index,
        {
            assert(self@.sources[index as int].live.payload_valid(page as int)) by {
                live_payload_valid(self@, index as int, page as int);
            }
            let found: OffsetMask = self.sources[index].live().offsets(page)?;
            let ghost before = mask@;
            mask = union_masks(&mask, &found);
            proof {
                assert forall|b: int|
                    #![trigger member(mask@, b)]
                    0 <= b < 512 implies member(mask@, b) == (exists|s: int|
                    0 <= s < index + 1 && (#[trigger] models[s]).live.holds(page as int, b)) by {
                    crate::mask::mask_logic(before, found@, b);
                    assert(member(found@, b) == models[index as int].live.holds(page as int, b));
                    if member(before, b) {
                        let s = choose|s: int|
                            0 <= s < index && (#[trigger] models[s]).live.holds(page as int, b);
                        assert(models[s].live.holds(page as int, b));
                    }
                    if exists|s: int|
                        0 <= s < index + 1 && (#[trigger] models[s]).live.holds(page as int, b) {
                        let s = choose|s: int|
                            0 <= s < index + 1 && (#[trigger] models[s]).live.holds(page as int, b);
                        if s < index {
                            assert(member(before, b));
                        }
                    }
                }
            }
            index += 1;
        }
        proof {
            assert forall|b: int|
                #![trigger member(mask@, b)]
                0 <= b < 512 implies member(mask@, b) == self@.membership().holds(page as int, b) by {
                merged_holds(self@, page as int, b);
            }
        }
        Ok(mask)
    }

    /// Creates fresh liveness containing exactly the merged live membership.
    ///
    /// # Errors
    /// Rejects insufficient capacity before writing any target bytes.
    #[verifier::loop_isolation(false)]
    pub fn encode_liveness<I: Interrupt>(&self, output: &mut [u8], interrupt: &mut I) -> (result:
        Result<usize>)
        ensures
            final(output)@.len() == old(output)@.len(),
            match result {
                Ok(size) => size <= old(output)@.len() && marks_members(
                    final(output)@.take(size as int),
                    self@.membership(),
                ) && final(output)@.skip(size as int) == old(output)@.skip(size as int)
                    && super::members::record_size(self@.membership(), size as int),
                Err(error) => {
                    &&& final(output)@ == old(output)@
                    &&& !old(interrupt).patient() || (error == Error::Limit("bitmap group output")
                        && exists|size: int|
                        size > old(output)@.len() && #[trigger] super::members::record_size(
                            self@.membership(),
                            size,
                        ))
                },
            },
    {
        proof {
            use_type_invariant(self);
        }
        interrupt.interrupt()?;
        let ghost model = self@.membership();
        let mut result: Vec<PageOffsets> = Vec::new();
        let mut iter: Pages = Pages::new(self.mask);
        let ghost all = iter@;
        let ghost mut done: int = 0;
        let mut more: bool = true;
        proof {
            assert(all.skip(0) =~= all);
            members_range(model.mask, 0);
        }
        while more
            invariant
                0 <= done <= all.len(),
                iter@ == all.skip(done),
                result@.len() == done,
                output@ == old(output)@,
                interrupt.patient() == old(interrupt).patient(),
                pages_storable(model.key, result@, done),
                forall|k: int|
                    0 <= k < done ==> (#[trigger] result@[k]).page == all[k] && page_mask(
                        model,
                        all[k],
                        result@[k].offsets@,
                    ),
                !more ==> done == all.len(),
            decreases iter@.len(), (if more { 1int } else { 0int }),
        {
            proof {
                if done < all.len() {
                    assert(iter@[0] == all[done]);
                    assert(iter@.drop_first() =~= all.skip(done + 1));
                }
            }
            match iter.next() {
                None => {
                    more = false;
                },
                Some(page) => {
                    interrupt.interrupt()?;
                    let offsets: OffsetMask = self.live_offsets(page)?;
                    let ghost before = result@;
                    result.push(PageOffsets { page, offsets });
                    proof {
                        assert(member(model.mask, page as int));
                        super::members::member_page_fits(model, page as int, offsets@);
                        member_page_block(model, page as int);
                        if done > 0 {
                            assert(all[done - 1] < all[done]);
                            assert(before[done - 1].page == all[done - 1]);
                        }
                        assert forall|i: int| 0 <= i < done + 1 implies #[trigger]
                            super::bitmap::page_storable(model.key, result@, i) by {
                            if i < done {
                                assert(super::bitmap::page_storable(model.key, before, i));
                            }
                        }
                        done = done + 1;
                    }
                },
            }
        }
        proof {
            bitmap_opens(model.key, BitmapKind::Liveness, result@);
            assert forall|page: int|
                #![trigger member(model.mask, page)]
                member(model.mask, page) implies exists|k: int|
                0 <= k < result@.len() && (#[trigger] result@[k]).page == page by {
                assert(all.contains(page));
                let k = choose|k: int| 0 <= k < all.len() && all[k] == page;
                assert(result@[k].page == page);
            }
            assert forall|k: int| 0 <= k < result@.len() implies member(
                model.mask,
                (#[trigger] result@[k]).page as int,
            ) by {
                assert(member(model.mask, all[k]));
            }
            collected_mask(model, result@);
            coded_marks(model, result@);
            assert(super::members::lists_pages(model, result@));
            assert(super::members::record_size(model, super::bitmap::pages_size(result@)));
        }
        let size: usize = encode_bitmap(
            self.key,
            BitmapKind::Liveness,
            result.as_slice(),
            output,
        )?;
        proof {
            let code = bitmap_code(model.key, BitmapKind::Liveness, result@);
            assert(output@.take(size as int) =~= code);
            assert(output@.skip(size as int) =~= old(output)@.skip(size as int));
        }
        Ok(size)
    }
}

/// Whether a term of some source marks an offset that is live in that source.
pub open spec fn term_live(
    sources: Seq<SegmentModel>,
    terms: Seq<Option<BitmapModel>>,
    page: int,
    b: int,
) -> bool {
    exists|s: int|
        0 <= s < sources.len() && #[trigger] term_live_in(sources[s], terms[s], page, b)
}

/// Whether a term marks an offset that is live in its own source.
pub open spec fn term_live_in(
    source: SegmentModel,
    term: Option<BitmapModel>,
    page: int,
    b: int,
) -> bool {
    term matches Some(record) && record.holds(page, b) && source.live.holds(page, b)
}

/// The models of optional term records.
pub open spec fn term_models(terms: Seq<Option<Bitmap<'_>>>) -> Seq<Option<BitmapModel>> {
    terms.map_values(
        |term: Option<Bitmap<'_>>|
            match term {
                Some(record) => Some(record@),
                None => None,
            },
    )
}

/// Whether the term of a source belongs to it and all its payloads are valid.
pub open spec fn term_usable(source: SegmentModel, term: Option<BitmapModel>) -> bool {
    term matches Some(record) ==> record.header.key == source.members.key && record.kind()
        == BitmapKind::Posting && (forall|page: int| #[trigger]
        member(record.header.mask, page) ==> record.payload_valid(page))
}

/// Whether every term belongs to its source and is sound.
pub open spec fn terms_usable(sources: Seq<SegmentModel>, terms: Seq<Option<BitmapModel>>) -> bool {
    forall|s: int| 0 <= s < terms.len() ==> term_usable(#[trigger] sources[s], terms[s])
}

/// Whether bytes are a posting record that marks exactly what is live.
pub open spec fn marks_term(
    bytes: Seq<u8>,
    key: GroupKey,
    sources: Seq<SegmentModel>,
    terms: Seq<Option<BitmapModel>>,
) -> bool {
    &&& super::bitmap::bitmap_at(bytes) matches Ok(header) && header.key == key && header.kind == 1
    &&& forall|page: int, b: int|
        #![trigger (BitmapModel { header: super::bitmap::bitmap_at(bytes)->Ok_0, bytes }).holds(
            page,
            b,
        )]
        0 <= b < 512 ==> (BitmapModel {
            header: super::bitmap::bitmap_at(bytes)->Ok_0,
            bytes,
        }).holds(page, b) == term_live(sources, terms, page, b)
    &&& forall|page: int| #[trigger]
        member(super::bitmap::bitmap_at(bytes)->Ok_0.mask, page) ==> (BitmapModel {
            header: super::bitmap::bitmap_at(bytes)->Ok_0,
            bytes,
        }).payload_valid(page)
}

impl<'a, 'data> MergePlan<'a, 'data> {
    /// Joins a term's offsets on one page after masking each source's own liveness.
    #[verifier::loop_isolation(false)]
    fn term_offsets(&self, terms: &[Option<Bitmap<'_>>], page: u8) -> (result: Result<OffsetMask>)
        requires
            terms@.len() == self@.sources.len(),
        ensures
            terms_usable(self@.sources, term_models(terms@)) ==> result is Ok,
            result matches Ok(mask) ==> mask@.len() == 8 && (forall|b: int|
                #![trigger member(mask@, b)]
                0 <= b < 512 ==> member(mask@, b) == term_live(
                    self@.sources,
                    term_models(terms@),
                    page as int,
                    b,
                )),
    {
        proof {
            use_type_invariant(self);
        }
        let ghost models = self@.sources;
        let ghost records = term_models(terms@);
        let mut mask: OffsetMask = [0u64; 8];
        let mut index: usize = 0;
        proof {
            empty_mask(mask@);
        }
        while index < self.sources.len()
            invariant
                index <= self.sources@.len(),
                forall|b: int|
                    #![trigger member(mask@, b)]
                    0 <= b < 512 ==> member(mask@, b) == (exists|s: int|
                        0 <= s < index && #[trigger] term_live_in(
                            models[s],
                            records[s],
                            page as int,
                            b,
                        )),
            decreases self.sources@.len() - index,
        {
            let ghost before = mask@;
            if let Some(term) = terms[index] {
                proof {
                    assert(records[index as int] == Some(term@));
                    live_payload_valid(self@, index as int, page as int);
                    if terms_usable(models, records) {
                        assert(term_usable(models[index as int], records[index as int]));
                        if !member(term@.header.mask, page as int) {
                            assert(term@.payload(page as int).len() == 0);
                        }
                    }
                }
                let posting: OffsetMask = term.offsets(page)?;
                let live: OffsetMask = self.sources[index].live().offsets(page)?;
                let found: OffsetMask = crate::mask::offsets(
                    crate::mask::BitmapOp::Intersection,
                    &posting,
                    &live,
                    &live,
                );
                mask = union_masks(&mask, &found);
                proof {
                    assert(records[index as int] == Some(term@));
                    assert forall|b: int|
                        #![trigger member(mask@, b)]
                        0 <= b < 512 implies member(mask@, b) == (member(before, b) || term_live_in(
                        models[index as int],
                        records[index as int],
                        page as int,
                        b,
                    )) by {
                        crate::mask::mask_logic(before, found@, b);
                        crate::mask::mask_logic(posting@, live@, b);
                        crate::mask::mask_logic(crate::mask::both(posting@, live@), live@, b);
                        assert(member(posting@, b) == term@.holds(page as int, b));
                        assert(member(live@, b) == models[index as int].live.holds(
                            page as int,
                            b,
                        ));
                    }
                }
            } else {
                assert(records[index as int] is None);
            }
            proof {
                assert forall|b: int|
                    #![trigger member(mask@, b)]
                    0 <= b < 512 implies member(mask@, b) == (exists|s: int|
                    0 <= s < index + 1 && #[trigger] term_live_in(
                        models[s],
                        records[s],
                        page as int,
                        b,
                    )) by {
                    let here = term_live_in(
                        models[index as int],
                        records[index as int],
                        page as int,
                        b,
                    );
                    assert(member(mask@, b) == (member(before, b) || here));
                    if member(before, b) {
                        let s = choose|s: int|
                            0 <= s < index && #[trigger] term_live_in(
                                models[s],
                                records[s],
                                page as int,
                                b,
                            );
                        assert(term_live_in(models[s], records[s], page as int, b));
                    }
                    if exists|s: int|
                        0 <= s < index + 1 && #[trigger] term_live_in(
                            models[s],
                            records[s],
                            page as int,
                            b,
                        ) {
                        let s = choose|s: int|
                            0 <= s < index + 1 && #[trigger] term_live_in(
                                models[s],
                                records[s],
                                page as int,
                                b,
                            );
                        if s < index {
                            assert(member(before, b));
                        }
                    }
                }
            }
            index += 1;
        }
        Ok(mask)
    }

    /// Checks that every term record belongs to its source and is sound, and
    /// joins their pages.
    #[verifier::loop_isolation(false)]
    fn check_terms<I: Interrupt>(&self, terms: &[Option<Bitmap<'_>>], interrupt: &mut I) -> (result:
        Result<PageMask>)
        requires
            terms@.len() == self@.sources.len(),
        ensures
            final(interrupt).patient() == old(interrupt).patient(),
            result matches Err(error) ==> !old(interrupt).patient() || (error == Error::InvalidState
                && !terms_usable(self@.sources, term_models(terms@))),
            result matches Ok(pages) ==> forall|s: int|
                0 <= s < terms@.len() ==> #[trigger] term_checked(
                    self@.sources[s],
                    term_models(terms@)[s],
                    pages@,
                ),
    {
        let ghost models = self@.sources;
        let ghost records = term_models(terms@);
        let mut pages: PageMask = [0u64; 4];
        let mut index: usize = 0;
        while index < terms.len()
            invariant
                index <= terms@.len(),
                interrupt.patient() == old(interrupt).patient(),
                forall|s: int|
                    0 <= s < index ==> #[trigger] term_checked(models[s], records[s], pages@),
            decreases terms@.len() - index,
        {
            let ghost before = pages@;
            if let Some(term) = terms[index] {
                assert(records[index as int] == Some(term@));
                if term.key() != self.sources[index].key() || term.kind() != BitmapKind::Posting {
                    assert(!term_usable(models[index as int], records[index as int]));
                    return Err(Error::InvalidState);
                }
                interrupt.interrupt()?;
                if let Err(error) = term.validate_all() {
                    assert(!term_usable(models[index as int], records[index as int]));
                    return Err(error);
                }
                pages = union_pages(&pages, term.pages());
                proof {
                    assert forall|s: int| 0 <= s < index implies #[trigger] term_checked(
                        models[s],
                        records[s],
                        pages@,
                    ) by {
                        assert(term_checked(models[s], records[s], before));
                        wider_cover(records[s], before, term@.header.mask);
                    }
                    wider_cover_right(Some(term@), before, term@.header.mask);
                    assert(term_checked(models[index as int], records[index as int], pages@));
                }
            } else {
                assert(records[index as int] is None);
                assert(term_checked(models[index as int], records[index as int], pages@));
            }
            index += 1;
        }
        Ok(pages)
    }

    /// Collects the pages on which a term has live offsets.
    #[verifier::loop_isolation(false)]
    fn posting_pages<I: Interrupt>(
        &self,
        terms: &[Option<Bitmap<'_>>],
        pages: PageMask,
        interrupt: &mut I,
    ) -> (result: Result<Vec<PageOffsets>>)
        requires
            terms@.len() == self@.sources.len(),
            terms_usable(self@.sources, term_models(terms@)),
        ensures
            final(interrupt).patient() == old(interrupt).patient(),
            old(interrupt).patient() ==> result is Ok,
            result matches Ok(entries) ==> {
                let models = self@.sources;
                let records = term_models(terms@);
                &&& pages_storable(self@.key, entries@, entries@.len() as int)
                &&& forall|k: int|
                    0 <= k < entries@.len() ==> #[trigger] posting_page(
                        models,
                        records,
                        entries@[k],
                    )
                &&& forall|page: int| #[trigger]
                    member(pages@, page) ==> page_listed(models, records, entries@, page)
            },
    {
        proof {
            use_type_invariant(self);
        }
        let ghost models = self@.sources;
        let ghost records = term_models(terms@);
        let mut result: Vec<PageOffsets> = Vec::new();
        let mut iter: Pages = Pages::new(pages);
        let ghost all = iter@;
        let ghost mut done: int = 0;
        proof {
            assert(all.skip(0) =~= all);
            members_range(pages@, 0);
        }
        loop
            invariant
                0 <= done <= all.len(),
                iter@ == all.skip(done),
                interrupt.patient() == old(interrupt).patient(),
                pages_storable(self@.key, result@, result@.len() as int),
                result@.len() > 0 ==> done > 0 && result@.last().page <= all[done - 1],
                forall|k: int|
                    0 <= k < result@.len() ==> #[trigger] posting_page(
                        models,
                        records,
                        result@[k],
                    ),
                forall|d: int|
                    0 <= d < done ==> page_listed(models, records, result@, #[trigger] all[d]),
            decreases iter@.len(),
        {
            proof {
                if done < all.len() {
                    assert(iter@[0] == all[done]);
                    assert(iter@.drop_first() =~= all.skip(done + 1));
                }
            }
            match iter.next() {
                None => {
                    proof {
                        assert forall|page: int| #[trigger] member(
                            pages@,
                            page,
                        ) implies page_listed(models, records, result@, page) by {
                            assert(all.contains(page));
                            let d = choose|d: int| 0 <= d < all.len() && all[d] == page;
                            assert(page_listed(models, records, result@, all[d]));
                        }
                    }
                    return Ok(result);
                },
                Some(page) => {
                    interrupt.interrupt()?;
                    let offsets: OffsetMask = self.term_offsets(terms, page)?;
                    let ghost before = result@;
                    let entry: PageOffsets = PageOffsets { page, offsets };
                    let empty: bool = crate::mask::mask_is_empty(&offsets);
                    if !empty {
                        result.push(entry);
                    }
                    proof {
                        empty_mask(offsets@);
                        if done > 0 {
                            assert(all[done - 1] < all[done]);
                        }
                        if !empty {
                            assert forall|b: int|
                                0 <= b < 512 && #[trigger] member(offsets@, b) implies self@.membership().holds(
                            page as int, b) by {
                                let s = choose|s: int|
                                    0 <= s < models.len() && #[trigger] term_live_in(
                                        models[s],
                                        records[s],
                                        page as int,
                                        b,
                                    );
                                assert(self@.sources[s].live.holds(page as int, b));
                                merged_holds(self@, page as int, b);
                            }
                            assert(exists|b: int| 0 <= b < 512 && #[trigger] member(offsets@, b));
                            live_page_fits(self@, page as int, offsets@);
                            assert forall|i: int| 0 <= i < result@.len() implies #[trigger]
                                super::bitmap::page_storable(self@.key, result@, i) by {
                                if i < before.len() {
                                    assert(super::bitmap::page_storable(self@.key, before, i));
                                }
                            }
                        }
                        assert(posting_page(models, records, entry));
                        assert forall|k: int| 0 <= k < result@.len() implies #[trigger] posting_page(
                            models,
                            records,
                            result@[k],
                        ) by {
                            if k < before.len() {
                                assert(posting_page(models, records, before[k]));
                            }
                        }
                        if empty {
                            assert forall|b: int| 0 <= b < 512 implies !#[trigger] term_live(
                                models,
                                records,
                                page as int,
                                b,
                            ) by {
                                assert(!member(offsets@, b));
                            }
                        } else {
                            assert(result@[before.len() as int].page == page);
                            assert forall|d: int| 0 <= d < done implies page_listed(
                                models,
                                records,
                                result@,
                                #[trigger] all[d],
                            ) by {
                                listed_more(models, records, before, entry, all[d]);
                            }
                        }
                        assert(page_listed(models, records, result@, page as int));
                        done = done + 1;
                    }
                },
            }
        }
    }

    /// Merges one term across sources after masking each source's own liveness.
    /// `terms[i]` belongs to `sources[i]`; None means that complete source lacks
    /// this term. Filtering after union would resurrect retired reused roots.
    ///
    /// # Errors
    /// Rejects missing source slots, mismatched identities, malformed payloads
    /// and insufficient capacity before writing any target bytes.
    #[verifier::loop_isolation(false)]
    pub fn encode_posting<I: Interrupt>(
        &self,
        terms: &[Option<Bitmap<'_>>],
        output: &mut [u8],
        interrupt: &mut I,
    ) -> (result: Result<usize>)
        ensures
            final(output)@.len() == old(output)@.len(),
            match result {
                Ok(size) => {
                    &&& terms@.len() == self@.sources.len()
                    &&& forall|s: int|
                        0 <= s < terms@.len() ==> term_usable(
                            #[trigger] self@.sources[s],
                            term_models(terms@)[s],
                        )
                    &&& size <= old(output)@.len()
                    &&& marks_term(
                        final(output)@.take(size as int),
                        self@.key,
                        self@.sources,
                        term_models(terms@),
                    )
                    &&& final(output)@.skip(size as int) == old(output)@.skip(size as int)
                    &&& posting_size(
                        self@.key,
                        self@.sources,
                        term_models(terms@),
                        size as int,
                    )
                },
                Err(error) => {
                    &&& final(output)@ == old(output)@
                    &&& old(interrupt).patient() ==> if terms@.len() != self@.sources.len() {
                        error == Error::InvalidParameters
                    } else if !terms_usable(self@.sources, term_models(terms@)) {
                        error == Error::InvalidState
                    } else {
                        error == Error::Limit("bitmap group output") && exists|size: int|
                            size > old(output)@.len() && #[trigger] posting_size(
                                self@.key,
                                self@.sources,
                                term_models(terms@),
                                size,
                            )
                    }
                },
            },
            terms@.len() != self@.sources.len() ==> result is Err,
    {
        proof {
            use_type_invariant(self);
        }
        interrupt.interrupt()?;
        if terms.len() != self.sources.len() {
            return Err(Error::InvalidParameters);
        }
        let ghost models = self@.sources;
        let ghost records = term_models(terms@);
        let pages: PageMask = self.check_terms(terms, interrupt)?;
        proof {
            assert forall|s: int| 0 <= s < terms@.len() implies term_usable(
                #[trigger] models[s],
                records[s],
            ) by {
                assert(term_checked(models[s], records[s], pages@));
            }
        }
        let result: Vec<PageOffsets> = self.posting_pages(terms, pages, interrupt)?;
        proof {
            bitmap_opens(self@.key, BitmapKind::Posting, result@);
            assert forall|page: int, b: int|
                0 <= b < 512 && term_live(models, records, page, b) implies exists|k: int|
                0 <= k < result@.len() && (#[trigger] result@[k]).page == page by {
                let s = choose|s: int|
                    0 <= s < models.len() && #[trigger] term_live_in(
                        models[s],
                        records[s],
                        page,
                        b,
                    );
                assert(term_checked(models[s], records[s], pages@));
                let record = records[s]->Some_0;
                assert(member(record.header.mask, page));
                assert(member(pages@, page));
                assert(page_listed(models, records, result@, page));
            }
            assert forall|s: int| 0 <= s < terms@.len() implies term_usable(
                #[trigger] models[s],
                records[s],
            ) by {
                assert(term_checked(models[s], records[s], pages@));
            }
            posting_marks(self@.key, models, records, result@);
            assert(lists_posting(self@.key, models, records, result@));
            assert(posting_size(
                self@.key,
                models,
                records,
                super::bitmap::pages_size(result@),
            ));
        }
        let size: usize = encode_bitmap(
            self.key,
            BitmapKind::Posting,
            result.as_slice(),
            output,
        )?;
        proof {
            let code = bitmap_code(self@.key, BitmapKind::Posting, result@);
            assert(output@.take(size as int) =~= code);
            assert(output@.skip(size as int) =~= old(output)@.skip(size as int));
        }
        Ok(size)
    }
}

/// Whether entries are the pages on which a term is live, in order, each with
/// its live offsets.
pub open spec fn lists_posting(
    key: GroupKey,
    sources: Seq<SegmentModel>,
    terms: Seq<Option<BitmapModel>>,
    pages: Seq<PageOffsets>,
) -> bool {
    &&& pages_storable(key, pages, pages.len() as int)
    &&& forall|k: int| 0 <= k < pages.len() ==> #[trigger] posting_page(sources, terms, pages[k])
    &&& forall|page: int, b: int|
        0 <= b < 512 && #[trigger] term_live(sources, terms, page, b) ==> exists|k: int|
            0 <= k < pages.len() && (#[trigger] pages[k]).page == page
}

/// Whether a posting record of a term has the given size.
pub open spec fn posting_size(
    key: GroupKey,
    sources: Seq<SegmentModel>,
    terms: Seq<Option<BitmapModel>>,
    size: int,
) -> bool {
    exists|pages: Seq<PageOffsets>| #[trigger]
        lists_posting(key, sources, terms, pages) && size == super::bitmap::pages_size(pages)
}

/// Whether a mask has every page of a record.
pub open spec fn pages_cover(term: Option<BitmapModel>, pages: Seq<u64>) -> bool {
    term matches Some(record) ==> forall|page: int| #[trigger]
        member(record.header.mask, page) ==> member(pages, page)
}

/// Whether the term of a source is usable and a mask has all its pages.
pub open spec fn term_checked(
    source: SegmentModel,
    term: Option<BitmapModel>,
    pages: Seq<u64>,
) -> bool {
    term_usable(source, term) && pages_cover(term, pages)
}

proof fn wider_cover(term: Option<BitmapModel>, pages: Seq<u64>, more: Seq<u64>)
    requires
        pages_cover(term, pages),
        pages.len() == more.len(),
    ensures
        pages_cover(term, crate::mask::either(pages, more)),
{
    if let Some(record) = term {
        assert forall|page: int| #[trigger] member(record.header.mask, page) implies member(
            crate::mask::either(pages, more),
            page,
        ) by {
            crate::mask::mask_logic(pages, more, page);
        }
    }
}

proof fn wider_cover_right(term: Option<BitmapModel>, pages: Seq<u64>, more: Seq<u64>)
    requires
        pages_cover(term, more),
        pages.len() == more.len(),
    ensures
        pages_cover(term, crate::mask::either(pages, more)),
{
    if let Some(record) = term {
        assert forall|page: int| #[trigger] member(record.header.mask, page) implies member(
            crate::mask::either(pages, more),
            page,
        ) by {
            crate::mask::mask_logic(pages, more, page);
        }
    }
}

proof fn listed_more(
    sources: Seq<SegmentModel>,
    terms: Seq<Option<BitmapModel>>,
    entries: Seq<PageOffsets>,
    entry: PageOffsets,
    page: int,
)
    requires
        page_listed(sources, terms, entries, page),
    ensures
        page_listed(sources, terms, entries.push(entry), page),
{
    if exists|k: int| 0 <= k < entries.len() && (#[trigger] entries[k]).page == page {
        let k = choose|k: int| 0 <= k < entries.len() && (#[trigger] entries[k]).page == page;
        assert(entries.push(entry)[k].page == page);
    }
}

/// Whether a page entry holds exactly the live offsets of a term.
pub open spec fn posting_page(
    sources: Seq<SegmentModel>,
    terms: Seq<Option<BitmapModel>>,
    entry: PageOffsets,
) -> bool {
    forall|b: int|
        #![trigger member(entry.offsets@, b)]
        0 <= b < 512 ==> member(entry.offsets@, b) == term_live(
            sources,
            terms,
            entry.page as int,
            b,
        )
}

/// Whether a page is among the entries or has no live offsets.
spec fn page_listed(
    sources: Seq<SegmentModel>,
    terms: Seq<Option<BitmapModel>>,
    entries: Seq<PageOffsets>,
    page: int,
) -> bool {
    (exists|k: int| 0 <= k < entries.len() && (#[trigger] entries[k]).page == page) || (forall|
        b: int,
    |
        0 <= b < 512 ==> !#[trigger] term_live(sources, terms, page, b))
}

proof fn posting_marks(
    key: GroupKey,
    sources: Seq<SegmentModel>,
    terms: Seq<Option<BitmapModel>>,
    entries: Seq<PageOffsets>,
)
    requires
        key_typed(key),
        pages_storable(key, entries, entries.len() as int),
        forall|k: int|
            0 <= k < entries.len() ==> #[trigger] posting_page(sources, terms, entries[k]),
        forall|page: int, b: int|
            0 <= b < 512 && term_live(sources, terms, page, b) ==> exists|k: int|
                0 <= k < entries.len() && (#[trigger] entries[k]).page == page,
    ensures
        marks_term(bitmap_code(key, BitmapKind::Posting, entries), key, sources, terms),
{
    let bytes = bitmap_code(key, BitmapKind::Posting, entries);
    bitmap_opens(key, BitmapKind::Posting, entries);
    let header = super::bitmap::bitmap_at(bytes)->Ok_0;
    let model = BitmapModel { header, bytes };
    super::bitmap::pages_bounds(key, entries, entries.len() as int);
    assert forall|page: int, b: int|
        #![trigger model.holds(page, b)]
        0 <= b < 512 implies model.holds(page, b) == term_live(sources, terms, page, b) by {
        if member(header.mask, page) {
            let k = choose|k: int| 0 <= k < entries.len() && #[trigger] entries[k].page == page;
            super::bitmap::bitmap_round_trip(key, BitmapKind::Posting, entries, k, b);
            assert(posting_page(sources, terms, entries[k]));
            assert(member(entries[k].offsets@, b) == term_live(sources, terms, page, b));
        } else if term_live(sources, terms, page, b) {
            let k = choose|k: int| 0 <= k < entries.len() && (#[trigger] entries[k]).page == page;
            assert(entries[k].page == page);
        }
    }
    assert forall|page: int| #[trigger] member(header.mask, page) implies model.payload_valid(
        page,
    ) by {
        let k = choose|k: int| 0 <= k < entries.len() && #[trigger] entries[k].page == page;
        super::bitmap::bitmap_round_trip(key, BitmapKind::Posting, entries, k, 0);
    }
}

fn union_pages(left: &PageMask, right: &PageMask) -> (mask: PageMask)
    ensures
        mask@ == crate::mask::either(left@, right@),
{
    let mut mask: PageMask = [0u64; 4];
    let mut i: usize = 0;
    while i < 4
        invariant
            i <= 4,
            forall|j: int| 0 <= j < i ==> mask@[j] == left@[j] | right@[j],
        decreases 4 - i,
    {
        mask[i] = left[i] | right[i];
        i += 1;
    }
    assert(mask@ =~= crate::mask::either(left@, right@));
    mask
}

proof fn layout_self(layout: crate::identity::HeapLayout)
    ensures
        crate::identity::HeapLayout::of(layout.max_offset()) == layout,
{
    layout.of_layout();
}

fn union_masks(left: &OffsetMask, right: &OffsetMask) -> (mask: OffsetMask)
    ensures
        mask@ == crate::mask::either(left@, right@),
{
    let mut mask: OffsetMask = [0u64; 8];
    let mut i: usize = 0;
    while i < 8
        invariant
            i <= 8,
            forall|j: int| 0 <= j < i ==> mask@[j] == left@[j] | right@[j],
        decreases 8 - i,
    {
        mask[i] = left[i] | right[i];
        i += 1;
    }
    assert(mask@ =~= crate::mask::either(left@, right@));
    mask
}

} // verus!
