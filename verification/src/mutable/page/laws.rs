//! What holds between writing and reading pages.

use super::grouped::{group_node_image, group_record_image};
use super::grouped_model::{entries_code, entry_at, CatalogEntry, GroupPageKind};
use super::model::{
    delta_at, delta_code, fragment_image, fresh_image, is_block, is_pair, owner_ref_at, owner_step,
    page_header, posting_outcomes, posting_step, read_image, term_at, term_code, term_outcomes,
    Image, OwnerChange, OwnerModel, OwnerRef, PageKind, TermModel, TermRef, BUCKETS, CAPACITY,
    NO_BLOCK,
};
use super::postings::SealedModel;
use crate::codec::bytes::{
    group_bytes, le_inside, le_u16, le_u16_of_bytes, le_u32, le_u32_of_bytes, le_u64,
    le_u64_of_bytes, splice, splice_fields, splice_u16, splice_u32, splice_u64, u16_bytes,
    u32_bytes, u64_bytes, var_bytes, var_bytes_len, var_u32_at, var_u32_canonical,
    var_u32_read_of_write, var_u64_at, var_u64_canonical, var_u64_read_of_write,
};
use crate::codec::records::Publication;
use crate::error::{Error, Result};
use crate::identity::{coordinate_error, group_identity, HeapLayout, RootTid, SegmentId};
use crate::mutable::document::{MAX_DOCUMENT_BYTES, MAX_TERM_BYTES};
use vstd::prelude::*;
use vstd::utf8::valid_utf8;

verus! {

broadcast use {group_bytes, group_identity};

/// A stored owner reference reads back, wherever its bytes stand.
pub proof fn owner_ref_round_trip(bytes: Seq<u8>, at: int, owner: OwnerRef)
    requires
        0 <= at,
        at + 16 <= bytes.len() <= usize::MAX,
        bytes.subrange(at, at + 16) == owner.code(),
        owner.valid(),
        owner.incarnation.get() != 0,
    ensures
        owner_ref_at(bytes, at) == Ok::<OwnerRef, Error>(owner),
{
    let code = owner.code();
    assert(bytes.subrange(at, at + 4) =~= code.subrange(0, 4));
    assert(code.subrange(0, 4) =~= u32_bytes(owner.page));
    assert(bytes.subrange(at + 4, at + 6) =~= code.subrange(4, 6));
    assert(code.subrange(4, 6) =~= u16_bytes(owner.slot));
    assert(bytes.subrange(at + 6, at + 8) =~= code.subrange(6, 8));
    assert(code.subrange(6, 8) =~= u16_bytes(0));
    assert(bytes.subrange(at + 8, at + 16) =~= code.subrange(8, 16));
    assert(code.subrange(8, 16) =~= u64_bytes(owner.incarnation.get()));
    le_u32_of_bytes(bytes, at, owner.page);
    le_u16_of_bytes(bytes, at + 4, owner.slot);
    le_u16_of_bytes(bytes, at + 6, 0);
    le_u64_of_bytes(bytes, at + 8, owner.incarnation.get());
}

/// Reading the bytes of a page gives that page again.
pub proof fn page_read_back(image: Image)
    requires
        image.block != NO_BLOCK,
        image.kind != PageKind::Zero,
        16 <= image.bytes.len() <= CAPACITY,
        image.bytes.take(12) == page_header(image.block, image.kind),
        image.check_next() is Ok,
    ensures
        read_image(image.block, image.bytes) == Ok::<Image, Error>(
            Image { initialize: false, ..image },
        ),
{
    let bytes = image.bytes;
    let head = page_header(image.block, image.kind);
    assert(bytes.take(4) =~= head.take(4));
    assert(head.take(4) =~= seq![0x50u8, 0x49u8, 0x4Eu8, 0x32u8]);
    assert(bytes.subrange(4, 6) =~= bytes.take(12).subrange(4, 6));
    assert(head.subrange(4, 6) =~= u16_bytes(2));
    assert(bytes.subrange(8, 12) =~= bytes.take(12).subrange(8, 12));
    assert(head.subrange(8, 12) =~= u32_bytes(image.block));
    le_u16_of_bytes(bytes, 4, 2);
    le_u32_of_bytes(bytes, 8, image.block);
    assert(bytes[6] == bytes.take(12)[6]);
    assert(bytes[7] == bytes.take(12)[7]);
    let found = Image { initialize: false, ..image };
    assert(found.check_next() == image.check_next());
}

/// A new page starts with its header, and no change behind the first twelve
/// bytes alters it.
pub proof fn header_kept(block: u32, kind: PageKind, image: Image, at: int, value: Seq<u8>)
    requires
        12 <= at,
        12 <= image.bytes.len(),
        image.bytes.take(12) == page_header(block, kind),
    ensures
        image.patched(at, value).bytes.take(12) == page_header(block, kind),
        fresh_image(block, kind) matches Ok(fresh) ==> fresh.bytes.take(12) == page_header(
            block,
            kind,
        ),
{
    assert(image.patched(at, value).bytes.take(12) =~= image.bytes.take(12));
    if let Ok(fresh) = fresh_image(block, kind) {
        assert(fresh.bytes.take(12) =~= page_header(block, kind));
    }
}

/// Incarnations are never handed out twice: the counter only grows, and at its
/// end it refuses.
pub proof fn incarnations_increase(image: Image)
    requires
        image.reserved_incarnation() is Ok,
    ensures
        ({
            let first = image.reserved_incarnation()->Ok_0;
            let after = image.patched(32, u64_bytes((first.get() + 1) as u64));
            match after.reserved_incarnation() {
                Ok(second) => second.get() == first.get() + 1,
                Err(error) => first.get() + 1 == u64::MAX && error == Error::Limit(
                    "incarnation space",
                ),
            }
        }),
{
    let first = image.reserved_incarnation()->Ok_0;
    splice_u64(image.bytes, 32, (first.get() + 1) as u64);
}

/// A bucket reads back as it was set, and setting it leaves the others.
pub proof fn bucket_read_back(image: Image, bucket: int, head: u32, tail: u32, other: int)
    requires
        image.kind == PageKind::Meta,
        image.bytes.len() >= 4160,
        0 <= bucket < BUCKETS,
        0 <= other < BUCKETS,
        is_pair(head, tail),
    ensures
        ({
            let after = image.patched(64 + bucket * 8, u32_bytes(head)).patched(
                68 + bucket * 8,
                u32_bytes(tail),
            );
            &&& after.bucket(bucket) == Ok::<(u32, u32), Error>((head, tail))
            &&& other != bucket ==> after.bucket(other) == image.bucket(other)
            &&& after.owner_chain() == image.owner_chain()
            &&& after.free_head() == image.free_head()
        }),
{
    let at = 64 + bucket * 8;
    let first = splice(image.bytes, at, u32_bytes(head));
    splice_u32(image.bytes, at, head);
    splice_u32(first, at + 4, tail);
    splice_fields(first, at + 4, u32_bytes(tail), at);
    let place = 64 + other * 8;
    splice_fields(image.bytes, at, u32_bytes(head), place);
    splice_fields(image.bytes, at, u32_bytes(head), place + 4);
    splice_fields(first, at + 4, u32_bytes(tail), place);
    splice_fields(first, at + 4, u32_bytes(tail), place + 4);
    splice_fields(image.bytes, at, u32_bytes(head), 40);
    splice_fields(image.bytes, at, u32_bytes(head), 44);
    splice_fields(image.bytes, at, u32_bytes(head), 48);
    splice_fields(first, at + 4, u32_bytes(tail), 40);
    splice_fields(first, at + 4, u32_bytes(tail), 44);
    splice_fields(first, at + 4, u32_bytes(tail), 48);
}

/// The owner chain and the free head read back as they were set.
pub proof fn chain_read_back(image: Image, head: u32, tail: u32, free: u32)
    requires
        image.kind == PageKind::Meta,
        image.bytes.len() >= 64,
        is_pair(head, tail),
        free == NO_BLOCK || is_block(free),
    ensures
        image.patched(40, u32_bytes(head)).patched(44, u32_bytes(tail)).owner_chain() == Ok::<
            (u32, u32),
            Error,
        >((head, tail)),
        image.patched(48, u32_bytes(free)).free_head() == Ok::<u32, Error>(free),
        image.patched(48, u32_bytes(free)).owner_chain() == image.owner_chain(),
{
    let first = splice(image.bytes, 40, u32_bytes(head));
    splice_u32(image.bytes, 40, head);
    splice_u32(first, 44, tail);
    splice_fields(first, 44, u32_bytes(tail), 40);
    splice_u32(image.bytes, 48, free);
    splice_fields(image.bytes, 48, u32_bytes(free), 40);
    splice_fields(image.bytes, 48, u32_bytes(free), 44);
}

/// A fragment page gives back its owner, place and bytes, and is well formed.
pub proof fn fragment_round_trip(
    block: u32,
    owner: OwnerRef,
    next: u32,
    offset: u32,
    payload: Seq<u8>,
    layout: HeapLayout,
)
    requires
        fragment_image(block, owner, next, offset, payload) is Ok,
        owner.incarnation.get() != 0,
    ensures
        ({
            let image = fragment_image(block, owner, next, offset, payload)->Ok_0;
            &&& image.fragment_data() == Ok::<(OwnerRef, u32, Seq<u8>), Error>(
                (owner, offset, payload),
            )
            &&& image.next() == Ok::<u32, Error>(next)
            &&& offset + payload.len() <= MAX_DOCUMENT_BYTES ==> image.check(layout) == Ok::<
                (),
                Error,
            >(())
        }),
{
    let image = fragment_image(block, owner, next, offset, payload)->Ok_0;
    let body = image.entries();
    assert(body =~= owner.code() + u32_bytes(offset) + payload);
    assert(body.subrange(0, 16) =~= owner.code());
    owner_ref_round_trip(body, 0, owner);
    assert(body.subrange(16, 20) =~= u32_bytes(offset));
    le_u32_of_bytes(body, 16, offset);
    assert(body.subrange(20, body.len() as int) =~= payload);
    assert(image.bytes.subrange(12, 16) =~= u32_bytes(next));
    le_u32_of_bytes(image.bytes, 12, next);
}

/// A document that was removed or abandoned stays so: no change applies to it.
pub proof fn terminal_owner_is_final(owner: OwnerModel, change: OwnerChange)
    requires
        owner.publication == Publication::Abandoned || (owner.publication == Publication::Published
            && !owner.live),
    ensures
        owner_step(owner, change) == Err::<(Publication, bool, u32), Error>(Error::InvalidState),
{
}

/// After a change the slot holds the new publication, liveness and payload
/// head, nothing else of it changes, and other slots read as before.
pub proof fn changed_owner_reads_back(
    image: Image,
    reference: OwnerRef,
    change: OwnerChange,
    layout: HeapLayout,
    other: u16,
)
    requires
        image.changed_owner(reference, change, layout) is Ok,
    ensures
        ({
            let after = image.changed_owner(reference, change, layout)->Ok_0;
            let before = image.owner(reference.slot, layout)->Ok_0;
            let (publication, live, head) = owner_step(before, change)->Ok_0;
            &&& after.owner_count() == image.owner_count()
            &&& after.owner(reference.slot, layout) == Ok::<OwnerModel, Error>(
                OwnerModel { publication, live, data_head: head, ..before },
            )
            &&& other != reference.slot ==> after.owner(other, layout) == image.owner(
                other,
                layout,
            )
        }),
{
    let before = image.owner(reference.slot, layout)->Ok_0;
    let (publication, live, head) = owner_step(before, change)->Ok_0;
    let at = 20 + reference.slot * 40;
    let flags = seq![
        publication.spec_tag(),
        if live {
            1u8
        } else {
            0u8
        },
    ];
    let first = splice(image.bytes, at + 14, flags);
    let after = splice(first, at + 24, u32_bytes(head));
    let count = image.owner_count()->Ok_0;
    assert(flags.len() == 2);
    unchanged_fields(image.bytes, at + 14, flags, 16);
    unchanged_fields(first, at + 24, u32_bytes(head), 16);
    unchanged_fields(image.bytes, at + 14, flags, 18);
    unchanged_fields(first, at + 24, u32_bytes(head), 18);
    owner_fields_kept(image.bytes, at, flags, head, at);
    splice_u32(first, at + 24, head);
    assert(after[at + 14] == flags[0]);
    assert(after[at + 15] == flags[1]);
    if before.inline.len() != 0 {
        let place = le_u16(image.bytes, at + 32) as int;
        let len = le_u16(image.bytes, at + 34) as int;
        assert(after.subrange(place, place + len) =~= image.bytes.subrange(place, place + len));
    }
    if other != reference.slot && other < count {
        let spot = 20 + other * 40;
        owner_fields_kept(image.bytes, at, flags, head, spot);
        splice_fields(image.bytes, at + 14, flags, spot + 24);
        splice_fields(first, at + 24, u32_bytes(head), spot + 24);
        assert(after[spot + 14] == image.bytes[spot + 14]);
        assert(after[spot + 15] == image.bytes[spot + 15]);
        let place = le_u16(image.bytes, spot + 32) as int;
        let len = le_u16(image.bytes, spot + 34) as int;
        if len != 0 && place >= 20 + count * 40 && place + len <= image.bytes.len() {
            assert(after.subrange(place, place + len) =~= image.bytes.subrange(place, place + len));
        }
    }
}

proof fn unchanged_fields(bytes: Seq<u8>, at: int, value: Seq<u8>, other: int)
    requires
        0 <= other,
        other + 2 <= at,
        at + value.len() <= bytes.len(),
    ensures
        le_u16(splice(bytes, at, value), other) == le_u16(bytes, other),
{
    splice_fields(bytes, at, value, other);
}

proof fn owner_fields_kept(bytes: Seq<u8>, at: int, flags: Seq<u8>, head: u32, spot: int)
    requires
        20 <= at,
        at + 40 <= bytes.len(),
        20 <= spot,
        spot + 40 <= bytes.len(),
        flags.len() == 2,
        spot == at || spot + 40 <= at || at + 40 <= spot,
    ensures
        ({
            let after = splice(splice(bytes, at + 14, flags), at + 24, u32_bytes(head));
            &&& le_u64(after, spot) == le_u64(bytes, spot)
            &&& le_u32(after, spot + 8) == le_u32(bytes, spot + 8)
            &&& le_u16(after, spot + 12) == le_u16(bytes, spot + 12)
            &&& le_u32(after, spot + 16) == le_u32(bytes, spot + 16)
            &&& le_u32(after, spot + 20) == le_u32(bytes, spot + 20)
            &&& le_u32(after, spot + 28) == le_u32(bytes, spot + 28)
            &&& le_u16(after, spot + 32) == le_u16(bytes, spot + 32)
            &&& le_u16(after, spot + 34) == le_u16(bytes, spot + 34)
            &&& le_u32(after, spot + 36) == le_u32(bytes, spot + 36)
        }),
{
    let first = splice(bytes, at + 14, flags);
    let code = u32_bytes(head);
    splice_fields(bytes, at + 14, flags, spot);
    splice_fields(first, at + 24, code, spot);
    splice_fields(bytes, at + 14, flags, spot + 8);
    splice_fields(first, at + 24, code, spot + 8);
    splice_fields(bytes, at + 14, flags, spot + 12);
    splice_fields(first, at + 24, code, spot + 12);
    splice_fields(bytes, at + 14, flags, spot + 16);
    splice_fields(first, at + 24, code, spot + 16);
    splice_fields(bytes, at + 14, flags, spot + 20);
    splice_fields(first, at + 24, code, spot + 20);
    splice_fields(bytes, at + 14, flags, spot + 28);
    splice_fields(first, at + 24, code, spot + 28);
    splice_fields(bytes, at + 14, flags, spot + 32);
    splice_fields(first, at + 24, code, spot + 32);
    splice_fields(bytes, at + 14, flags, spot + 34);
    splice_fields(first, at + 24, code, spot + 34);
    splice_fields(bytes, at + 14, flags, spot + 36);
    splice_fields(first, at + 24, code, spot + 36);
}

/// The end of a stream of references: where it stops and its last reference.
pub open spec fn stream_end(
    bytes: Seq<u8>,
    at: int,
    compressed: bool,
    remaining: nat,
    previous: Option<OwnerRef>,
) -> Option<OwnerRef>
    decreases remaining,
{
    if remaining == 0 {
        previous
    } else {
        match posting_step(bytes, at, compressed, previous) {
            Err(_) => previous,
            Ok((owner, len)) => stream_end(
                bytes,
                at + len,
                compressed,
                (remaining - 1) as nat,
                Some(owner),
            ),
        }
    }
}

proof fn delta_of_code(bytes: Seq<u8>, at: int, owner: OwnerRef, previous: Option<OwnerRef>)
    requires
        0 <= at,
        delta_code(owner, previous) is Ok,
        owner.incarnation.get() != 0,
        at + delta_code(owner, previous)->Ok_0.len() <= bytes.len() <= usize::MAX,
        bytes.subrange(at, at + delta_code(owner, previous)->Ok_0.len()) == delta_code(
            owner,
            previous,
        )->Ok_0,
    ensures
        delta_at(bytes, at, previous) == Ok::<(OwnerRef, nat), Error>(
            (owner, delta_code(owner, previous)->Ok_0.len()),
        ),
{
    let code = delta_code(owner, previous)->Ok_0;
    let (page, slot, incarnation) = match previous {
        Some(earlier) => (
            (owner.page - earlier.page) as u32,
            if owner.page == earlier.page {
                (owner.slot - earlier.slot) as u32
            } else {
                owner.slot as u32
            },
            (owner.incarnation.get() - earlier.incarnation.get()) as u64,
        ),
        None => (owner.page, owner.slot as u32, owner.incarnation.get()),
    };
    let a = var_bytes(page as nat);
    let b = var_bytes(slot as nat);
    let c = var_bytes(incarnation as nat);
    assert(code == a + b + c);
    assert(bytes.subrange(at, at + a.len()) =~= code.subrange(0, a.len() as int));
    assert(code.subrange(0, a.len() as int) =~= a);
    assert(bytes.subrange(at + a.len(), at + a.len() + b.len()) =~= code.subrange(
        a.len() as int,
        (a.len() + b.len()) as int,
    ));
    assert(code.subrange(a.len() as int, (a.len() + b.len()) as int) =~= b);
    assert(bytes.subrange(at + a.len() + b.len(), at + code.len()) =~= code.subrange(
        (a.len() + b.len()) as int,
        code.len() as int,
    ));
    assert(code.subrange((a.len() + b.len()) as int, code.len() as int) =~= c);
    var_u32_read_of_write(bytes, at, page);
    var_u32_read_of_write(bytes, at + a.len(), slot);
    var_u64_read_of_write(bytes, at + a.len() + b.len(), incarnation);
}

proof fn delta_stable(bytes: Seq<u8>, more: Seq<u8>, at: int, previous: Option<OwnerRef>)
    requires
        0 <= at,
        bytes.len() + more.len() <= usize::MAX,
        delta_at(bytes, at, previous) is Ok,
    ensures
        delta_at(bytes + more, at, previous) == delta_at(bytes, at, previous),
        at + delta_at(bytes, at, previous)->Ok_0.1 <= bytes.len(),
        delta_at(bytes, at, previous)->Ok_0.1 >= 3,
{
    let long = bytes + more;
    let (page, a) = var_u32_at(bytes, at)->Ok_0;
    let (slot, b) = var_u32_at(bytes, at + a)->Ok_0;
    let (incarnation, c) = var_u64_at(bytes, at + a + b)->Ok_0;
    var_u32_canonical(bytes, at);
    var_u32_canonical(bytes, at + a);
    var_u64_canonical(bytes, at + a + b);
    assert(long.subrange(at, at + a) =~= bytes.subrange(at, at + a));
    assert(long.subrange(at + a, at + a + b) =~= bytes.subrange(at + a, at + a + b));
    assert(long.subrange(at + a + b, at + a + b + c) =~= bytes.subrange(
        at + a + b,
        at + a + b + c,
    ));
    var_u32_read_of_write(long, at, page as u32);
    var_u32_read_of_write(long, at + a, slot as u32);
    var_u64_read_of_write(long, at + a + b, incarnation as u64);
}

/// Whether every outcome is a reference.
pub open spec fn all_ok(outcomes: Seq<Result<OwnerRef>>) -> bool {
    forall|i: int| 0 <= i < outcomes.len() ==> (#[trigger] outcomes[i]) is Ok
}

/// Appending the difference of one more owner to a clean compressed stream
/// appends that owner to what the stream decodes to.
pub proof fn stream_append(
    bytes: Seq<u8>,
    at: int,
    remaining: nat,
    previous: Option<OwnerRef>,
    owner: OwnerRef,
)
    requires
        0 <= at <= bytes.len(),
        all_ok(posting_outcomes(bytes, at, true, remaining, previous)),
        delta_code(owner, stream_end(bytes, at, true, remaining, previous)) is Ok,
        owner.incarnation.get() != 0,
        bytes.len() + delta_code(
            owner,
            stream_end(bytes, at, true, remaining, previous),
        )->Ok_0.len() <= usize::MAX,
    ensures
        ({
            let code = delta_code(
                owner,
                stream_end(bytes, at, true, remaining, previous),
            )->Ok_0;
            &&& posting_outcomes(bytes + code, at, true, remaining + 1, previous)
                == posting_outcomes(bytes, at, true, remaining, previous).push(Ok(owner))
            &&& stream_end(bytes + code, at, true, remaining + 1, previous) == Some(owner)
        }),
    decreases remaining,
{
    let end = stream_end(bytes, at, true, remaining, previous);
    let code = delta_code(owner, end)->Ok_0;
    let long = bytes + code;
    let before = posting_outcomes(bytes, at, true, remaining, previous);
    if remaining == 0 {
        if at < bytes.len() {
            assert(before[0] is Err);
        }
        assert(at == bytes.len());
        assert(long.subrange(at, at + code.len()) =~= code);
        delta_of_code(long, at, owner, previous);
        assert(posting_outcomes(long, at + code.len(), true, 0, Some(owner)) =~= Seq::empty());
        assert(posting_outcomes(long, at, true, 1, previous) =~= before.push(Ok(owner)));
        assert(stream_end(long, at + code.len(), true, 0, Some(owner)) == Some(owner));
    } else {
        assert(before[0] is Ok);
        let (first, len) = delta_at(bytes, at, previous)->Ok_0;
        delta_stable(bytes, code, at, previous);
        let rest = posting_outcomes(bytes, at + len, true, (remaining - 1) as nat, Some(first));
        assert forall|i: int| 0 <= i < rest.len() implies (#[trigger] rest[i]) is Ok by {
            assert(before[i + 1] == rest[i]);
        }
        stream_append(bytes, at + len, (remaining - 1) as nat, Some(first), owner);
        assert(posting_outcomes(long, at, true, remaining + 1, previous) =~= seq![
            Ok::<OwnerRef, Error>(first),
        ] + posting_outcomes(long, at + len, true, remaining, Some(first)));
        assert(seq![Ok::<OwnerRef, Error>(first)] + rest.push(Ok(owner)) =~= before.push(
            Ok(owner),
        ));
    }
}

/// A sealed page under construction that decodes to the references given so far.
pub open spec fn sealed_holds(model: SealedModel, owners: Seq<OwnerRef>) -> bool {
    &&& model.image.kind == PageKind::SealedPostings
    &&& 24 <= model.image.bytes.len() <= CAPACITY
    &&& model.count == owners.len()
    &&& model.count <= CAPACITY
    &&& model.previous == (if owners.len() == 0 {
        None
    } else {
        Some(owners.last())
    })
    &&& model.count > 0 ==> le_u16(model.image.bytes, 22) == model.count
    &&& 3 * model.count <= model.image.bytes.len() - 24
    &&& posting_outcomes(
        model.image.bytes.subrange(24, model.image.bytes.len() as int),
        0,
        true,
        model.count,
        None,
    ) == owners.map_values(|owner: OwnerRef| Ok::<OwnerRef, Error>(owner))
    &&& stream_end(
        model.image.bytes.subrange(24, model.image.bytes.len() as int),
        0,
        true,
        model.count,
        None,
    ) == model.previous
}

/// A sealed page decodes to exactly the references that were pushed, in order.
pub proof fn sealed_push_decodes(model: SealedModel, owners: Seq<OwnerRef>, owner: OwnerRef)
    requires
        sealed_holds(model, owners),
        model.pushed(owner) matches Ok(Some(_)),
        owner.incarnation.get() != 0,
    ensures
        sealed_holds(model.pushed(owner)->Ok_0->Some_0, owners.push(owner)),
        model.pushed(owner)->Ok_0->Some_0.image.posting_stream() matches Ok(stream)
            && stream.outcomes() == owners.push(owner).map_values(
            |owner: OwnerRef| Ok::<OwnerRef, Error>(owner),
        ),
{
    let ok = |owner: OwnerRef| Ok::<OwnerRef, Error>(owner);
    let after = model.pushed(owner)->Ok_0->Some_0;
    let code = delta_code(owner, model.previous)->Ok_0;
    let bytes = model.image.bytes;
    let stream = bytes.subrange(24, bytes.len() as int);
    let joined = bytes + code;
    let number = u16_bytes((model.count + 1) as u16);
    delta_code_len(owner, model.previous);
    assert forall|i: int| 0 <= i < owners.len() implies (#[trigger] owners.map_values(ok)[i])
        is Ok by {}
    stream_append(stream, 0, model.count, None, owner);
    splice_u16(joined, 22, (model.count + 1) as u16);
    assert(after.image.bytes.subrange(24, after.image.bytes.len() as int) =~= stream + code);
    assert(owners.push(owner).map_values(ok) =~= owners.map_values(ok).push(ok(owner)));
}

proof fn delta_code_len(owner: OwnerRef, previous: Option<OwnerRef>)
    requires
        delta_code(owner, previous) is Ok,
    ensures
        3 <= delta_code(owner, previous)->Ok_0.len() <= 20,
{
    match previous {
        Some(earlier) => {
            var_bytes_len((owner.page - earlier.page) as nat);
            var_bytes_len((owner.slot - earlier.slot) as nat);
            var_bytes_len(owner.slot as nat);
            var_bytes_len((owner.incarnation.get() - earlier.incarnation.get()) as nat);
        },
        None => {
            var_bytes_len(owner.page as nat);
            var_bytes_len(owner.slot as nat);
            var_bytes_len(owner.incarnation.get() as nat);
        },
    }
}

/// A direct page under construction that decodes to the references given so
/// far, with a live coordinate for each.
pub open spec fn direct_holds(
    model: SealedModel,
    owners: Seq<OwnerRef>,
    roots: Seq<RootTid>,
) -> bool {
    let bytes = model.image.bytes;
    let stream = bytes.subrange((56 + 8 * model.count) as int, bytes.len() as int);
    &&& model.image.kind == PageKind::DirectPostings
    &&& 56 + 11 * model.count <= bytes.len() <= CAPACITY
    &&& model.count == owners.len() == roots.len()
    &&& model.previous == (if owners.len() == 0 {
        None
    } else {
        Some(owners.last())
    })
    &&& model.count > 0 ==> le_u16(bytes, 22) == model.count
    &&& model.count > 0 ==> bytes.subrange(24, 40) == owners[0].code()
    &&& model.count > 0 ==> bytes.subrange(40, 56) == owners.last().code()
    &&& forall|i: int|
        0 <= i < roots.len() ==> bytes.subrange(56 + 8 * i, 64 + 8 * i)
            == super::postings::root_code(#[trigger] roots[i])
    &&& posting_outcomes(stream, 0, true, model.count, None) == owners.map_values(
        |owner: OwnerRef| Ok::<OwnerRef, Error>(owner),
    )
    &&& stream_end(stream, 0, true, model.count, None) == model.previous
}

/// A direct page decodes to exactly the references that were pushed, in order,
/// and keeps the coordinate of each.
pub proof fn direct_push_decodes(
    model: SealedModel,
    owners: Seq<OwnerRef>,
    roots: Seq<RootTid>,
    owner: OwnerRef,
    root: RootTid,
)
    requires
        direct_holds(model, owners, roots),
        model.pushed_direct(owner, root) matches Ok(Some(_)),
        owner.incarnation.get() != 0,
    ensures
        direct_holds(
            model.pushed_direct(owner, root)->Ok_0->Some_0,
            owners.push(owner),
            roots.push(root),
        ),
{
    let ok = |owner: OwnerRef| Ok::<OwnerRef, Error>(owner);
    let after = model.pushed_direct(owner, root)->Ok_0->Some_0;
    let code = delta_code(owner, model.previous)->Ok_0;
    let bytes = model.image.bytes;
    let at = 56 + 8 * model.count;
    let stream = bytes.subrange(at as int, bytes.len() as int);
    let coordinate = super::postings::root_code(root);
    let joined = bytes.take(at as int) + coordinate + bytes.skip(at as int) + code;
    let first = if model.count == 0 {
        splice(joined, 24, owner.code())
    } else {
        joined
    };
    let second = splice(first, 40, owner.code());
    let number = u16_bytes((model.count + 1) as u16);
    let whole = after.image.bytes;
    delta_code_len(owner, model.previous);
    assert forall|i: int| 0 <= i < owners.len() implies (#[trigger] owners.map_values(ok)[i])
        is Ok by {}
    stream_append(stream, 0, model.count, None, owner);
    splice_u16(second, 22, (model.count + 1) as u16);
    assert(whole.subrange(40, 56) =~= owner.code());
    if model.count == 0 {
        assert(whole.subrange(24, 40) =~= owner.code());
    } else {
        assert(whole.subrange(24, 40) =~= bytes.subrange(24, 40));
    }
    assert(whole.subrange((56 + 8 * after.count) as int, whole.len() as int) =~= stream + code);
    assert(owners.push(owner).map_values(ok) =~= owners.map_values(ok).push(ok(owner)));
    assert forall|i: int| 0 <= i < roots.len() + 1 implies whole.subrange(56 + 8 * i, 64 + 8 * i)
        == super::postings::root_code(#[trigger] roots.push(root)[i]) by {
        if i < roots.len() {
            assert(whole.subrange(56 + 8 * i, 64 + 8 * i) =~= bytes.subrange(
                56 + 8 * i,
                64 + 8 * i,
            ));
            assert(roots.push(root)[i] == roots[i]);
        } else {
            assert(whole.subrange(56 + 8 * i, 64 + 8 * i) =~= coordinate);
        }
    }
}

/// The coordinate that was pushed with a reference reads back as live, and a
/// removed one reads back as gone.
pub proof fn direct_root_reads_back(
    model: SealedModel,
    owners: Seq<OwnerRef>,
    roots: Seq<RootTid>,
    slot: u16,
    layout: HeapLayout,
)
    requires
        direct_holds(model, owners, roots),
        slot < model.count,
        coordinate_error(roots[slot as int].block(), roots[slot as int].offset(), layout) is None,
    ensures
        model.image.direct_root(slot, layout) == Ok::<Option<RootTid>, Error>(
            Some(roots[slot as int]),
        ),
        model.image.patched(62 + slot * 8, seq![0u8]).direct_root(slot, layout) == Ok::<
            Option<RootTid>,
            Error,
        >(None),
{
    let bytes = model.image.bytes;
    let at = 56 + slot * 8;
    let root = roots[slot as int];
    let code = super::postings::root_code(root);
    assert(bytes.subrange(at, at + 8) == code);
    assert(bytes.subrange(at, at + 4) =~= code.subrange(0, 4));
    assert(code.subrange(0, 4) =~= u32_bytes(root.block()));
    assert(bytes.subrange(at + 4, at + 6) =~= code.subrange(4, 6));
    assert(code.subrange(4, 6) =~= u16_bytes(root.offset()));
    le_u32_of_bytes(bytes, at, root.block());
    le_u16_of_bytes(bytes, at + 4, root.offset());
    assert(bytes[at + 6] == bytes.subrange(at, at + 8)[6]);
    assert(bytes[at + 7] == bytes.subrange(at, at + 8)[7]);
    splice_fields(bytes, at + 6, seq![0u8], at);
    splice_fields(bytes, at + 6, seq![0u8], at + 4);
    splice_fields(bytes, at + 6, seq![0u8], 22);
}

/// References appended to an open page read back in order.
pub proof fn append_posting_reads_back(
    bytes: Seq<u8>,
    at: int,
    remaining: nat,
    previous: Option<OwnerRef>,
    owner: OwnerRef,
)
    requires
        0 <= at <= bytes.len(),
        bytes.len() + 16 <= usize::MAX,
        bytes.len() == at + 16 * remaining,
        all_ok(posting_outcomes(bytes, at, false, remaining, previous)),
        owner.valid(),
        owner.incarnation.get() != 0,
    ensures
        posting_outcomes(bytes + owner.code(), at, false, remaining + 1, previous)
            == posting_outcomes(bytes, at, false, remaining, previous).push(Ok(owner)),
    decreases remaining,
{
    let long = bytes + owner.code();
    let before = posting_outcomes(bytes, at, false, remaining, previous);
    if remaining == 0 {
        assert(long.subrange(at, at + 16) =~= owner.code());
        owner_ref_round_trip(long, at, owner);
        assert(posting_outcomes(long, at + 16, false, 0, Some(owner)) =~= Seq::empty());
        assert(posting_outcomes(long, at, false, 1, previous) =~= before.push(Ok(owner)));
    } else {
        assert(before[0] is Ok);
        let first = owner_ref_at(bytes, at)->Ok_0;
        le_inside(long, 0, bytes.len() as int, at);
        le_inside(long, 0, bytes.len() as int, at + 4);
        le_inside(long, 0, bytes.len() as int, at + 6);
        le_inside(long, 0, bytes.len() as int, at + 8);
        assert(long.subrange(0, bytes.len() as int) =~= bytes);
        let rest = posting_outcomes(
            bytes,
            at + 16,
            false,
            (remaining - 1) as nat,
            Some(first),
        );
        assert forall|i: int| 0 <= i < rest.len() implies (#[trigger] rest[i]) is Ok by {
            assert(before[i + 1] == rest[i]);
        }
        append_posting_reads_back(bytes, at + 16, (remaining - 1) as nat, Some(first), owner);
        assert(seq![Ok::<OwnerRef, Error>(first)] + rest.push(Ok(owner)) =~= before.push(
            Ok(owner),
        ));
    }
}

/// Whether every outcome is an entry.
pub open spec fn all_terms(outcomes: Seq<Result<TermModel>>) -> bool {
    forall|i: int| 0 <= i < outcomes.len() ==> (#[trigger] outcomes[i]) is Ok
}

proof fn term_stable(page: u32, entries: Seq<u8>, more: Seq<u8>, at: int)
    requires
        0 <= at <= entries.len(),
        entries.len() + more.len() <= CAPACITY,
        term_at(page, entries, at) is Ok,
    ensures
        term_at(page, entries + more, at) == term_at(page, entries, at),
        at < term_at(page, entries, at)->Ok_0.1 <= entries.len(),
{
    let long = entries + more;
    let n = entries.len() as int;
    assert(long.subrange(0, n) =~= entries);
    le_inside(long, 0, n, at);
    le_inside(long, 0, n, at + 2);
    le_inside(long, 0, n, at + 4);
    le_inside(long, 0, n, at + 8);
    le_inside(long, 0, n, at + 12);
    le_inside(long, 0, n, at + 16);
    le_inside(long, 0, n, at + 18);
    le_inside(long, 0, n, at + 20);
    le_inside(long, 0, n, at + 28);
    let len = le_u16(entries, at) as int;
    assert(long.subrange(at + 32, at + 32 + len) =~= entries.subrange(at + 32, at + 32 + len));
}

proof fn term_of_code(page: u32, entries: Seq<u8>, term: Seq<u8>, first: OwnerRef)
    requires
        1 <= term.len() <= MAX_TERM_BYTES,
        valid_utf8(term),
        first.valid(),
        first.incarnation.get() != 0,
        entries.len() + 48 + term.len() <= CAPACITY,
    ensures
        term_at(page, entries + term_code(term, first), entries.len() as int) == Ok::<
            (TermModel, int),
            Error,
        >(
            (
                TermModel {
                    reference: TermRef { page, offset: (entries.len() + 16) as u16 },
                    term,
                    first,
                    head: NO_BLOCK,
                    tail: NO_BLOCK,
                },
                (entries.len() + 32 + term.len()) as int,
            ),
        ),
        term_code(term, first).len() == 32 + term.len(),
{
    let code = term_code(term, first);
    let long = entries + code;
    let at = entries.len() as int;
    assert(long.subrange(at, at + 2) =~= u16_bytes(term.len() as u16));
    assert(long.subrange(at + 2, at + 4) =~= u16_bytes(0));
    assert(long.subrange(at + 4, at + 8) =~= u32_bytes(NO_BLOCK));
    assert(long.subrange(at + 8, at + 12) =~= u32_bytes(NO_BLOCK));
    assert(long.subrange(at + 12, at + 28) =~= first.code());
    assert(long.subrange(at + 28, at + 32) =~= u32_bytes(0));
    assert(long.subrange(at + 32, at + 32 + term.len()) =~= term);
    le_u16_of_bytes(long, at, term.len() as u16);
    le_u16_of_bytes(long, at + 2, 0);
    le_u32_of_bytes(long, at + 4, NO_BLOCK);
    le_u32_of_bytes(long, at + 8, NO_BLOCK);
    owner_ref_round_trip(long, at + 12, first);
    le_u32_of_bytes(long, at + 28, 0);
}

proof fn terms_append(page: u32, entries: Seq<u8>, at: int, term: Seq<u8>, first: OwnerRef)
    requires
        0 <= at <= entries.len(),
        all_terms(term_outcomes(page, entries, at)),
        1 <= term.len() <= MAX_TERM_BYTES,
        valid_utf8(term),
        first.valid(),
        first.incarnation.get() != 0,
        entries.len() + 48 + term.len() <= CAPACITY,
    ensures
        term_outcomes(page, entries + term_code(term, first), at) == term_outcomes(
            page,
            entries,
            at,
        ).push(
            Ok(
                TermModel {
                    reference: TermRef { page, offset: (entries.len() + 16) as u16 },
                    term,
                    first,
                    head: NO_BLOCK,
                    tail: NO_BLOCK,
                },
            ),
        ),
    decreases entries.len() - at,
{
    let code = term_code(term, first);
    let long = entries + code;
    let before = term_outcomes(page, entries, at);
    term_of_code(page, entries, term, first);
    if at == entries.len() {
        let model = TermModel {
            reference: TermRef { page, offset: (entries.len() + 16) as u16 },
            term,
            first,
            head: NO_BLOCK,
            tail: NO_BLOCK,
        };
        assert(term_outcomes(page, long, long.len() as int) =~= Seq::empty());
        assert(term_outcomes(page, long, at) =~= before.push(Ok(model)));
    } else {
        assert(before[0] is Ok);
        let (model, end) = term_at(page, entries, at)->Ok_0;
        term_stable(page, entries, code, at);
        let rest = term_outcomes(page, entries, end);
        assert forall|i: int| 0 <= i < rest.len() implies (#[trigger] rest[i]) is Ok by {
            assert(before[i + 1] == rest[i]);
        }
        terms_append(page, entries, end, term, first);
        let added = term_outcomes(page, long, end).last();
        assert(seq![Ok::<TermModel, Error>(model)] + rest.push(added) =~= before.push(added));
    }
}

/// A dictionary lists the entries that were appended, in order; appending
/// leaves the earlier ones as they were.
pub proof fn append_term_reads_back(image: Image, term: Seq<u8>, first: OwnerRef)
    requires
        image.kind == PageKind::Dictionary,
        16 <= image.bytes.len(),
        image.bytes.len() + 32 + term.len() <= CAPACITY,
        all_terms(image.terms()->Ok_0),
        1 <= term.len() <= MAX_TERM_BYTES,
        valid_utf8(term),
        first.valid(),
        first.incarnation.get() != 0,
    ensures
        ({
            let after = Image { bytes: image.bytes + term_code(term, first), ..image };
            after.terms()->Ok_0 == image.terms()->Ok_0.push(
                Ok(
                    TermModel {
                        reference: TermRef {
                            page: image.block,
                            offset: image.bytes.len() as u16,
                        },
                        term,
                        first,
                        head: NO_BLOCK,
                        tail: NO_BLOCK,
                    },
                ),
            )
        }),
{
    let after = Image { bytes: image.bytes + term_code(term, first), ..image };
    assert(after.entries() =~= image.entries() + term_code(term, first));
    terms_append(image.block, image.entries(), 0, term, first);
}

/// The fragment of a grouped record reads back as it was stored.
pub proof fn group_record_round_trip(
    block: u32,
    id: SegmentId,
    kind: GroupPageKind,
    key: Seq<u64>,
    total: u32,
    offset: u32,
    bytes: Seq<u8>,
)
    requires
        group_record_image(block, id, kind, key, total, offset, bytes) is Ok,
        id.get() != 0,
        key.len() == 2,
    ensures
        ({
            let data = group_record_image(
                block,
                id,
                kind,
                key,
                total,
                offset,
                bytes,
            )->Ok_0.group_data()->Ok_0;
            &&& data.id == id
            &&& data.kind == kind
            &&& data.key == key
            &&& data.total == total
            &&& data.offset == offset
            &&& data.bytes == bytes
        }),
{
    let image = group_record_image(block, id, kind, key, total, offset, bytes)->Ok_0;
    assert(image.bytes.subrange(16, 32) =~= seq![0x47u8, 0x39u8, 0x50u8, 0x47u8] + u16_bytes(1)
        + seq![kind.spec_tag()] + seq![0u8] + u64_bytes(id.get()));
    grouped_start(image, id, kind);
    assert(image.bytes.subrange(32, 40) =~= u64_bytes(key[0]));
    assert(image.bytes.subrange(40, 48) =~= u64_bytes(key[1]));
    assert(image.bytes.subrange(48, 52) =~= u32_bytes(total));
    assert(image.bytes.subrange(52, 56) =~= u32_bytes(offset));
    le_u64_of_bytes(image.bytes, 32, key[0]);
    le_u64_of_bytes(image.bytes, 40, key[1]);
    le_u32_of_bytes(image.bytes, 48, total);
    le_u32_of_bytes(image.bytes, 52, offset);
    assert(seq![key[0], key[1]] =~= key);
    assert(image.bytes.subrange(56, image.bytes.len() as int) =~= bytes);
}

pub(crate) proof fn grouped_start(image: Image, id: SegmentId, kind: GroupPageKind)
    requires
        image.kind == PageKind::Grouped,
        image.bytes.len() >= 32,
        image.bytes.subrange(16, 32) == seq![0x47u8, 0x39u8, 0x50u8, 0x47u8] + u16_bytes(1)
            + seq![kind.spec_tag()] + seq![0u8] + u64_bytes(id.get()),
        id.get() != 0,
    ensures
        image.group_identity() == Ok::<(SegmentId, GroupPageKind), Error>((id, kind)),
{
    let body = image.entries();
    let start = image.bytes.subrange(16, 32);
    assert(body.take(4) =~= start.take(4));
    assert(start.take(4) =~= seq![0x47u8, 0x39u8, 0x50u8, 0x47u8]);
    assert(body.subrange(4, 6) =~= start.subrange(4, 6));
    assert(start.subrange(4, 6) =~= u16_bytes(1));
    assert(body.subrange(8, 16) =~= start.subrange(8, 16));
    assert(start.subrange(8, 16) =~= u64_bytes(id.get()));
    le_u16_of_bytes(body, 4, 1);
    le_u64_of_bytes(body, 8, id.get());
    assert(body[6] == start[6]);
    assert(body[7] == start[7]);
}

proof fn entry_of_code(entries: Seq<CatalogEntry>, index: int)
    requires
        0 <= index < entries.len(),
    ensures
        entries_code(entries).len() == 80 * entries.len(),
        entry_at(entries_code(entries), index) == entries[index]@,
    decreases entries.len(),
{
    let code = entries_code(entries);
    let last = entries.len() - 1;
    let short = entries_code(entries.drop_last());
    if last > 0 {
        entry_of_code(
            entries.drop_last(),
            if index < last {
                index
            } else {
                0
            },
        );
    } else {
        assert(short =~= Seq::<u8>::empty());
    }
    let at = index * 80;
    if index == last {
        let entry = entries.last();
        assert(code.subrange(at, at + 8) =~= u64_bytes(entry.key@[0]));
        assert(code.subrange(at + 8, at + 16) =~= u64_bytes(entry.key@[1]));
        le_u64_of_bytes(code, at, entry.key@[0]);
        le_u64_of_bytes(code, at + 8, entry.key@[1]);
        assert(entry_at(code, index).key =~= entry.key@);
        assert(entry_at(code, index).value =~= entry.value@);
    } else {
        assert(code.subrange(0, short.len() as int) =~= short);
        le_inside(code, 0, short.len() as int, at);
        le_inside(code, 0, short.len() as int, at + 8);
        assert(entry_at(code, index).key =~= entry_at(short, index).key);
        assert(entry_at(code, index).value =~= entry_at(short, index).value);
        assert(entries.drop_last()[index] == entries[index]);
    }
}

proof fn node_fields(
    image: Image,
    start: Seq<u8>,
    id: SegmentId,
    kind: GroupPageKind,
    level: u8,
    count: u16,
    rest: Seq<u8>,
)
    requires
        image.kind == PageKind::Grouped,
        start.len() == 32,
        start.subrange(16, 32) == seq![0x47u8, 0x39u8, 0x50u8, 0x47u8] + u16_bytes(1) + seq![
            kind.spec_tag(),
        ] + seq![0u8] + u64_bytes(id.get()),
        id.get() != 0,
        image.bytes == start + seq![level] + seq![0u8] + u16_bytes(count) + u32_bytes(0) + rest,
    ensures
        image.group_identity() == Ok::<(SegmentId, GroupPageKind), Error>((id, kind)),
        image.bytes[32] == level,
        image.bytes[33] == 0,
        le_u16(image.bytes, 34) == count,
        le_u32(image.bytes, 36) == 0,
        image.node_entries() == rest,
{
    assert(image.bytes.subrange(16, 32) =~= start.subrange(16, 32));
    grouped_start(image, id, kind);
    assert(image.bytes.subrange(34, 36) =~= u16_bytes(count));
    le_u16_of_bytes(image.bytes, 34, count);
    assert(image.bytes.subrange(36, 40) =~= u32_bytes(0));
    le_u32_of_bytes(image.bytes, 36, 0);
    assert(image.node_entries() =~= rest);
}

/// The entries of a catalog node read back as they were stored, in strictly
/// increasing key order.
pub proof fn group_node_round_trip(
    block: u32,
    id: SegmentId,
    level: u8,
    entries: Seq<CatalogEntry>,
    index: int,
)
    requires
        group_node_image(block, id, level, entries) is Ok,
        id.get() != 0,
        0 <= index < entries.len(),
    ensures
        ({
            let image = group_node_image(block, id, level, entries)->Ok_0;
            &&& image.group_node_info() == Ok::<(u8, u16), Error>((level, entries.len() as u16))
            &&& entry_at(image.node_entries(), index) == entries[index]@
            &&& image.node_entry_valid(level, index)
        }),
{
    let image = group_node_image(block, id, level, entries)->Ok_0;
    let kind = if level == 0 {
        GroupPageKind::Leaf
    } else {
        GroupPageKind::Branch
    };
    let start = super::grouped_model::grouped_image(block, id, kind)->Ok_0.bytes;
    entry_of_code(entries, index);
    assert(start.len() == 32);
    assert(start.subrange(16, 32) =~= seq![0x47u8, 0x39u8, 0x50u8, 0x47u8] + u16_bytes(1)
        + seq![kind.spec_tag()] + seq![0u8] + u64_bytes(id.get()));
    node_fields(image, start, id, kind, level, entries.len() as u16, entries_code(entries));
    assert(image.check_group_node() is Ok);
    assert(image.group_node_info() == Ok::<(u8, u16), Error>((level, entries.len() as u16)));
    assert(image.node_entries_valid(level, entries.len() as u16));
    assert(image.node_entry_valid(level, index));
}

} // verus!
