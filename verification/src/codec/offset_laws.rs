//! An offset set has one encoding in each form.

use super::bytes::{extent, group_bytes, le_u16, u16_bytes, u16_bytes_of_le};
use super::offsets::{
    body_at, byte_set, member_set, offsets_round_trip, parsed, range_set, runs_at, sparse_at,
    Encoding, OffsetModel,
};
use super::Error;
use crate::identity::{group_identity, HeapLayout};
use crate::mask::{byte_bit, byte_member};
use vstd::prelude::*;

verus! {

broadcast use {group_bytes, group_identity};

/// The tag of a form.
pub open spec fn form_tag(encoding: Encoding) -> u8 {
    match encoding {
        Encoding::Sparse => 0,
        Encoding::Bitmap => 1,
        Encoding::Runs => 2,
    }
}

proof fn same_number(left: Seq<u8>, right: Seq<u8>, at: int)
    requires
        0 <= at,
        at + 2 <= left.len(),
        at + 2 <= right.len(),
        le_u16(left, at) == le_u16(right, at),
    ensures
        left[at] == right[at],
        left[at + 1] == right[at + 1],
{
    u16_bytes_of_le(left, at);
    u16_bytes_of_le(right, at);
    assert(left.subrange(at, at + 2) == right.subrange(at, at + 2));
    assert(left.subrange(at, at + 2)[0] == left[at]);
    assert(left.subrange(at, at + 2)[1] == left[at + 1]);
    assert(right.subrange(at, at + 2)[0] == right[at]);
    assert(right.subrange(at, at + 2)[1] == right[at + 1]);
}

proof fn sparse_above(bytes: Seq<u8>, at: int, remaining: nat, previous: u16, domain: u16)
    requires
        0 <= at,
        sparse_at(bytes, at, remaining, previous, domain) is Ok,
    ensures
        ({
            let (set, end) = sparse_at(bytes, at, remaining, previous, domain)->Ok_0;
            &&& end == at + 2 * remaining
            &&& remaining > 0 ==> end <= bytes.len()
            &&& forall|i: int| #[trigger] set.contains(i) ==> i >= previous
        }),
    decreases remaining,
{
    if remaining > 0 {
        let offset = le_u16(bytes, at);
        sparse_above(bytes, at + 2, (remaining - 1) as nat, offset, domain);
    }
}

proof fn sparse_once(
    left: Seq<u8>,
    right: Seq<u8>,
    at: int,
    remaining: nat,
    previous: u16,
    domain: u16,
)
    requires
        0 <= at,
        sparse_at(left, at, remaining, previous, domain) is Ok,
        sparse_at(right, at, remaining, previous, domain) is Ok,
        sparse_at(left, at, remaining, previous, domain)->Ok_0.0 == sparse_at(
            right,
            at,
            remaining,
            previous,
            domain,
        )->Ok_0.0,
    ensures
        forall|i: int| at <= i < at + 2 * remaining ==> left[i] == right[i],
    decreases remaining,
{
    if remaining > 0 {
        let less = (remaining - 1) as nat;
        let x = le_u16(left, at);
        let y = le_u16(right, at);
        sparse_above(left, at + 2, less, x, domain);
        sparse_above(right, at + 2, less, y, domain);
        let s = sparse_at(left, at + 2, less, x, domain)->Ok_0.0;
        let t = sparse_at(right, at + 2, less, y, domain)->Ok_0.0;
        let all = s.insert(x - 1);
        assert(all == t.insert(y - 1));
        assert(all.contains(x - 1));
        assert(t.insert(y - 1).contains(x - 1));
        assert(t.insert(y - 1).contains(y - 1));
        assert(s.insert(x - 1).contains(y - 1));
        assert(x == y);
        assert(!s.contains(x - 1));
        assert(!t.contains(x - 1));
        assert(s =~= all.remove(x - 1));
        assert(t =~= all.remove(x - 1));
        sparse_once(left, right, at + 2, less, x, domain);
        same_number(left, right, at);
    }
}

proof fn runs_above(bytes: Seq<u8>, at: int, remaining: nat, previous: u16, domain: u16)
    requires
        0 <= at,
        domain <= 512,
        runs_at(bytes, at, remaining, previous, domain) is Ok,
    ensures
        ({
            let (set, end) = runs_at(bytes, at, remaining, previous, domain)->Ok_0;
            &&& end == at + 4 * remaining
            &&& remaining > 0 ==> end <= bytes.len()
            &&& forall|i: int| #[trigger]
                set.contains(i) ==> 0 <= i && (previous != 0 ==> i > previous)
        }),
    decreases remaining,
{
    if remaining > 0 {
        let start = le_u16(bytes, at);
        let len = le_u16(bytes, at + 2);
        let end = start + len - 1;
        runs_above(bytes, at + 4, (remaining - 1) as nat, end as u16, domain);
        let rest = runs_at(bytes, at + 4, (remaining - 1) as nat, end as u16, domain)->Ok_0.0;
        assert forall|i: int| #[trigger]
            rest.union(range_set(start - 1, end)).contains(i) implies 0 <= i && (previous != 0
            ==> i > previous) by {
            if rest.contains(i) {
                assert(i > end);
            }
        }
    }
}

#[verifier::rlimit(40)]
proof fn runs_once(
    left: Seq<u8>,
    right: Seq<u8>,
    at: int,
    first: nat,
    second: nat,
    previous: u16,
    domain: u16,
)
    requires
        0 <= at,
        domain <= 512,
        runs_at(left, at, first, previous, domain) is Ok,
        runs_at(right, at, second, previous, domain) is Ok,
        runs_at(left, at, first, previous, domain)->Ok_0.0 == runs_at(
            right,
            at,
            second,
            previous,
            domain,
        )->Ok_0.0,
    ensures
        first == second,
        forall|i: int| at <= i < at + 4 * first ==> left[i] == right[i],
    decreases first,
{
    let all = runs_at(left, at, first, previous, domain)->Ok_0.0;
    let x = le_u16(left, at);
    let y = le_u16(right, at);
    let p = x + le_u16(left, at + 2) - 1;
    let q = y + le_u16(right, at + 2) - 1;
    if first > 0 {
        assert(range_set(x - 1, p).contains(x - 1));
        assert(all.contains(x - 1));
    }
    if second > 0 {
        assert(range_set(y - 1, q).contains(y - 1));
        assert(all.contains(y - 1));
    }
    if first > 0 && second > 0 {
        let less = (first - 1) as nat;
        let fewer = (second - 1) as nat;
        runs_above(left, at + 4, less, p as u16, domain);
        runs_above(right, at + 4, fewer, q as u16, domain);
        let s = runs_at(left, at + 4, less, p as u16, domain)->Ok_0.0;
        let t = runs_at(right, at + 4, fewer, q as u16, domain)->Ok_0.0;
        assert(all == s.union(range_set(x - 1, p)));
        assert(all == t.union(range_set(y - 1, q)));
        assert(s.contains(y - 1) || range_set(x - 1, p).contains(y - 1));
        assert(t.contains(x - 1) || range_set(y - 1, q).contains(x - 1));
        assert(x == y);
        assert(!all.contains(p));
        assert(!all.contains(q));
        if p < q {
            assert(range_set(y - 1, q).contains(p));
        }
        if q < p {
            assert(range_set(x - 1, p).contains(q));
        }
        assert(p == q);
        assert(s =~= t) by {
            assert forall|i: int| s.contains(i) == t.contains(i) by {
                assert(all.contains(i) == (s.contains(i) || range_set(x - 1, p).contains(i)));
                assert(all.contains(i) == (t.contains(i) || range_set(y - 1, q).contains(i)));
            }
        }
        runs_once(left, right, at + 4, less, fewer, p as u16, domain);
        same_number(left, right, at);
        same_number(left, right, at + 2);
    }
}

proof fn same_byte(left: u8, right: u8)
    requires
        forall|i: int| 0 <= i < 8 ==> #[trigger] byte_bit(left, i) == byte_bit(right, i),
    ensures
        left == right,
{
    assert(byte_bit(left, 0) == byte_bit(right, 0));
    assert(byte_bit(left, 1) == byte_bit(right, 1));
    assert(byte_bit(left, 2) == byte_bit(right, 2));
    assert(byte_bit(left, 3) == byte_bit(right, 3));
    assert(byte_bit(left, 4) == byte_bit(right, 4));
    assert(byte_bit(left, 5) == byte_bit(right, 5));
    assert(byte_bit(left, 6) == byte_bit(right, 6));
    assert(byte_bit(left, 7) == byte_bit(right, 7));
    assert(left == right) by (bit_vector)
        requires
            ((left >> 0u8) & 1u8 == 1u8) == ((right >> 0u8) & 1u8 == 1u8),
            ((left >> 1u8) & 1u8 == 1u8) == ((right >> 1u8) & 1u8 == 1u8),
            ((left >> 2u8) & 1u8 == 1u8) == ((right >> 2u8) & 1u8 == 1u8),
            ((left >> 3u8) & 1u8 == 1u8) == ((right >> 3u8) & 1u8 == 1u8),
            ((left >> 4u8) & 1u8 == 1u8) == ((right >> 4u8) & 1u8 == 1u8),
            ((left >> 5u8) & 1u8 == 1u8) == ((right >> 5u8) & 1u8 == 1u8),
            ((left >> 6u8) & 1u8 == 1u8) == ((right >> 6u8) & 1u8 == 1u8),
            ((left >> 7u8) & 1u8 == 1u8) == ((right >> 7u8) & 1u8 == 1u8),
    ;
}

proof fn bits_once(left: Seq<u8>, right: Seq<u8>)
    requires
        left.len() == right.len(),
        left.len() <= 64,
        byte_set(left) == byte_set(right),
    ensures
        left == right,
{
    assert forall|k: int| 0 <= k < left.len() implies left[k] == right[k] by {
        assert forall|i: int| 0 <= i < 8 implies #[trigger] byte_bit(left[k], i) == byte_bit(
            right[k],
            i,
        ) by {
            let place = 8 * k + i;
            assert(place / 8 == k && place % 8 == i);
            assert(byte_set(left).contains(place) == byte_member(left, place));
            assert(byte_set(right).contains(place) == byte_member(right, place));
        }
        same_byte(left[k], right[k]);
    }
    assert(left =~= right);
}

/// Two byte strings in one form that encode the same set are the same.
pub proof fn offsets_encoded_once(left: Seq<u8>, right: Seq<u8>, layout: HeapLayout)
    requires
        parsed(left, layout) is Ok,
        parsed(left, layout) == parsed(right, layout),
        left[4] == right[4],
        layout.max_offset() <= 512,
    ensures
        left == right,
{
    let domain = layout.max_offset();
    let count = le_u16(left, 2);
    let set = parsed(left, layout)->Ok_0;
    assert(body_at(left, domain, count, left[4])->Ok_0.0 == set);
    assert(le_u16(right, 2) == count);
    assert(body_at(right, domain, count, left[4])->Ok_0.0 == set);
    same_number(left, right, 0);
    same_number(left, right, 2);
    if left[4] == 0 {
        sparse_above(left, 6, count as nat, 0, domain);
        sparse_above(right, 6, count as nat, 0, domain);
        sparse_once(left, right, 6, count as nat, 0, domain);
    } else if left[4] == 1 {
        let len = (domain + 7) / 8;
        let one = extent(left, 6, len)->Ok_0;
        let two = extent(right, 6, len)->Ok_0;
        bits_once(one, two);
        assert forall|i: int| 6 <= i < 6 + len implies left[i] == right[i] by {
            assert(one[i - 6] == left[i]);
            assert(two[i - 6] == right[i]);
        }
    } else {
        let first = le_u16(left, 6) as nat;
        let second = le_u16(right, 6) as nat;
        runs_above(left, 8, first, 0, domain);
        runs_above(right, 8, second, 0, domain);
        runs_once(left, right, 8, first, second, 0, domain);
        same_number(left, right, 6);
    }
    assert(left =~= right);
}

/// What parses is the encoding of its set in the form that its tag names.
pub proof fn parsed_offsets_are_encoded(
    bytes: Seq<u8>,
    model: OffsetModel,
    encoding: Encoding,
    layout: HeapLayout,
)
    requires
        model.wf(),
        layout.max_offset() == model.domain,
        parsed(bytes, layout) == Ok::<Set<int>, Error>(member_set(model.words)),
        bytes[4] == form_tag(encoding),
    ensures
        bytes == model.code(encoding),
{
    offsets_round_trip(model, encoding, layout);
    let code = model.code(encoding);
    assert(u16_bytes(model.domain).len() == 2);
    assert(code[4] == form_tag(encoding));
    offsets_encoded_once(bytes, code, layout);
}

} // verus!
