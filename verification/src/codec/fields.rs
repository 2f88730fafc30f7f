//! Little-endian fields as functions of byte sequences.

use vstd::prelude::*;

verus! {

/// `bytes` with `value` written over the range that starts at `at`.
pub open spec fn splice(bytes: Seq<u8>, at: int, value: Seq<u8>) -> Seq<u8> {
    Seq::new(
        bytes.len(),
        |i: int|
            if at <= i < at + value.len() {
                value[i - at]
            } else {
                bytes[i]
            },
    )
}

/// The little-endian 16-bit number at `at`.
#[verifier::opaque]
pub open spec fn le_u16(bytes: Seq<u8>, at: int) -> u16 {
    (bytes[at] as int + 0x100 * bytes[at + 1] as int) as u16
}

/// The little-endian 32-bit number at `at`.
#[verifier::opaque]
pub open spec fn le_u32(bytes: Seq<u8>, at: int) -> u32 {
    (bytes[at] as int + 0x100 * bytes[at + 1] as int + 0x1_0000 * bytes[at + 2] as int
        + 0x100_0000 * bytes[at + 3] as int) as u32
}

/// The little-endian 64-bit number at `at`.
#[verifier::opaque]
pub open spec fn le_u64(bytes: Seq<u8>, at: int) -> u64 {
    (le_u32(bytes, at) as int + 0x1_0000_0000 * le_u32(bytes, at + 4) as int) as u64
}

/// The two little-endian bytes of `value`.
#[verifier::opaque]
pub open spec fn u16_bytes(value: u16) -> Seq<u8> {
    seq![(value % 0x100) as u8, (value / 0x100) as u8]
}

/// The four little-endian bytes of `value`.
#[verifier::opaque]
pub open spec fn u32_bytes(value: u32) -> Seq<u8> {
    seq![
        (value % 0x100) as u8,
        (value / 0x100 % 0x100) as u8,
        (value / 0x1_0000 % 0x100) as u8,
        (value / 0x100_0000) as u8,
    ]
}

/// The eight little-endian bytes of `value`.
#[verifier::opaque]
pub open spec fn u64_bytes(value: u64) -> Seq<u8> {
    u32_bytes((value % 0x1_0000_0000) as u32) + u32_bytes((value / 0x1_0000_0000) as u32)
}

pub broadcast proof fn u16_bytes_len(value: u16)
    ensures
        (#[trigger] u16_bytes(value)).len() == 2,
{
    reveal(u16_bytes);
}

pub broadcast proof fn u32_bytes_len(value: u32)
    ensures
        (#[trigger] u32_bytes(value)).len() == 4,
{
    reveal(u32_bytes);
}

pub broadcast proof fn u64_bytes_len(value: u64)
    ensures
        (#[trigger] u64_bytes(value)).len() == 8,
{
    reveal(u32_bytes);
    reveal(u64_bytes);
}

/// Writing `value` at `at` leaves what is before and after it, and reads back as `value`.
pub proof fn splice_parts(bytes: Seq<u8>, at: int, value: Seq<u8>)
    requires
        0 <= at,
        at + value.len() <= bytes.len(),
    ensures
        splice(bytes, at, value).len() == bytes.len(),
        splice(bytes, at, value).take(at + value.len()) == bytes.take(at) + value,
        splice(bytes, at, value).skip(at + value.len()) == bytes.skip(at + value.len()),
        splice(bytes, at, value).subrange(at, at + value.len()) == value,
{
    let after = splice(bytes, at, value);
    assert(after.take(at + value.len()) =~= bytes.take(at) + value);
    assert(after.skip(at + value.len()) =~= bytes.skip(at + value.len()));
    assert(after.subrange(at, at + value.len()) =~= value);
}

/// Writes that follow each other are one write of the joined bytes.
pub proof fn splice_join(bytes: Seq<u8>, start: int, done: Seq<u8>, value: Seq<u8>)
    requires
        0 <= start,
        start + done.len() + value.len() <= bytes.len(),
    ensures
        splice(splice(bytes, start, done), start + done.len(), value) == splice(
            bytes,
            start,
            done + value,
        ),
{
    assert(splice(splice(bytes, start, done), start + done.len(), value) =~= splice(
        bytes,
        start,
        done + value,
    ));
}

/// Writes from the start on that follow each other are one write of the joined bytes.
pub broadcast proof fn splice_append(bytes: Seq<u8>, done: Seq<u8>, at: int, value: Seq<u8>)
    requires
        at == done.len(),
        at + value.len() <= bytes.len(),
    ensures
        #[trigger] splice(splice(bytes, 0, done), at, value) == splice(bytes, 0, done + value),
{
    splice_join(bytes, 0, done, value);
}

pub broadcast proof fn splice_len(bytes: Seq<u8>, at: int, value: Seq<u8>)
    ensures
        (#[trigger] splice(bytes, at, value)).len() == bytes.len(),
{
}

/// A number that is written reads back; other numbers that do not overlap it stay.
pub proof fn splice_fields(bytes: Seq<u8>, at: int, value: Seq<u8>, other: int)
    requires
        0 <= at,
        0 <= other,
        at + value.len() <= bytes.len(),
    ensures
        other + 2 <= bytes.len() && (other + 2 <= at || at + value.len() <= other) ==> le_u16(
            splice(bytes, at, value),
            other,
        ) == le_u16(bytes, other),
        other + 4 <= bytes.len() && (other + 4 <= at || at + value.len() <= other) ==> le_u32(
            splice(bytes, at, value),
            other,
        ) == le_u32(bytes, other),
        other + 8 <= bytes.len() && (other + 8 <= at || at + value.len() <= other) ==> le_u64(
            splice(bytes, at, value),
            other,
        ) == le_u64(bytes, other),
{
    reveal(le_u16);
    reveal(le_u32);
    reveal(le_u64);
}

/// A 32-bit number reads back where it was written.
pub proof fn splice_u32(bytes: Seq<u8>, at: int, value: u32)
    requires
        0 <= at,
        at + 4 <= bytes.len(),
    ensures
        le_u32(splice(bytes, at, u32_bytes(value)), at) == value,
{
    u32_bytes_len(value);
    splice_parts(bytes, at, u32_bytes(value));
    le_u32_of_bytes(splice(bytes, at, u32_bytes(value)), at, value);
}

/// A 16-bit number reads back where it was written.
pub proof fn splice_u16(bytes: Seq<u8>, at: int, value: u16)
    requires
        0 <= at,
        at + 2 <= bytes.len(),
    ensures
        le_u16(splice(bytes, at, u16_bytes(value)), at) == value,
{
    u16_bytes_len(value);
    splice_parts(bytes, at, u16_bytes(value));
    le_u16_of_bytes(splice(bytes, at, u16_bytes(value)), at, value);
}

/// A 64-bit number reads back where it was written.
pub proof fn splice_u64(bytes: Seq<u8>, at: int, value: u64)
    requires
        0 <= at,
        at + 8 <= bytes.len(),
    ensures
        le_u64(splice(bytes, at, u64_bytes(value)), at) == value,
{
    u64_bytes_len(value);
    splice_parts(bytes, at, u64_bytes(value));
    le_u64_of_bytes(splice(bytes, at, u64_bytes(value)), at, value);
}

pub broadcast group group_bytes {
    u16_bytes_len,
    u32_bytes_len,
    u64_bytes_len,
    splice_append,
    splice_len,
}

/// Numbers do not depend on what surrounds their bytes.
pub proof fn le_shift(bytes: Seq<u8>, at: int, len: int)
    requires
        0 <= at,
        at + len <= bytes.len(),
    ensures
        len >= 2 ==> le_u16(bytes.subrange(at, at + len), 0) == le_u16(bytes, at),
        len >= 4 ==> le_u32(bytes.subrange(at, at + len), 0) == le_u32(bytes, at),
        len >= 8 ==> le_u64(bytes.subrange(at, at + len), 0) == le_u64(bytes, at),
{
    le_inside(bytes, at, len, 0);
}

/// The numbers inside an extent are those of the whole at the shifted places.
pub proof fn le_inside(bytes: Seq<u8>, at: int, len: int, inner: int)
    requires
        0 <= at,
        0 <= inner,
        at + len <= bytes.len(),
    ensures
        inner + 2 <= len ==> le_u16(bytes.subrange(at, at + len), inner) == le_u16(
            bytes,
            at + inner,
        ),
        inner + 4 <= len ==> le_u32(bytes.subrange(at, at + len), inner) == le_u32(
            bytes,
            at + inner,
        ),
        inner + 8 <= len ==> le_u64(bytes.subrange(at, at + len), inner) == le_u64(
            bytes,
            at + inner,
        ),
{
    reveal(le_u16);
    reveal(le_u32);
    reveal(le_u64);
}

/// A little-endian field reads back as it was written, at any place that holds its bytes.
pub proof fn fixed_read_of_write(bytes: Seq<u8>, at: int, small: u16, medium: u32, large: u64)
    requires
        0 <= at,
    ensures
        at + 2 <= bytes.len() && bytes.subrange(at, at + 2) == u16_bytes(small) ==> le_u16(
            bytes,
            at,
        ) == small,
        at + 4 <= bytes.len() && bytes.subrange(at, at + 4) == u32_bytes(medium) ==> le_u32(
            bytes,
            at,
        ) == medium,
        at + 8 <= bytes.len() && bytes.subrange(at, at + 8) == u64_bytes(large) ==> le_u64(
            bytes,
            at,
        ) == large,
{
    if at + 2 <= bytes.len() && bytes.subrange(at, at + 2) == u16_bytes(small) {
        le_u16_of_bytes(bytes, at, small);
    }
    if at + 4 <= bytes.len() && bytes.subrange(at, at + 4) == u32_bytes(medium) {
        le_u32_of_bytes(bytes, at, medium);
    }
    if at + 8 <= bytes.len() && bytes.subrange(at, at + 8) == u64_bytes(large) {
        le_u64_of_bytes(bytes, at, large);
    }
}

pub proof fn le_u16_of_bytes(bytes: Seq<u8>, at: int, value: u16)
    requires
        0 <= at,
        at + 2 <= bytes.len(),
        bytes.subrange(at, at + 2) == u16_bytes(value),
    ensures
        le_u16(bytes, at) == value,
{
    reveal(le_u16);
    reveal(u16_bytes);
    let part = bytes.subrange(at, at + 2);
    assert(part[0] == bytes[at] && part[1] == bytes[at + 1]);
}

pub proof fn le_u32_of_bytes(bytes: Seq<u8>, at: int, value: u32)
    requires
        0 <= at,
        at + 4 <= bytes.len(),
        bytes.subrange(at, at + 4) == u32_bytes(value),
    ensures
        le_u32(bytes, at) == value,
{
    reveal(le_u32);
    reveal(u32_bytes);
    let part = bytes.subrange(at, at + 4);
    assert(part[0] == bytes[at] && part[1] == bytes[at + 1] && part[2] == bytes[at + 2] && part[3]
        == bytes[at + 3]);
}

pub proof fn le_u64_of_bytes(bytes: Seq<u8>, at: int, value: u64)
    requires
        0 <= at,
        at + 8 <= bytes.len(),
        bytes.subrange(at, at + 8) == u64_bytes(value),
    ensures
        le_u64(bytes, at) == value,
{
    reveal(le_u64);
    reveal(u64_bytes);
    let low = (value % 0x1_0000_0000) as u32;
    let high = (value / 0x1_0000_0000) as u32;
    u32_bytes_len(low);
    u32_bytes_len(high);
    assert(bytes.subrange(at, at + 4) =~= u64_bytes(value).subrange(0, 4));
    assert(bytes.subrange(at + 4, at + 8) =~= u64_bytes(value).subrange(4, 8));
    assert(u64_bytes(value).subrange(0, 4) =~= u32_bytes(low));
    assert(u64_bytes(value).subrange(4, 8) =~= u32_bytes(high));
    le_u32_of_bytes(bytes, at, low);
    le_u32_of_bytes(bytes, at + 4, high);
}

/// Every two bytes are those of the number that they hold.
pub proof fn u16_bytes_of_le(bytes: Seq<u8>, at: int)
    requires
        0 <= at,
        at + 2 <= bytes.len(),
    ensures
        u16_bytes(le_u16(bytes, at)) == bytes.subrange(at, at + 2),
{
    reveal(le_u16);
    reveal(u16_bytes);
    assert(u16_bytes(le_u16(bytes, at)) =~= bytes.subrange(at, at + 2));
}

/// Every four bytes are those of the number that they hold.
pub proof fn u32_bytes_of_le(bytes: Seq<u8>, at: int)
    requires
        0 <= at,
        at + 4 <= bytes.len(),
    ensures
        u32_bytes(le_u32(bytes, at)) == bytes.subrange(at, at + 4),
{
    reveal(le_u32);
    reveal(u32_bytes);
    let (a, b, c, d) = (
        bytes[at] as int,
        bytes[at + 1] as int,
        bytes[at + 2] as int,
        bytes[at + 3] as int,
    );
    let value = le_u32(bytes, at) as int;
    assert(value == a + 0x100 * (b + 0x100 * (c + 0x100 * d)));
    assert(value / 0x100 == b + 0x100 * (c + 0x100 * d));
    assert(value / 0x1_0000 == c + 0x100 * d);
    assert(value / 0x100_0000 == d);
    assert(u32_bytes(le_u32(bytes, at)) =~= bytes.subrange(at, at + 4));
}

/// Every eight bytes are those of the number that they hold.
pub proof fn u64_bytes_of_le(bytes: Seq<u8>, at: int)
    requires
        0 <= at,
        at + 8 <= bytes.len(),
    ensures
        u64_bytes(le_u64(bytes, at)) == bytes.subrange(at, at + 8),
{
    reveal(le_u64);
    reveal(u64_bytes);
    let low = le_u32(bytes, at);
    let high = le_u32(bytes, at + 4);
    let value = le_u64(bytes, at);
    assert(value % 0x1_0000_0000 == low && value / 0x1_0000_0000 == high);
    u32_bytes_of_le(bytes, at);
    u32_bytes_of_le(bytes, at + 4);
    assert(bytes.subrange(at, at + 8) =~= bytes.subrange(at, at + 4) + bytes.subrange(
        at + 4,
        at + 8,
    ));
}

} // verus!
