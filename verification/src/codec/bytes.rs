//! Little-endian fields and canonical u32/u64 varints over borrowed byte slices.
//! Reads validate extents before advancing; failed reads keep the cursor.

pub use super::fields::{fixed_read_of_write, group_bytes, le_inside, le_shift, le_u16, le_u16_of_bytes, le_u32, le_u32_of_bytes, le_u64, le_u64_of_bytes, splice, splice_append, splice_fields, splice_join, splice_len, splice_parts, splice_u16, splice_u32, splice_u64, u16_bytes, u16_bytes_len, u16_bytes_of_le, u32_bytes, u32_bytes_len, u32_bytes_of_le, u64_bytes, u64_bytes_len, u64_bytes_of_le};
use super::{fail, Error, ErrorKind, Result};
use vstd::prelude::*;

verus! {

broadcast use group_bytes;

/// The canonical varint of `value`: seven bits a byte, low group first, the
/// high bit set on every byte but the last.
pub open spec fn var_bytes(value: nat) -> Seq<u8>
    decreases value,
{
    if value < 128 {
        seq![value as u8]
    } else {
        seq![(128 + value % 128) as u8] + var_bytes(value / 128)
    }
}

/// The extent of `len` bytes at `at`, or why it cannot be taken.
pub open spec fn extent(bytes: Seq<u8>, at: int, len: int) -> Result<Seq<u8>> {
    if at + len > usize::MAX {
        fail(at, ErrorKind::Overflow)
    } else if at + len > bytes.len() {
        fail(at, ErrorKind::Truncated)
    } else {
        Ok(bytes.subrange(at, at + len))
    }
}

/// The varint groups from `start + group` on: their value and number.
/// Group `last` is the highest and holds at most `top`.
pub open spec fn var_groups(
    bytes: Seq<u8>,
    start: int,
    group: int,
    last: int,
    top: int,
) -> Result<(nat, nat)>
    decreases last - group,
{
    match extent(bytes, start + group, 1) {
        Err(error) => Err(error),
        Ok(_) => {
            let byte = bytes[start + group] as int;
            if group >= last && byte > top {
                fail(start, ErrorKind::Overflow)
            } else if byte < 128 {
                if group != 0 && byte == 0 {
                    fail(start, ErrorKind::NonCanonical)
                } else {
                    Ok((byte as nat, 1))
                }
            } else if group >= last {
                fail(start, ErrorKind::Overflow)
            } else {
                match var_groups(bytes, start, group + 1, last, top) {
                    Ok((value, len)) => Ok(((byte - 128 + 128 * value) as nat, len + 1)),
                    Err(error) => Err(error),
                }
            }
        },
    }
}

/// The canonical 32-bit varint at `at` and its length.
pub open spec fn var_u32_at(bytes: Seq<u8>, at: int) -> Result<(nat, nat)> {
    var_groups(bytes, at, 0, 4, 15)
}

/// The canonical 64-bit varint at `at` and its length.
pub open spec fn var_u64_at(bytes: Seq<u8>, at: int) -> Result<(nat, nat)> {
    var_groups(bytes, at, 0, 9, 1)
}

/// 128 to the power `group`.
pub open spec fn scale(group: nat) -> nat
    decreases group,
{
    if group == 0 {
        1
    } else {
        128 * scale((group - 1) as nat)
    }
}

proof fn scales()
    ensures
        scale(0) == 1,
        scale(1) == 128,
        scale(2) == 0x4000,
        scale(3) == 0x20_0000,
        scale(4) == 0x1000_0000,
        scale(5) == 0x8_0000_0000,
        scale(6) == 0x400_0000_0000,
        scale(7) == 0x2_0000_0000_0000,
        scale(8) == 0x100_0000_0000_0000,
        scale(9) == 0x8000_0000_0000_0000,
        scale(10) == 0x40_0000_0000_0000_0000,
{
    reveal_with_fuel(scale, 11);
}

proof fn scale_step(unit: nat, low: nat, rest: nat)
    ensures
        unit * (low + 128 * rest) == unit * low + (unit * 128) * rest,
{
    assert(unit * (low + 128 * rest) == unit * low + (unit * 128) * rest) by (nonlinear_arith);
}

/// A bounds-checked cursor over borrowed bytes.
#[derive(Clone, Copy, Debug)]
pub struct Reader<'a> {
    bytes: &'a [u8],
    offset: usize,
}

impl<'a> Reader<'a> {
    #[verifier::type_invariant]
    closed spec fn inv(self) -> bool {
        self.offset <= self.bytes@.len()
    }

    /// All bytes, consumed or not.
    pub closed spec fn source(self) -> Seq<u8> {
        self.bytes@
    }

    /// The number of consumed bytes.
    pub closed spec fn spec_offset(&self) -> usize {
        self.offset
    }

    /// Whether `self` is `before` after `len` more bytes.
    pub open spec fn advanced(self, before: Self, len: int) -> bool {
        self.source() == before.source() && self.spec_offset() == before.spec_offset() + len
    }

    pub fn new(bytes: &'a [u8]) -> (reader: Self)
        ensures
            reader.source() == bytes@,
            reader.offset() == 0,
    {
        Reader { bytes, offset: 0 }
    }

    #[verifier::when_used_as_spec(spec_offset)]
    pub fn offset(&self) -> (offset: usize)
        ensures
            offset == self.offset(),
            offset <= self.source().len(),
    {
        proof {
            use_type_invariant(self);
        }
        self.offset
    }

    pub fn remaining(&self) -> (remaining: usize)
        ensures
            remaining == self.source().len() - self.offset(),
            self.offset() <= self.source().len() <= usize::MAX,
    {
        proof {
            use_type_invariant(self);
        }
        self.bytes.len() - self.offset
    }

    /// Returns a borrowed extent; overflow and truncation leave the cursor unchanged.
    pub fn take(&mut self, len: usize) -> (result: Result<&'a [u8]>)
        ensures
            match extent(old(self).source(), old(self).offset() as int, len as int) {
                Ok(value) => result matches Ok(slice) && slice@ == value && final(self).advanced(
                    *old(self),
                    len as int,
                ),
                Err(error) => result == Err::<&'a [u8], _>(error) && *final(self) == *old(self),
            },
    {
        proof {
            use_type_invariant(&*self);
        }
        if len > usize::MAX - self.offset {
            return Err(Error::new(self.offset, ErrorKind::Overflow));
        }
        let end: usize = self.offset + len;
        if end > self.bytes.len() {
            return Err(Error::new(self.offset, ErrorKind::Truncated));
        }
        let bytes: &'a [u8] = self.bytes;
        let value: &'a [u8] = &bytes[self.offset..end];
        self.offset = end;
        Ok(value)
    }

    pub fn array<const N: usize>(&mut self) -> (result: Result<[u8; N]>)
        ensures
            match extent(old(self).source(), old(self).offset() as int, N as int) {
                Ok(value) => result matches Ok(array) && array@ == value && final(self).advanced(
                    *old(self),
                    N as int,
                ),
                Err(error) => result == Err::<[u8; N], _>(error) && *final(self) == *old(self),
            },
    {
        match self.take(N) {
            Ok(value) => {
                let mut array: [u8; N] = [0u8; N];
                let mut i: usize = 0;
                while i < N
                    invariant
                        i <= N,
                        value@.len() == N,
                        forall|j: int| 0 <= j < i ==> array@[j] == value@[j],
                    decreases N - i,
                {
                    array[i] = value[i];
                    i += 1;
                }
                assert(array@ =~= value@);
                Ok(array)
            },
            Err(error) => Err(error),
        }
    }

    pub fn u8(&mut self) -> (result: Result<u8>)
        ensures
            match extent(old(self).source(), old(self).offset() as int, 1) {
                Ok(value) => result == Ok::<u8, Error>(value[0]) && value[0] == old(self).source()[old(self).offset() as int] && final(self).advanced(*old(self), 1),
                Err(error) => result == Err::<u8, _>(error) && *final(self) == *old(self),
            },
    {
        match self.take(1) {
            Ok(value) => Ok(value[0]),
            Err(error) => Err(error),
        }
    }

    pub fn u16(&mut self) -> (result: Result<u16>)
        ensures
            match extent(old(self).source(), old(self).offset() as int, 2) {
                Ok(value) => result == Ok::<u16, Error>(
                    le_u16(old(self).source(), old(self).offset() as int),
                ) && final(self).advanced(*old(self), 2),
                Err(error) => result == Err::<u16, _>(error) && *final(self) == *old(self),
            },
    {
        match self.take(2) {
            Ok(value) => {
                proof {
                    le_shift(old(self).source(), old(self).offset() as int, 2);
                }
                Ok(get_u16(value, 0))
            },
            Err(error) => Err(error),
        }
    }

    pub fn u32(&mut self) -> (result: Result<u32>)
        ensures
            match extent(old(self).source(), old(self).offset() as int, 4) {
                Ok(value) => result == Ok::<u32, Error>(
                    le_u32(old(self).source(), old(self).offset() as int),
                ) && final(self).advanced(*old(self), 4),
                Err(error) => result == Err::<u32, _>(error) && *final(self) == *old(self),
            },
    {
        match self.take(4) {
            Ok(value) => {
                proof {
                    le_shift(old(self).source(), old(self).offset() as int, 4);
                }
                Ok(get_u32(value, 0))
            },
            Err(error) => Err(error),
        }
    }

    pub fn u64(&mut self) -> (result: Result<u64>)
        ensures
            match extent(old(self).source(), old(self).offset() as int, 8) {
                Ok(value) => result == Ok::<u64, Error>(
                    le_u64(old(self).source(), old(self).offset() as int),
                ) && final(self).advanced(*old(self), 8),
                Err(error) => result == Err::<u64, _>(error) && *final(self) == *old(self),
            },
    {
        match self.take(8) {
            Ok(value) => {
                proof {
                    le_shift(old(self).source(), old(self).offset() as int, 8);
                }
                Ok(get_u64(value, 0))
            },
            Err(error) => Err(error),
        }
    }

    /// Rejects overflow and redundant groups; failure leaves the cursor unchanged.
    pub fn var_u32(&mut self) -> (result: Result<u32>)
        ensures
            match var_u32_at(old(self).source(), old(self).offset() as int) {
                Ok((value, len)) => result == Ok::<u32, Error>(value as u32) && value <= u32::MAX
                    && final(self).advanced(*old(self), len as int),
                Err(error) => result == Err::<u32, _>(error) && *final(self) == *old(self),
            },
    {
        proof {
            use_type_invariant(&*self);
            scales();
        }
        let mut input: Reader<'a> = *self;
        let start: usize = input.offset;
        let ghost source = input.source();
        let mut value: u32 = 0;
        let mut unit: u32 = 1;
        let mut group: usize = 0;
        while group < 5
            invariant
                group <= 4,
                self == old(self),
                input.source() == source,
                source == self.source(),
                start == self.spec_offset(),
                input.spec_offset() == start + group,
                unit == scale(group as nat),
                value < unit,
                var_u32_at(source, start as int) == (match var_groups(
                    source,
                    start as int,
                    group as int,
                    4,
                    15,
                ) {
                    Ok((rest, len)) => Ok((value as nat + unit as nat * rest, group as nat + len)),
                    Err(error) => Err(error),
                }),
            decreases 5 - group,
        {
            proof {
                scales();
            }
            let byte: u8 = match input.u8() {
                Ok(byte) => byte,
                Err(error) => {
                    return Err(error);
                },
            };
            if group == 4 && byte > 15 {
                return Err(Error::new(start, ErrorKind::Overflow));
            }
            let low: u32 = (byte % 128) as u32;
            proof {
                assert(unit * low <= unit * 127) by (nonlinear_arith)
                    requires
                        low <= 127,
                ;
                if group == 4 {
                    assert(unit * low <= unit * 15) by (nonlinear_arith)
                        requires
                            low <= 15,
                    ;
                }
            }
            value = value + unit * low;
            if byte < 128 {
                if group != 0 && byte == 0 {
                    return Err(Error::new(start, ErrorKind::NonCanonical));
                }
                *self = input;
                return Ok(value);
            }
            proof {
                let next = var_groups(source, start as int, group + 1, 4, 15);
                if next is Ok {
                    scale_step(unit as nat, low as nat, next->Ok_0.0);
                }
            }
            unit = unit * 128;
            group += 1;
        }
        proof {
            assert(false);
        }
        Err(Error::new(start, ErrorKind::Overflow))
    }

    /// The tenth group has one payload bit; failed reads preserve the cursor.
    pub fn var_u64(&mut self) -> (result: Result<u64>)
        ensures
            match var_u64_at(old(self).source(), old(self).offset() as int) {
                Ok((value, len)) => result == Ok::<u64, Error>(value as u64) && value <= u64::MAX
                    && final(self).advanced(*old(self), len as int),
                Err(error) => result == Err::<u64, _>(error) && *final(self) == *old(self),
            },
    {
        proof {
            use_type_invariant(&*self);
            scales();
        }
        let mut input: Reader<'a> = *self;
        let start: usize = input.offset;
        let ghost source = input.source();
        let mut value: u64 = 0;
        let mut unit: u64 = 1;
        let mut group: usize = 0;
        while group < 10
            invariant
                group <= 9,
                self == old(self),
                input.source() == source,
                source == self.source(),
                start == self.spec_offset(),
                input.spec_offset() == start + group,
                unit == scale(group as nat),
                value < unit,
                var_u64_at(source, start as int) == (match var_groups(
                    source,
                    start as int,
                    group as int,
                    9,
                    1,
                ) {
                    Ok((rest, len)) => Ok((value as nat + unit as nat * rest, group as nat + len)),
                    Err(error) => Err(error),
                }),
            decreases 10 - group,
        {
            proof {
                scales();
            }
            let byte: u8 = match input.u8() {
                Ok(byte) => byte,
                Err(error) => {
                    return Err(error);
                },
            };
            if group == 9 && byte > 1 {
                return Err(Error::new(start, ErrorKind::Overflow));
            }
            let low: u64 = (byte % 128) as u64;
            proof {
                assert(unit * low <= unit * 127) by (nonlinear_arith)
                    requires
                        low <= 127,
                ;
                if group == 9 {
                    assert(unit * low <= unit * 1) by (nonlinear_arith)
                        requires
                            low <= 1,
                    ;
                }
            }
            value = value + unit * low;
            if byte < 128 {
                if group != 0 && byte == 0 {
                    return Err(Error::new(start, ErrorKind::NonCanonical));
                }
                *self = input;
                return Ok(value);
            }
            proof {
                let next = var_groups(source, start as int, group + 1, 9, 1);
                if next is Ok {
                    scale_step(unit as nat, low as nat, next->Ok_0.0);
                }
            }
            unit = unit * 128;
            group += 1;
        }
        proof {
            assert(false);
        }
        Err(Error::new(start, ErrorKind::Overflow))
    }

    pub fn finish(self) -> (result: Result<()>)
        ensures
            result == (if self.offset() != self.source().len() {
                fail(self.offset() as int, ErrorKind::TrailingBytes)
            } else {
                Ok(())
            }),
    {
        if self.remaining() != 0 {
            return Err(Error::new(self.offset, ErrorKind::TrailingBytes));
        }
        Ok(())
    }
}

/// Reads the little-endian 16-bit number at `at`.
pub fn get_u16(bytes: &[u8], at: usize) -> (value: u16)
    requires
        at + 2 <= bytes@.len(),
    ensures
        value == le_u16(bytes@, at as int),
{
    proof {
        reveal(le_u16);
    }
    bytes[at] as u16 + 0x100 * bytes[at + 1] as u16
}

/// Reads the little-endian 32-bit number at `at`.
pub fn get_u32(bytes: &[u8], at: usize) -> (value: u32)
    requires
        at + 4 <= bytes@.len(),
    ensures
        value == le_u32(bytes@, at as int),
{
    proof {
        reveal(le_u32);
    }
    bytes[at] as u32 + 0x100 * bytes[at + 1] as u32 + 0x1_0000 * bytes[at + 2] as u32 + 0x100_0000
        * bytes[at + 3] as u32
}

/// Reads the little-endian 64-bit number at `at`.
pub fn get_u64(bytes: &[u8], at: usize) -> (value: u64)
    requires
        at + 8 <= bytes@.len(),
    ensures
        value == le_u64(bytes@, at as int),
{
    proof {
        reveal(le_u64);
    }
    let length: usize = bytes.len();
    assert(at + 8 <= length);
    get_u32(bytes, at) as u64 + 0x1_0000_0000 * get_u32(bytes, at + 4) as u64
}

/// `bytes` after `value` is written at `at`, or why it does not fit.
pub open spec fn written(bytes: Seq<u8>, at: int, value: Seq<u8>) -> Result<Seq<u8>> {
    match extent(bytes, at, value.len() as int) {
        Ok(_) => Ok(splice(bytes, at, value)),
        Err(error) => Err(error),
    }
}

/// Whether writing `value` at a cursor turns `before` into `after` with `result`:
/// the output bytes and the cursor move together, and a refusal moves neither.
pub open spec fn put_outcome(
    before: (Seq<u8>, usize),
    value: Seq<u8>,
    after: (Seq<u8>, usize),
    result: Result<()>,
) -> bool {
    match written(before.0, before.1 as int, value) {
        Ok(bytes) => result == Ok::<(), Error>(()) && after.0 == bytes && after.1 == before.1
            + value.len(),
        Err(error) => result == Err::<(), Error>(error) && after == before,
    }
}

/// A bounds-checked output cursor; refused writes change nothing.
pub struct Writer<'a> {
    pub bytes: &'a mut [u8],
    pub offset: usize,
}

impl<'a> Writer<'a> {
    pub fn new(bytes: &'a mut [u8]) -> (writer: Self)
        ensures
            writer.bytes@ == old(bytes)@,
            final(writer.bytes)@ == final(bytes)@,
            writer.offset == 0,
    {
        Writer { bytes, offset: 0 }
    }

    pub fn len(&self) -> (len: usize)
        ensures
            len == self.offset,
    {
        self.offset
    }

    pub fn is_empty(&self) -> (empty: bool)
        ensures
            empty == (self.offset == 0),
    {
        self.offset == 0
    }

    pub fn put(&mut self, value: &[u8]) -> (result: Result<()>)
        ensures
            put_outcome(
                (old(self).bytes@, old(self).offset),
                value@,
                (final(self).bytes@, final(self).offset),
                result,
            ),
            final(final(self).bytes)@ == final(old(self).bytes)@,
    {
        let length: usize = value.len();
        let start: usize = self.offset;
        if length > usize::MAX - start {
            return Err(Error::new(start, ErrorKind::Overflow));
        }
        let end: usize = start + length;
        if end > self.bytes.len() {
            return Err(Error::new(start, ErrorKind::Truncated));
        }
        let mut i: usize = 0;
        while i < length
            invariant
                i <= length,
                length == value@.len(),
                start + length <= usize::MAX,
                start + length <= self.bytes@.len(),
                self.offset == start,
                start == old(self).offset,
                self.bytes@.len() == old(self).bytes@.len(),
                forall|j: int| 0 <= j < i ==> self.bytes@[start + j] == value@[j],
                forall|j: int|
                    0 <= j < self.bytes@.len() && !(start <= j < start + i) ==> self.bytes@[j]
                        == old(self).bytes@[j],
                final(self.bytes)@ == final(old(self).bytes)@,
            decreases length - i,
        {
            let at: usize = start + i;
            self.bytes[at] = value[i];
            i += 1;
        }
        self.offset = end;
        assert forall|j: int| start <= j < start + length implies self.bytes@[j] == value@[j
            - start] by {
            assert(self.bytes@[start + (j - start)] == value@[j - start]);
        }
        assert(self.bytes@ =~= splice(old(self).bytes@, start as int, value@));
        Ok(())
    }

    pub fn u8(&mut self, value: u8) -> (result: Result<()>)
        ensures
            put_outcome(
                (old(self).bytes@, old(self).offset),
                seq![value],
                (final(self).bytes@, final(self).offset),
                result,
            ),
            final(final(self).bytes)@ == final(old(self).bytes)@,
    {
        let field: [u8; 1] = [value];
        assert(field@ =~= seq![value]);
        self.put(&field)
    }

    pub fn u16(&mut self, value: u16) -> (result: Result<()>)
        ensures
            put_outcome(
                (old(self).bytes@, old(self).offset),
                u16_bytes(value),
                (final(self).bytes@, final(self).offset),
                result,
            ),
            final(final(self).bytes)@ == final(old(self).bytes)@,
    {
        let field: [u8; 2] = u16_array(value);
        self.put(&field)
    }

    pub fn u32(&mut self, value: u32) -> (result: Result<()>)
        ensures
            put_outcome(
                (old(self).bytes@, old(self).offset),
                u32_bytes(value),
                (final(self).bytes@, final(self).offset),
                result,
            ),
            final(final(self).bytes)@ == final(old(self).bytes)@,
    {
        let field: [u8; 4] = u32_array(value);
        self.put(&field)
    }

    pub fn u64(&mut self, value: u64) -> (result: Result<()>)
        ensures
            put_outcome(
                (old(self).bytes@, old(self).offset),
                u64_bytes(value),
                (final(self).bytes@, final(self).offset),
                result,
            ),
            final(final(self).bytes)@ == final(old(self).bytes)@,
    {
        let field: [u8; 8] = u64_array(value);
        self.put(&field)
    }

    pub fn var_u64(&mut self, value: u64) -> (result: Result<()>)
        ensures
            put_outcome(
                (old(self).bytes@, old(self).offset),
                var_bytes(value as nat),
                (final(self).bytes@, final(self).offset),
                result,
            ),
            final(final(self).bytes)@ == final(old(self).bytes)@,
    {
        let mut bytes: [u8; 10] = [0u8; 10];
        let mut len: usize = 0;
        let mut rest: u64 = value;
        proof {
            scales();
            assert(bytes@.subrange(0, 0) + var_bytes(rest as nat) =~= var_bytes(value as nat));
        }
        while rest >= 128
            invariant
                len <= 9,
                rest < 2 * scale((9 - len) as nat),
                bytes@.subrange(0, len as int) + var_bytes(rest as nat) == var_bytes(value as nat),
            decreases rest,
        {
            let ghost before = bytes@;
            let ghost whole = rest;
            proof {
                scales();
            }
            bytes[len] = 128 + (rest % 128) as u8;
            rest = rest / 128;
            len += 1;
            proof {
                let low = (128 + whole as nat % 128) as u8;
                assert(bytes@.subrange(0, len as int) =~= before.subrange(0, len - 1).push(low));
                assert(var_bytes(whole as nat) == seq![low] + var_bytes(rest as nat));
                assert(before.subrange(0, len - 1).push(low) + var_bytes(rest as nat)
                    =~= before.subrange(0, len - 1) + (seq![low] + var_bytes(rest as nat)));
            }
        }
        let ghost before = bytes@;
        bytes[len] = rest as u8;
        len += 1;
        assert(bytes@.subrange(0, len as int) =~= before.subrange(0, len - 1) + var_bytes(
            rest as nat,
        ));
        self.put(&bytes[0..len])
    }

    pub fn var_u32(&mut self, value: u32) -> (result: Result<()>)
        ensures
            put_outcome(
                (old(self).bytes@, old(self).offset),
                var_bytes(value as nat),
                (final(self).bytes@, final(self).offset),
                result,
            ),
            final(final(self).bytes)@ == final(old(self).bytes)@,
    {
        self.var_u64(value as u64)
    }
}

/// The two little-endian bytes of `value`.
pub fn u16_array(value: u16) -> (bytes: [u8; 2])
    ensures
        bytes@ == u16_bytes(value),
{
    proof {
        reveal(u16_bytes);
    }
    let bytes: [u8; 2] = [(value % 0x100) as u8, (value / 0x100) as u8];
    assert(bytes@ =~= u16_bytes(value));
    bytes
}

/// The four little-endian bytes of `value`.
pub fn u32_array(value: u32) -> (bytes: [u8; 4])
    ensures
        bytes@ == u32_bytes(value),
{
    proof {
        reveal(u32_bytes);
    }
    let bytes: [u8; 4] = [
        (value % 0x100) as u8,
        (value / 0x100 % 0x100) as u8,
        (value / 0x1_0000 % 0x100) as u8,
        (value / 0x100_0000) as u8,
    ];
    assert(bytes@ =~= u32_bytes(value));
    bytes
}

/// The eight little-endian bytes of `value`.
pub fn u64_array(value: u64) -> (bytes: [u8; 8])
    ensures
        bytes@ == u64_bytes(value),
{
    proof {
        reveal(u64_bytes);
    }
    let low: [u8; 4] = u32_array((value % 0x1_0000_0000) as u32);
    let high: [u8; 4] = u32_array((value / 0x1_0000_0000) as u32);
    let bytes: [u8; 8] = [
        low[0],
        low[1],
        low[2],
        low[3],
        high[0],
        high[1],
        high[2],
        high[3],
    ];
    assert(bytes@ =~= u64_bytes(value));
    bytes
}

/// The number of bytes in the canonical varint of `value`.
pub fn var_u32_len(value: u32) -> (len: usize)
    ensures
        len == var_bytes(value as nat).len(),
        1 <= len <= 5,
{
    proof {
        reveal_with_fuel(var_bytes, 5);
    }
    if value < 0x80 {
        1
    } else if value < 0x4000 {
        2
    } else if value < 0x20_0000 {
        3
    } else if value < 0x1000_0000 {
        4
    } else {
        5
    }
}

/// A varint has at least one byte, and five or ten at most by width.
pub proof fn var_bytes_len(value: nat)
    ensures
        var_bytes(value).len() >= 1,
        value <= u32::MAX ==> var_bytes(value).len() <= 5,
        value <= u64::MAX ==> var_bytes(value).len() <= 10,
{
    reveal_with_fuel(var_bytes, 11);
}

proof fn var_groups_of_bytes(
    bytes: Seq<u8>,
    start: int,
    group: int,
    last: int,
    top: int,
    value: nat,
)
    requires
        0 <= start,
        0 <= group <= last,
        0 <= top < 128,
        bytes.len() <= usize::MAX,
        start + group + var_bytes(value).len() <= bytes.len(),
        bytes.subrange(start + group, start + group + var_bytes(value).len()) == var_bytes(value),
        value < (top + 1) * scale((last - group) as nat),
        group != 0 ==> value != 0,
    ensures
        var_groups(bytes, start, group, last, top) == Ok::<(nat, nat), Error>(
            (value, var_bytes(value).len()),
        ),
    decreases last - group,
{
    let code = var_bytes(value);
    let at = start + group;
    assert(bytes.subrange(at, at + code.len())[0] == bytes[at]);
    if group == last {
        assert(scale(0) == 1);
        assert((top + 1) * scale(0) == top + 1) by (nonlinear_arith)
            requires
                scale(0) == 1,
        ;
    }
    if value >= 128 {
        let rest = value / 128;
        let unit = scale((last - group - 1) as nat);
        assert(scale((last - group) as nat) == 128 * unit);
        assert(rest < (top + 1) * unit) by (nonlinear_arith)
            requires
                value < (top + 1) * (128 * unit),
                rest == value / 128,
        ;
        assert(var_bytes(rest) =~= code.subrange(1, code.len() as int));
        assert(bytes.subrange(at + 1, at + 1 + var_bytes(rest).len()) =~= bytes.subrange(
            at,
            at + code.len(),
        ).subrange(1, code.len() as int));
        var_groups_of_bytes(bytes, start, group + 1, last, top, rest);
    }
}

proof fn var_groups_canonical(bytes: Seq<u8>, start: int, group: int, last: int, top: int)
    requires
        0 <= start,
        0 <= group <= last,
        0 <= top < 128,
        var_groups(bytes, start, group, last, top) is Ok,
    ensures
        ({
            let (value, len) = var_groups(bytes, start, group, last, top)->Ok_0;
            &&& start + group + len <= bytes.len()
            &&& bytes.subrange(start + group, start + group + len) == var_bytes(value)
            &&& len == var_bytes(value).len()
            &&& value < (top + 1) * scale((last - group) as nat)
            &&& group != 0 ==> value != 0
        }),
    decreases last - group,
{
    let (value, len) = var_groups(bytes, start, group, last, top)->Ok_0;
    let at = start + group;
    let byte = bytes[at] as int;
    if byte < 128 {
        assert(bytes.subrange(at, at + 1) =~= var_bytes(value));
        scale_positive((last - group) as nat);
        if group == last {
            assert(scale(0) == 1);
            assert((top + 1) * scale(0) == top + 1) by (nonlinear_arith)
                requires
                    scale(0) == 1,
            ;
        }
        if group < last {
            let unit = scale((last - group - 1) as nat);
            scale_positive((last - group - 1) as nat);
            assert((top + 1) * (128 * unit) >= 128) by (nonlinear_arith)
                requires
                    unit >= 1,
                    top >= 0,
            ;
        }
    } else {
        var_groups_canonical(bytes, start, group + 1, last, top);
        let (rest, rest_len) = var_groups(bytes, start, group + 1, last, top)->Ok_0;
        assert(value / 128 == rest && value % 128 == byte - 128);
        assert(bytes.subrange(at, at + len) =~= seq![bytes[at]] + bytes.subrange(
            at + 1,
            at + 1 + rest_len,
        ));
        let unit = scale((last - group - 1) as nat);
        assert(byte - 128 + 128 * rest < (top + 1) * (128 * unit)) by (nonlinear_arith)
            requires
                rest < (top + 1) * unit,
                byte - 128 < 128,
        ;
    }
}

proof fn scale_positive(group: nat)
    ensures
        scale(group) >= 1,
    decreases group,
{
    if group > 0 {
        scale_positive((group - 1) as nat);
    }
}

/// A 32-bit varint reads back as it was written, wherever its bytes stand.
pub proof fn var_u32_read_of_write(bytes: Seq<u8>, at: int, value: u32)
    requires
        0 <= at,
        bytes.len() <= usize::MAX,
        at + var_bytes(value as nat).len() <= bytes.len(),
        bytes.subrange(at, at + var_bytes(value as nat).len()) == var_bytes(value as nat),
    ensures
        var_u32_at(bytes, at) == Ok::<(nat, nat), Error>(
            (value as nat, var_bytes(value as nat).len()),
        ),
{
    scales();
    var_groups_of_bytes(bytes, at, 0, 4, 15, value as nat);
}

/// A 64-bit varint reads back as it was written, wherever its bytes stand.
pub proof fn var_u64_read_of_write(bytes: Seq<u8>, at: int, value: u64)
    requires
        0 <= at,
        bytes.len() <= usize::MAX,
        at + var_bytes(value as nat).len() <= bytes.len(),
        bytes.subrange(at, at + var_bytes(value as nat).len()) == var_bytes(value as nat),
    ensures
        var_u64_at(bytes, at) == Ok::<(nat, nat), Error>(
            (value as nat, var_bytes(value as nat).len()),
        ),
{
    scales();
    var_groups_of_bytes(bytes, at, 0, 9, 1, value as nat);
}

/// Each 32-bit number has one accepted varint: what is read is the canonical encoding.
pub proof fn var_u32_canonical(bytes: Seq<u8>, at: int)
    requires
        0 <= at,
        var_u32_at(bytes, at) is Ok,
    ensures
        ({
            let (value, len) = var_u32_at(bytes, at)->Ok_0;
            &&& value <= u32::MAX
            &&& 1 <= len <= 5
            &&& at + len <= bytes.len()
            &&& bytes.subrange(at, at + len) == var_bytes(value)
        }),
{
    scales();
    var_groups_canonical(bytes, at, 0, 4, 15);
    var_bytes_len(var_u32_at(bytes, at)->Ok_0.0);
}

/// Each 64-bit number has one accepted varint: what is read is the canonical encoding.
pub proof fn var_u64_canonical(bytes: Seq<u8>, at: int)
    requires
        0 <= at,
        var_u64_at(bytes, at) is Ok,
    ensures
        ({
            let (value, len) = var_u64_at(bytes, at)->Ok_0;
            &&& value <= u64::MAX
            &&& 1 <= len <= 10
            &&& at + len <= bytes.len()
            &&& bytes.subrange(at, at + len) == var_bytes(value)
        }),
{
    scales();
    var_groups_canonical(bytes, at, 0, 9, 1);
    var_bytes_len(var_u64_at(bytes, at)->Ok_0.0);
}

} // verus!
