//! Counted delta streams with exact positions and allocation-free iteration.
//! Construction checks every delta; positions remain scoped to one document term.

use super::bytes::{
    extent, group_bytes, le_u32, le_u32_of_bytes, splice, u32_bytes, u32_bytes_of_le, var_bytes, var_bytes_len, var_u32_at,
    var_u32_canonical, var_u32_len, var_u32_read_of_write, Reader, Writer,
};
use super::{fail, Error, ErrorKind, Result};
use vstd::prelude::*;

verus! {

broadcast use group_bytes;

/// The position that follows `previous`, from the delta at `at`, and the delta's length.
pub open spec fn next_position(bytes: Seq<u8>, at: int, previous: u32, first: bool) -> Result<
    (u32, nat),
> {
    match var_u32_at(bytes, at) {
        Err(error) => Err(error),
        Ok((delta, len)) => if !first && delta == 0 {
            fail(at, ErrorKind::InvalidOrder)
        } else if previous + delta > u32::MAX {
            fail(at, ErrorKind::Overflow)
        } else {
            Ok(((previous + delta) as u32, len))
        },
    }
}

/// The `count` positions whose deltas start at `at`, and where they end.
pub open spec fn decode(bytes: Seq<u8>, at: int, count: nat, previous: u32, first: bool) -> Result<
    (Seq<u32>, int),
>
    decreases count,
{
    if count == 0 {
        Ok((Seq::empty(), at))
    } else {
        match next_position(bytes, at, previous, first) {
            Err(error) => Err(error),
            Ok((position, len)) => match decode(
                bytes,
                at + len,
                (count - 1) as nat,
                position,
                false,
            ) {
                Err(error) => Err(error),
                Ok((rest, end)) => Ok((seq![position] + rest, end)),
            },
        }
    }
}

/// What iteration yields: positions up to the first failure, which ends it.
pub open spec fn outcomes(
    bytes: Seq<u8>,
    at: int,
    count: nat,
    previous: u32,
    first: bool,
) -> Seq<Result<u32>>
    decreases count,
{
    if count == 0 {
        Seq::empty()
    } else {
        match next_position(bytes, at, previous, first) {
            Err(error) => seq![Err(error)],
            Ok((position, len)) => seq![Ok(position)] + outcomes(
                bytes,
                at + len,
                (count - 1) as nat,
                position,
                false,
            ),
        }
    }
}

/// The positions that `bytes` encode, or why they encode none. Offsets of
/// delta errors count from the first delta.
pub open spec fn parsed(bytes: Seq<u8>, max_positions: u32) -> Result<Seq<u32>> {
    match extent(bytes, 0, 4) {
        Err(error) => Err(error),
        Ok(_) => {
            let count = le_u32(bytes, 0);
            let payload = bytes.subrange(4, bytes.len() as int);
            if count > max_positions {
                fail(0, ErrorKind::LimitExceeded)
            } else if count > payload.len() {
                fail(4, ErrorKind::Truncated)
            } else {
                match decode(payload, 0, count as nat, 0, true) {
                    Err(error) => Err(error),
                    Ok((positions, end)) => if end != payload.len() {
                        fail(end, ErrorKind::TrailingBytes)
                    } else {
                        Ok(positions)
                    },
                }
            }
        },
    }
}

/// Whether each position is larger than the one before.
pub open spec fn increasing(positions: Seq<u32>) -> bool {
    forall|i: int, j: int| 0 <= i < j < positions.len() ==> positions[i] < positions[j]
}

/// The position that the delta at `index` starts from.
pub open spec fn base(positions: Seq<u32>, index: int) -> u32 {
    if index == 0 {
        0
    } else {
        positions[index - 1]
    }
}

/// The varints of the differences between neighbours; the first is from zero.
pub open spec fn delta_bytes(positions: Seq<u32>) -> Seq<u8>
    decreases positions.len(),
{
    if positions.len() == 0 {
        Seq::empty()
    } else {
        let index = positions.len() - 1;
        delta_bytes(positions.drop_last()) + var_bytes(
            (positions[index] - base(positions, index)) as nat,
        )
    }
}

/// A count followed by the deltas.
pub open spec fn encoded(positions: Seq<u32>) -> Seq<u8> {
    u32_bytes(positions.len() as u32) + delta_bytes(positions)
}

/// The first position from `index` on that is not above its predecessor, or
/// whose deltas no longer fit in memory.
pub open spec fn first_refused(positions: Seq<u32>, index: int) -> Option<Error>
    decreases positions.len() - index,
{
    if index >= positions.len() {
        None
    } else if index > 0 && positions[index] <= positions[index - 1] {
        Some(Error { offset: index as usize, kind: ErrorKind::InvalidOrder })
    } else if 4 + delta_bytes(positions.take(index + 1)).len() > usize::MAX {
        Some(Error { offset: index as usize, kind: ErrorKind::Overflow })
    } else {
        first_refused(positions, index + 1)
    }
}

/// Why `positions` cannot be encoded into `room` bytes, if they cannot.
pub open spec fn encode_error(positions: Seq<u32>, room: nat, max_positions: u32) -> Option<Error> {
    if positions.len() > max_positions {
        Some(Error { offset: 0, kind: ErrorKind::LimitExceeded })
    } else if first_refused(positions, 0) is Some {
        first_refused(positions, 0)
    } else if room < encoded(positions).len() {
        Some(Error { offset: 0, kind: ErrorKind::Truncated })
    } else {
        None
    }
}

/// Checked positions of one document term.
#[derive(Clone, Copy, Debug)]
pub struct Positions<'a> {
    payload: &'a [u8],
    count: u32,
}

impl<'a> View for Positions<'a> {
    type V = Seq<u32>;

    closed spec fn view(&self) -> Seq<u32> {
        decode(self.payload@, 0, self.count as nat, 0, true)->Ok_0.0
    }
}

impl<'a> Positions<'a> {
    #[verifier::type_invariant]
    closed spec fn inv(self) -> bool {
        decode(self.payload@, 0, self.count as nat, 0, true) is Ok
    }

    /// Validates count, canonical deltas, strict order and complete consumption.
    #[verifier::loop_isolation(false)]
    pub fn parse(bytes: &'a [u8], max_positions: u32) -> (result: Result<Self>)
        ensures
            match parsed(bytes@, max_positions) {
                Ok(positions) => result matches Ok(view) && view@ == positions,
                Err(error) => result == Err::<Self, _>(error),
            },
    {
        let mut reader: Reader<'a> = Reader::new(bytes);
        let count: u32 = reader.u32()?;
        if count > max_positions {
            return Err(Error::new(0, ErrorKind::LimitExceeded));
        }
        let length: usize = reader.remaining();
        if count as u64 > length as u64 {
            return Err(Error::new(4, ErrorKind::Truncated));
        }
        let payload: &'a [u8] = reader.take(length)?;
        let mut reader: Reader<'a> = Reader::new(payload);
        let mut remaining: u32 = count;
        let mut previous: u32 = 0;
        let mut first: bool = true;
        let ghost mut seen: Seq<u32> = Seq::empty();
        while remaining > 0
            invariant
                remaining <= count,
                reader.source() == payload@,
                decode(payload@, 0, count as nat, 0, true) == (match decode(
                    payload@,
                    reader.offset() as int,
                    remaining as nat,
                    previous,
                    first,
                ) {
                    Err(error) => Err(error),
                    Ok((rest, end)) => Ok((seen + rest, end)),
                }),
            decreases remaining,
        {
            let ghost before = seen;
            let ghost tail = decode(
                payload@,
                reader.offset() as int,
                remaining as nat,
                previous,
                first,
            );
            let offset: usize = reader.offset();
            let delta: u32 = reader.var_u32()?;
            if !first && delta == 0 {
                return Err(Error::new(offset, ErrorKind::InvalidOrder));
            }
            if delta > u32::MAX - previous {
                return Err(Error::new(offset, ErrorKind::Overflow));
            }
            previous = previous + delta;
            first = false;
            remaining -= 1;
            proof {
                seen = seen.push(previous);
                if tail is Ok {
                    let rest = decode(
                        payload@,
                        reader.offset() as int,
                        remaining as nat,
                        previous,
                        false,
                    )->Ok_0.0;
                    assert(before + (seq![previous] + rest) =~= seen + rest);
                }
            }
        }
        reader.finish()?;
        assert(decode(payload@, 0, count as nat, 0, true)->Ok_0.0 =~= seen);
        Ok(Positions { payload, count })
    }

    pub fn len(self) -> (len: u32)
        ensures
            len == self@.len(),
    {
        proof {
            use_type_invariant(&self);
            decode_len(self.payload@, 0, self.count as nat, 0, true);
        }
        self.count
    }

    pub fn is_empty(self) -> (empty: bool)
        ensures
            empty == (self@.len() == 0),
    {
        proof {
            use_type_invariant(&self);
            decode_len(self.payload@, 0, self.count as nat, 0, true);
        }
        self.count == 0
    }

    pub fn iter(self) -> (iter: PositionIter<'a>)
        ensures
            iter@ == self@.map_values(|position: u32| Ok::<u32, Error>(position)),
            increasing(self@),
    {
        proof {
            use_type_invariant(&self);
            decode_outcomes(self.payload@, 0, self.count as nat, 0, true);
            decode_increasing(self.payload@, 0, self.count as nat, 0, true);
        }
        PositionIter {
            reader: Reader::new(self.payload),
            remaining: self.count,
            previous: 0,
            first: true,
        }
    }
}

/// An iterator over encoded positions that stops at the first failure.
pub struct PositionIter<'a> {
    reader: Reader<'a>,
    remaining: u32,
    previous: u32,
    first: bool,
}

impl<'a> View for PositionIter<'a> {
    type V = Seq<Result<u32>>;

    /// The outcomes still to come.
    closed spec fn view(&self) -> Seq<Result<u32>> {
        outcomes(
            self.reader.source(),
            self.reader.offset() as int,
            self.remaining as nat,
            self.previous,
            self.first,
        )
    }
}

impl<'a> PositionIter<'a> {
    /// Yields the next position, or the failure that ends the iteration.
    pub fn next(&mut self) -> (item: Option<Result<u32>>)
        ensures
            if old(self)@.len() == 0 {
                item is None && final(self)@ == old(self)@
            } else {
                item == Some(old(self)@[0]) && final(self)@ == old(self)@.drop_first()
            },
    {
        if self.remaining == 0 {
            return None;
        }
        let offset: usize = self.reader.offset();
        let next: Result<u32> = match self.reader.var_u32() {
            Err(error) => Err(error),
            Ok(delta) => if !self.first && delta == 0 {
                Err(Error::new(offset, ErrorKind::InvalidOrder))
            } else if delta > u32::MAX - self.previous {
                Err(Error::new(offset, ErrorKind::Overflow))
            } else {
                Ok(self.previous + delta)
            },
        };
        match next {
            Ok(value) => {
                self.previous = value;
                self.first = false;
                self.remaining -= 1;
            },
            Err(_) => {
                self.remaining = 0;
            },
        }
        assert(self@ =~= old(self)@.drop_first());
        Some(next)
    }
}

/// Validates before writing; output size is exact and no allocation occurs.
#[verifier::loop_isolation(false)]
pub fn encode(positions: &[u32], output: &mut [u8], max_positions: u32) -> (result: Result<usize>)
    ensures
        match encode_error(positions@, old(output)@.len(), max_positions) {
            Some(error) => result == Err::<usize, _>(error) && final(output)@ == old(output)@,
            None => result == Ok::<usize, Error>(encoded(positions@).len() as usize)
                && encoded(positions@).len() <= old(output)@.len() && final(output)@ == splice(
                old(output)@,
                0,
                encoded(positions@),
            ),
        },
{
    if positions.len() > max_positions as usize {
        return Err(Error::new(0, ErrorKind::LimitExceeded));
    }
    let count: u32 = positions.len() as u32;
    let mut bytes: usize = 4;
    let mut previous: u32 = 0;
    let mut index: usize = 0;
    while index < positions.len()
        invariant
            index <= positions@.len(),
            positions@.len() <= u32::MAX,
            previous == base(positions@, index as int),
            bytes == 4 + delta_bytes(positions@.take(index as int)).len(),
            first_refused(positions@, 0) == first_refused(positions@, index as int),
        decreases positions@.len() - index,
    {
        let position: u32 = positions[index];
        if index != 0 && position <= previous {
            return Err(Error::new(index, ErrorKind::InvalidOrder));
        }
        proof {
            delta_step(positions@, index as int);
        }
        let len: usize = var_u32_len(position - previous);
        if len > usize::MAX - bytes {
            return Err(Error::new(index, ErrorKind::Overflow));
        }
        bytes = bytes + len;
        previous = position;
        index += 1;
    }
    assert(positions@.take(index as int) =~= positions@);
    if output.len() < bytes {
        return Err(Error::new(0, ErrorKind::Truncated));
    }
    let ghost before = output@;
    let ghost whole = encoded(positions@);
    proof {
        accepted_increasing(positions@, 0);
        assert(delta_bytes(positions@.take(0)) =~= Seq::<u8>::empty());
    }
    let mut writer: Writer = Writer::new(output);
    writer.u32(count)?;
    previous = 0;
    index = 0;
    proof {
        assert(writer.bytes@ =~= splice(
            before,
            0,
            u32_bytes(count) + delta_bytes(positions@.take(0)),
        ));
    }
    while index < positions.len()
        invariant
            index <= positions@.len(),
            increasing(positions@),
            previous == base(positions@, index as int),
            whole == encoded(positions@),
            count == positions@.len(),
            whole.len() <= before.len() <= usize::MAX,
            writer.offset == 4 + delta_bytes(positions@.take(index as int)).len(),
            writer.bytes@ == splice(
                before,
                0,
                u32_bytes(count) + delta_bytes(positions@.take(index as int)),
            ),
            final(writer.bytes)@ == after_borrow(output)@,
        decreases positions@.len() - index,
    {
        let position: u32 = positions[index];
        proof {
            delta_step(positions@, index as int);
            delta_prefix(positions@, index + 1);
        }
        let ghost done = u32_bytes(count) + delta_bytes(positions@.take(index as int));
        writer.var_u32(position - previous)?;
        proof {
            let code = var_bytes((position - previous) as nat);
            assert(splice(splice(before, 0, done), done.len() as int, code) =~= splice(
                before,
                0,
                done + code,
            ));
            assert(done + code =~= u32_bytes(count) + delta_bytes(
                positions@.take(index + 1),
            ));
        }
        previous = position;
        index += 1;
    }
    assert(positions@.take(index as int) =~= positions@);
    Ok(writer.len())
}

proof fn delta_step(positions: Seq<u32>, index: int)
    requires
        0 <= index < positions.len(),
    ensures
        delta_bytes(positions.take(index + 1)) == delta_bytes(positions.take(index)) + var_bytes(
            (positions[index] - base(positions, index)) as nat,
        ),
{
    assert(positions.take(index + 1).drop_last() =~= positions.take(index));
}

proof fn delta_prefix(positions: Seq<u32>, index: int)
    requires
        0 <= index <= positions.len(),
    ensures
        delta_bytes(positions.take(index)).len() <= delta_bytes(positions).len(),
        delta_bytes(positions).subrange(0, delta_bytes(positions.take(index)).len() as int)
            == delta_bytes(positions.take(index)),
    decreases positions.len() - index,
{
    if index == positions.len() {
        assert(positions.take(index) =~= positions);
        assert(delta_bytes(positions).subrange(0, delta_bytes(positions).len() as int)
            =~= delta_bytes(positions));
    } else {
        delta_step(positions, index);
        delta_prefix(positions, index + 1);
        let short = delta_bytes(positions.take(index));
        let long = delta_bytes(positions.take(index + 1));
        assert(delta_bytes(positions).subrange(0, short.len() as int) =~= delta_bytes(
            positions,
        ).subrange(0, long.len() as int).subrange(0, short.len() as int));
        assert(long.subrange(0, short.len() as int) =~= short);
    }
}

proof fn accepted_increasing(positions: Seq<u32>, index: int)
    requires
        0 <= index <= positions.len(),
        first_refused(positions, index) is None,
        forall|i: int, j: int| 0 <= i < j < index ==> positions[i] < positions[j],
    ensures
        increasing(positions),
    decreases positions.len() - index,
{
    if index < positions.len() {
        accepted_increasing(positions, index + 1);
    }
}

/// Strictly increasing positions whose encoding fits in memory are accepted.
pub proof fn increasing_accepted(positions: Seq<u32>, index: int)
    requires
        0 <= index <= positions.len(),
        increasing(positions),
        encoded(positions).len() <= usize::MAX,
    ensures
        first_refused(positions, index) is None,
    decreases positions.len() - index,
{
    if index < positions.len() {
        delta_prefix(positions, index + 1);
        increasing_accepted(positions, index + 1);
    }
}

pub(crate) proof fn decode_len(bytes: Seq<u8>, at: int, count: nat, previous: u32, first: bool)
    requires
        decode(bytes, at, count, previous, first) is Ok,
    ensures
        decode(bytes, at, count, previous, first)->Ok_0.0.len() == count,
    decreases count,
{
    if count > 0 {
        let (position, len) = next_position(bytes, at, previous, first)->Ok_0;
        decode_len(bytes, at + len, (count - 1) as nat, position, false);
    }
}

proof fn decode_outcomes(bytes: Seq<u8>, at: int, count: nat, previous: u32, first: bool)
    requires
        decode(bytes, at, count, previous, first) is Ok,
    ensures
        outcomes(bytes, at, count, previous, first) == decode(
            bytes,
            at,
            count,
            previous,
            first,
        )->Ok_0.0.map_values(|position: u32| Ok::<u32, Error>(position)),
    decreases count,
{
    let ok = |position: u32| Ok::<u32, Error>(position);
    if count > 0 {
        let (position, len) = next_position(bytes, at, previous, first)->Ok_0;
        decode_outcomes(bytes, at + len, (count - 1) as nat, position, false);
        let rest = decode(bytes, at + len, (count - 1) as nat, position, false)->Ok_0.0;
        assert((seq![position] + rest).map_values(ok) =~= seq![ok(position)] + rest.map_values(ok));
    } else {
        assert(Seq::<u32>::empty().map_values(ok) =~= Seq::empty());
    }
}

/// Accepted deltas give positions that increase strictly, all above `previous`
/// unless the first may equal it.
pub proof fn decode_increasing(bytes: Seq<u8>, at: int, count: nat, previous: u32, first: bool)
    requires
        decode(bytes, at, count, previous, first) is Ok,
    ensures
        ({
            let positions = decode(bytes, at, count, previous, first)->Ok_0.0;
            &&& increasing(positions)
            &&& forall|i: int|
                0 <= i < positions.len() ==> previous <= #[trigger] positions[i] && (!first
                    ==> previous < positions[i])
        }),
    decreases count,
{
    if count > 0 {
        let (position, len) = next_position(bytes, at, previous, first)->Ok_0;
        decode_increasing(bytes, at + len, (count - 1) as nat, position, false);
        let rest = decode(bytes, at + len, (count - 1) as nat, position, false)->Ok_0.0;
        let whole = seq![position] + rest;
        assert forall|i: int, j: int| 0 <= i < j < whole.len() implies whole[i] < whole[j] by {
            if i > 0 {
                assert(rest[i - 1] < rest[j - 1]);
            }
        }
    }
}

proof fn decode_of_deltas(positions: Seq<u32>, payload: Seq<u8>, index: int)
    requires
        increasing(positions),
        payload == delta_bytes(positions),
        payload.len() <= usize::MAX,
        0 <= index <= positions.len(),
    ensures
        decode(
            payload,
            delta_bytes(positions.take(index)).len() as int,
            (positions.len() - index) as nat,
            base(positions, index),
            index == 0,
        ) == Ok::<(Seq<u32>, int), Error>((positions.skip(index), payload.len() as int)),
    decreases positions.len() - index,
{
    if index == positions.len() {
        assert(positions.take(index) =~= positions);
        assert(positions.skip(index) =~= Seq::empty());
    } else {
        let at = delta_bytes(positions.take(index)).len() as int;
        let delta = (positions[index] - base(positions, index)) as nat;
        let code = var_bytes(delta);
        delta_step(positions, index);
        delta_prefix(positions, index + 1);
        decode_of_deltas(positions, payload, index + 1);
        let long = delta_bytes(positions.take(index + 1));
        assert(payload.subrange(at, at + code.len()) =~= payload.subrange(
            0,
            long.len() as int,
        ).subrange(at, at + code.len()));
        assert(long.subrange(at, at + code.len()) =~= code);
        var_u32_read_of_write(payload, at, delta as u32);
        assert(seq![positions[index]] + positions.skip(index + 1) =~= positions.skip(index));
    }
}

/// What `encode` writes, `parse` reads back.
pub proof fn parse_of_encode(positions: Seq<u32>, max_positions: u32)
    requires
        increasing(positions),
        positions.len() <= max_positions,
        encoded(positions).len() <= usize::MAX,
    ensures
        parsed(encoded(positions), max_positions) == Ok::<Seq<u32>, Error>(positions),
{
    let bytes = encoded(positions);
    let count = positions.len() as u32;
    let payload = delta_bytes(positions);
    delta_bytes_len(positions);
    assert(bytes.subrange(0, 4) =~= u32_bytes(count));
    assert(bytes.subrange(4, bytes.len() as int) =~= payload);
    le_u32_of_bytes(bytes, 0, count);
    decode_of_deltas(positions, payload, 0);
    assert(delta_bytes(positions.take(0)) =~= Seq::<u8>::empty());
    assert(positions.skip(0) =~= positions);
}

proof fn delta_bytes_len(positions: Seq<u32>)
    requires
        increasing(positions),
    ensures
        positions.len() <= delta_bytes(positions).len() <= 5 * positions.len(),
    decreases positions.len(),
{
    if positions.len() > 0 {
        let index = positions.len() - 1;
        var_bytes_len((positions[index] - base(positions, index)) as nat);
        delta_bytes_len(positions.drop_last());
    }
}

proof fn deltas_of_decode(
    bytes: Seq<u8>,
    at: int,
    count: nat,
    previous: u32,
    first: bool,
    seen: Seq<u32>,
)
    requires
        0 <= at <= bytes.len(),
        decode(bytes, at, count, previous, first) is Ok,
        first == (seen.len() == 0),
        previous == base(seen, seen.len() as int),
        bytes.subrange(0, at) == delta_bytes(seen),
    ensures
        ({
            let (rest, end) = decode(bytes, at, count, previous, first)->Ok_0;
            &&& at <= end <= bytes.len()
            &&& bytes.subrange(0, end) == delta_bytes(seen + rest)
        }),
    decreases count,
{
    let (rest, end) = decode(bytes, at, count, previous, first)->Ok_0;
    if count == 0 {
        assert(seen + rest =~= seen);
    } else {
        let (position, len) = next_position(bytes, at, previous, first)->Ok_0;
        var_u32_canonical(bytes, at);
        let next = seen.push(position);
        assert(next.drop_last() =~= seen);
        assert(bytes.subrange(0, at + len) =~= bytes.subrange(0, at) + bytes.subrange(
            at,
            at + len,
        ));
        deltas_of_decode(bytes, at + len, (count - 1) as nat, position, false, next);
        let tail = decode(bytes, at + len, (count - 1) as nat, position, false)->Ok_0.0;
        assert(next + tail =~= seen + rest);
    }
}

/// Parsing accepts only what `encode` writes: one encoding for each strictly
/// increasing list of positions.
pub proof fn encode_of_parse(bytes: Seq<u8>, max_positions: u32)
    requires
        parsed(bytes, max_positions) is Ok,
    ensures
        increasing(parsed(bytes, max_positions)->Ok_0),
        parsed(bytes, max_positions)->Ok_0.len() <= max_positions,
        encoded(parsed(bytes, max_positions)->Ok_0) == bytes,
{
    let positions = parsed(bytes, max_positions)->Ok_0;
    let count = le_u32(bytes, 0);
    let payload = bytes.subrange(4, bytes.len() as int);
    decode_len(payload, 0, count as nat, 0, true);
    decode_increasing(payload, 0, count as nat, 0, true);
    assert(payload.subrange(0, 0) =~= Seq::<u8>::empty());
    deltas_of_decode(payload, 0, count as nat, 0, true, Seq::empty());
    assert(Seq::<u32>::empty() + positions =~= positions);
    assert(payload.subrange(0, payload.len() as int) =~= payload);
    u32_bytes_of_le(bytes, 0);
    assert(bytes =~= bytes.subrange(0, 4) + payload);
}

} // verus!
