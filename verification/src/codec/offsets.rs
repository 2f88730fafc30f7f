//! Adaptive sparse, bitmap and run encodings over a validated heap-offset domain.
//! Set operations use fixed scratch; subtraction never invents universe members.

use super::bytes::{
    extent, group_bytes, le_u16, le_u16_of_bytes, splice, splice_join, u16_bytes, Reader, Writer,
};
use super::{fail, Error, ErrorKind, Result};
use crate::identity::{group_identity, HeapLayout};
use crate::mask::{
    both, byte_member, count, count_below, count_grows, count_members, either, empty_mask, is_empty,
    mask_bytes, mask_bytes_bits, mask_count_below, mask_from_bytes, mask_has, mask_insert,
    mask_is_empty, mask_logic, mask_next, member, members, members_range, minus, none,
    high_bits_clear, tail_clear, take_byte, OffsetMask,
};
use vstd::prelude::*;

verus! {

broadcast use {group_bytes, group_identity};

#[derive(Clone, Copy, Debug, Eq, PartialEq, Structural)]
pub enum Encoding {
    Sparse,
    Bitmap,
    Runs,
}

/// A set of heap offsets: bit `i` stands for offset `i + 1`.
#[derive(Clone, Copy, Debug, Eq, PartialEq)]
pub struct OffsetSet {
    words: [u64; 8],
    domain: u16,
}

/// A set of offsets as a mask over a domain.
#[verifier::ext_equal]
pub struct OffsetModel {
    pub words: Seq<u64>,
    pub domain: u16,
}

/// The members of a mask as a set.
pub open spec fn member_set(words: Seq<u64>) -> Set<int> {
    Set::new(|i: int| 0 <= i < 64 * words.len()).filter(|i: int| member(words, i))
}

/// The end of the run of members that starts at `from`.
pub open spec fn run_end(words: Seq<u64>, from: int) -> int
    decreases 64 * words.len() - from,
{
    if from < 64 * words.len() && member(words, from) {
        run_end(words, from + 1)
    } else {
        from
    }
}

/// The maximal runs from `from` on: where each starts and ends.
pub open spec fn runs(words: Seq<u64>, from: int) -> Seq<(int, int)>
    decreases 64 * words.len() - from,
{
    if from >= 64 * words.len() {
        Seq::empty()
    } else if !member(words, from) {
        runs(words, from + 1)
    } else if !(from < run_end(words, from) <= 64 * words.len()) {
        Seq::empty()
    } else {
        seq![(from, run_end(words, from))] + runs(words, run_end(words, from))
    }
}

/// The sparse form: each offset.
pub open spec fn sparse_code(list: Seq<int>) -> Seq<u8>
    decreases list.len(),
{
    if list.len() == 0 {
        Seq::empty()
    } else {
        sparse_code(list.drop_last()) + u16_bytes((list.last() + 1) as u16)
    }
}

/// The run form: the first offset and the length of each run.
pub open spec fn runs_code(list: Seq<(int, int)>) -> Seq<u8>
    decreases list.len(),
{
    if list.len() == 0 {
        Seq::empty()
    } else {
        runs_code(list.drop_last()) + u16_bytes((list.last().0 + 1) as u16) + u16_bytes(
            (list.last().1 - list.last().0) as u16,
        )
    }
}

impl OffsetModel {
    /// Members lie in a domain of at most 512 offsets.
    pub open spec fn wf(self) -> bool {
        &&& self.words.len() == 8
        &&& 1 <= self.domain <= 512
        &&& forall|i: int| #[trigger] member(self.words, i) ==> i < self.domain
    }

    pub open spec fn encoded_len(self, encoding: Encoding) -> int {
        match encoding {
            Encoding::Sparse => 6 + 2 * count(self.words) as int,
            Encoding::Bitmap => 6 + (self.domain + 7) / 8,
            Encoding::Runs => 8 + 4 * runs(self.words, 0).len() as int,
        }
    }

    /// The shortest form; ties prefer sparse, then bitmap, then runs.
    pub open spec fn preferred(self) -> Encoding {
        let sparse = self.encoded_len(Encoding::Sparse);
        let bitmap = self.encoded_len(Encoding::Bitmap);
        let best = if bitmap < sparse {
            Encoding::Bitmap
        } else {
            Encoding::Sparse
        };
        if self.encoded_len(Encoding::Runs) < self.encoded_len(best) {
            Encoding::Runs
        } else {
            best
        }
    }

    /// The encoded set.
    pub open spec fn code(self, encoding: Encoding) -> Seq<u8> {
        let header = u16_bytes(self.domain) + u16_bytes(count(self.words) as u16);
        match encoding {
            Encoding::Sparse => header + seq![0u8] + seq![0u8] + sparse_code(
                members(self.words, 0),
            ),
            Encoding::Bitmap => header + seq![1u8] + seq![0u8] + mask_bytes(
                self.words,
                (self.domain + 7) / 8,
            ),
            Encoding::Runs => header + seq![2u8] + seq![0u8] + u16_bytes(
                runs(self.words, 0).len() as u16,
            ) + runs_code(runs(self.words, 0)),
        }
    }
}

/// The set that sparse offsets from `at` on give, and where they end.
pub open spec fn sparse_at(
    bytes: Seq<u8>,
    at: int,
    remaining: nat,
    previous: u16,
    domain: u16,
) -> Result<(Set<int>, int)>
    decreases remaining,
{
    if remaining == 0 {
        Ok((Set::empty(), at))
    } else if extent(bytes, at, 2) is Err {
        Err(extent(bytes, at, 2)->Err_0)
    } else {
        let offset = le_u16(bytes, at);
        if offset <= previous {
            fail(at, ErrorKind::InvalidOrder)
        } else if offset > domain {
            fail(0, ErrorKind::InvalidValue)
        } else {
            match sparse_at(bytes, at + 2, (remaining - 1) as nat, offset, domain) {
                Err(error) => Err(error),
                Ok((set, end)) => Ok((set.insert(offset - 1), end)),
            }
        }
    }
}

/// The set that runs from `at` on give, and where they end.
pub open spec fn runs_at(
    bytes: Seq<u8>,
    at: int,
    remaining: nat,
    previous: u16,
    domain: u16,
) -> Result<(Set<int>, int)>
    decreases remaining,
{
    if remaining == 0 {
        Ok((Set::empty(), at))
    } else if extent(bytes, at, 2) is Err {
        Err(extent(bytes, at, 2)->Err_0)
    } else if extent(bytes, at + 2, 2) is Err {
        Err(extent(bytes, at + 2, 2)->Err_0)
    } else {
        let start = le_u16(bytes, at);
        let len = le_u16(bytes, at + 2);
        let end = start + len - 1;
        if start == 0 || len == 0 || (previous != 0 && start <= previous + 1) {
            fail(at, ErrorKind::InvalidOrder)
        } else if end > u16::MAX {
            fail(at, ErrorKind::Overflow)
        } else if end > domain {
            fail(at, ErrorKind::InvalidValue)
        } else {
            match runs_at(bytes, at + 4, (remaining - 1) as nat, end as u16, domain) {
                Err(error) => Err(error),
                Ok((set, stop)) => Ok((set.union(range_set(start - 1, end)), stop)),
            }
        }
    }
}

/// The numbers from `low` up to but not including `high`.
pub open spec fn range_set(low: int, high: int) -> Set<int> {
    Set::new(|i: int| 0 <= i < 512).filter(|i: int| low <= i < high)
}

/// The bits of a byte string as a set.
pub open spec fn byte_set(bytes: Seq<u8>) -> Set<int> {
    Set::new(|i: int| 0 <= i < 512).filter(|i: int| byte_member(bytes, i))
}

/// The set that the body of an encoding gives, and where the body ends.
pub open spec fn body_at(bytes: Seq<u8>, domain: u16, count: u16, tag: u8) -> Result<
    (Set<int>, int),
> {
    if tag == 0 {
        sparse_at(bytes, 6, count as nat, 0, domain)
    } else if tag == 1 {
        let len = (domain + 7) / 8;
        match extent(bytes, 6, len) {
            Err(error) => Err(error),
            Ok(body) => if domain % 8 != 0 && (body.last() >> ((domain % 8) as u8)) != 0 {
                fail(6 + len - 1, ErrorKind::NonCanonical)
            } else {
                Ok((byte_set(body), 6 + len))
            },
        }
    } else if tag == 2 {
        match extent(bytes, 6, 2) {
            Err(error) => Err(error),
            Ok(_) => if le_u16(bytes, 6) > count {
                fail(6, ErrorKind::InvalidValue)
            } else {
                runs_at(bytes, 8, le_u16(bytes, 6) as nat, 0, domain)
            },
        }
    } else {
        fail(4, ErrorKind::UnknownTag)
    }
}

/// The set that `bytes` encode, or why they encode none.
pub open spec fn parsed(bytes: Seq<u8>, layout: HeapLayout) -> Result<Set<int>> {
    let domain = layout.max_offset();
    let count = le_u16(bytes, 2);
    if bytes.len() < 2 {
        fail(0, ErrorKind::Truncated)
    } else if le_u16(bytes, 0) != domain {
        fail(0, ErrorKind::InvalidValue)
    } else if bytes.len() < 4 {
        fail(2, ErrorKind::Truncated)
    } else if count > domain {
        fail(2, ErrorKind::InvalidValue)
    } else if bytes.len() < 5 {
        fail(4, ErrorKind::Truncated)
    } else if bytes.len() < 6 {
        fail(5, ErrorKind::Truncated)
    } else if bytes[5] != 0 {
        fail(5, ErrorKind::NonCanonical)
    } else {
        match body_at(bytes, domain, count, bytes[4]) {
            Err(error) => Err(error),
            Ok((set, end)) => if end != bytes.len() {
                fail(end, ErrorKind::TrailingBytes)
            } else if set.len() != count {
                fail(2, ErrorKind::InvalidValue)
            } else {
                Ok(set)
            },
        }
    }
}

impl View for OffsetSet {
    type V = OffsetModel;

    closed spec fn view(&self) -> OffsetModel {
        OffsetModel { words: self.words@, domain: self.domain }
    }
}

proof fn member_set_count(words: Seq<u64>, below: int)
    requires
        0 <= below <= 64 * words.len(),
    ensures
        ({
            let part = Set::new(|i: int| 0 <= i < below).filter(|i: int| member(words, i));
            part.finite() && part.len() == count_below(words, below)
        }),
    decreases below,
{
    let part = Set::new(|i: int| 0 <= i < below).filter(|i: int| member(words, i));
    if below > 0 {
        let fewer = Set::new(|i: int| 0 <= i < below - 1).filter(|i: int| member(words, i));
        member_set_count(words, below - 1);
        if member(words, below - 1) {
            assert(part =~= fewer.insert(below - 1));
        } else {
            assert(part =~= fewer);
        }
    } else {
        assert(part =~= Set::empty());
    }
}

impl OffsetSet {
    #[verifier::type_invariant]
    closed spec fn inv(self) -> bool {
        self@.wf()
    }

    pub fn new(layout: HeapLayout) -> (set: Self)
        ensures
            set@ == (OffsetModel { words: none(8), domain: layout.max_offset() }),
            set@.wf(),
    {
        let words: [u64; 8] = [0u64; 8];
        let domain: u16 = layout.max_offset();
        proof {
            assert(words@ =~= none(8));
            empty_mask(words@);
        }
        OffsetSet { words, domain }
    }

    pub fn len(&self) -> (len: u16)
        ensures
            len == count(self@.words),
            self@.wf(),
    {
        proof {
            use_type_invariant(self);
        }
        mask_count_below(&self.words, 512) as u16
    }

    pub fn is_empty(&self) -> (empty: bool)
        ensures
            empty == is_empty(self@.words),
    {
        mask_is_empty(&self.words)
    }

    pub fn contains(&self, offset: u16) -> (contained: bool)
        ensures
            contained == (offset >= 1 && member(self@.words, offset - 1)),
    {
        proof {
            use_type_invariant(self);
        }
        if offset == 0 || offset > self.domain {
            return false;
        }
        mask_has(&self.words, offset as usize - 1)
    }

    /// Rejects out-of-domain offsets before touching the bitmap.
    pub fn insert(&mut self, offset: u16) -> (result: Result<bool>)
        ensures
            final(self)@.domain == old(self)@.domain,
            final(self)@.wf(),
            if offset == 0 || offset > old(self)@.domain {
                result == fail::<bool>(0, ErrorKind::InvalidValue) && final(self)@ == old(self)@
            } else {
                &&& result == Ok::<bool, Error>(!member(old(self)@.words, offset - 1))
                &&& forall|i: int|
                    #![trigger member(final(self)@.words, i)]
                    member(final(self)@.words, i) == (i == offset - 1 || member(
                        old(self)@.words,
                        i,
                    ))
            },
    {
        proof {
            use_type_invariant(&*self);
        }
        if offset == 0 || offset > self.domain {
            return Err(Error::new(0, ErrorKind::InvalidValue));
        }
        let index: usize = offset as usize - 1;
        let fresh: bool = !mask_has(&self.words, index);
        let mut words: [u64; 8] = self.words;
        mask_insert(&mut words, index);
        *self = OffsetSet { words, domain: self.domain };
        Ok(fresh)
    }

    pub fn iter(&self) -> (iter: OffsetIter<'_>)
        ensures
            iter@ == members(self@.words, 0),
    {
        OffsetIter { words: &self.words, next: 0 }
    }

    pub fn intersection(&self, other: &Self) -> (result: Result<Self>)
        ensures
            if self@.domain != other@.domain {
                result == fail::<Self>(0, ErrorKind::InvalidValue)
            } else {
                result matches Ok(set) && set@ == (OffsetModel {
                    words: both(self@.words, other@.words),
                    domain: self@.domain,
                })
            },
    {
        proof {
            use_type_invariant(self);
            use_type_invariant(other);
        }
        if self.domain != other.domain {
            return Err(Error::new(0, ErrorKind::InvalidValue));
        }
        let mut words: [u64; 8] = [0u64; 8];
        let mut i: usize = 0;
        while i < 8
            invariant
                i <= 8,
                forall|j: int| 0 <= j < i ==> words@[j] == self.words@[j] & other.words@[j],
            decreases 8 - i,
        {
            words[i] = self.words[i] & other.words[i];
            i += 1;
        }
        proof {
            assert(words@ =~= both(self.words@, other.words@));
            assert forall|i: int| #[trigger] member(words@, i) implies i < self.domain by {
                mask_logic(self.words@, other.words@, i);
            }
        }
        Ok(OffsetSet { words, domain: self.domain })
    }

    pub fn union(&self, other: &Self) -> (result: Result<Self>)
        ensures
            if self@.domain != other@.domain {
                result == fail::<Self>(0, ErrorKind::InvalidValue)
            } else {
                result matches Ok(set) && set@ == (OffsetModel {
                    words: either(self@.words, other@.words),
                    domain: self@.domain,
                })
            },
    {
        proof {
            use_type_invariant(self);
            use_type_invariant(other);
        }
        if self.domain != other.domain {
            return Err(Error::new(0, ErrorKind::InvalidValue));
        }
        let mut words: [u64; 8] = [0u64; 8];
        let mut i: usize = 0;
        while i < 8
            invariant
                i <= 8,
                forall|j: int| 0 <= j < i ==> words@[j] == self.words@[j] | other.words@[j],
            decreases 8 - i,
        {
            words[i] = self.words[i] | other.words[i];
            i += 1;
        }
        proof {
            assert(words@ =~= either(self.words@, other.words@));
            assert forall|i: int| #[trigger] member(words@, i) implies i < self.domain by {
                mask_logic(self.words@, other.words@, i);
            }
        }
        Ok(OffsetSet { words, domain: self.domain })
    }

    pub fn difference(&self, other: &Self) -> (result: Result<Self>)
        ensures
            if self@.domain != other@.domain {
                result == fail::<Self>(0, ErrorKind::InvalidValue)
            } else {
                result matches Ok(set) && set@ == (OffsetModel {
                    words: minus(self@.words, other@.words),
                    domain: self@.domain,
                })
            },
    {
        proof {
            use_type_invariant(self);
            use_type_invariant(other);
        }
        if self.domain != other.domain {
            return Err(Error::new(0, ErrorKind::InvalidValue));
        }
        let mut words: [u64; 8] = [0u64; 8];
        let mut i: usize = 0;
        while i < 8
            invariant
                i <= 8,
                forall|j: int| 0 <= j < i ==> words@[j] == self.words@[j] & !other.words@[j],
            decreases 8 - i,
        {
            words[i] = self.words[i] & !other.words[i];
            i += 1;
        }
        proof {
            assert(words@ =~= minus(self.words@, other.words@));
            assert forall|i: int| #[trigger] member(words@, i) implies i < self.domain by {
                mask_logic(self.words@, other.words@, i);
            }
        }
        Ok(OffsetSet { words, domain: self.domain })
    }

    /// The run that starts at or after `from`.
    fn next_run(&self, from: usize) -> (run: Option<(usize, usize)>)
        requires
            from <= 512,
        ensures
            match run {
                None => runs(self@.words, from as int).len() == 0,
                Some((start, end)) => from <= start < end <= 512 && end <= self@.domain && runs(
                    self@.words,
                    from as int,
                ) == seq![(start as int, end as int)] + runs(self@.words, end as int),
            },
    {
        proof {
            use_type_invariant(self);
        }
        let start: usize = match mask_next(&self.words, from) {
            None => {
                proof {
                    skip_runs(self.words@, from as int, 512);
                }
                return None;
            },
            Some(start) => start,
        };
        proof {
            skip_runs(self.words@, from as int, start as int);
        }
        let mut end: usize = start;
        while end < 512 && mask_has(&self.words, end)
            invariant
                start <= end <= 512,
                self.words@.len() == 8,
                run_end(self.words@, start as int) == run_end(self.words@, end as int),
            decreases 512 - end,
        {
            end += 1;
        }
        proof {
            assert(member(self.words@, start as int));
            assert(run_end(self.words@, start as int) == end);
            assert(end > start) by {
                run_end_after(self.words@, start + 1);
            }
            run_members(self.words@, start as int);
            assert(member(self.words@, end - 1));
        }
        Some((start, end))
    }

    #[verifier::loop_isolation(false)]
    fn run_count(&self) -> (count: u16)
        ensures
            count == runs(self@.words, 0).len(),
            count <= 512,
    {
        let mut count: u16 = 0;
        let mut at: usize = 0;
        let mut more: bool = true;
        while more
            invariant
                count <= at <= 512,
                count + runs(self@.words, at as int).len() == runs(self@.words, 0).len(),
                !more ==> runs(self@.words, at as int).len() == 0,
            decreases 512 - at, (if more { 1int } else { 0int }),
        {
            match self.next_run(at) {
                None => {
                    more = false;
                },
                Some((_, end)) => {
                    count += 1;
                    at = end;
                },
            }
        }
        count
    }

    pub fn encoded_len(&self, encoding: Encoding) -> (len: usize)
        ensures
            len == self@.encoded_len(encoding),
            len <= 2056,
    {
        proof {
            use_type_invariant(self);
        }
        match encoding {
            Encoding::Sparse => 6 + mask_count_below(&self.words, 512) * 2,
            Encoding::Bitmap => 6 + (self.domain as usize + 7) / 8,
            Encoding::Runs => 8 + self.run_count() as usize * 4,
        }
    }

    /// Ties prefer sparse, then bitmap, then runs; headers count toward selection.
    pub fn preferred_encoding(&self) -> (encoding: Encoding)
        ensures
            encoding == self@.preferred(),
    {
        let sparse: usize = self.encoded_len(Encoding::Sparse);
        let bitmap: usize = self.encoded_len(Encoding::Bitmap);
        let (best, size): (Encoding, usize) = if bitmap < sparse {
            (Encoding::Bitmap, bitmap)
        } else {
            (Encoding::Sparse, sparse)
        };
        if self.encoded_len(Encoding::Runs) < size {
            Encoding::Runs
        } else {
            best
        }
    }

    pub fn encode(&self, output: &mut [u8]) -> (result: Result<usize>)
        ensures
            final(output)@.len() == old(output)@.len(),
            if old(output)@.len() < self@.encoded_len(self@.preferred()) {
                result == fail::<usize>(0, ErrorKind::Truncated) && final(output)@ == old(output)@
            } else {
                result == Ok::<usize, Error>(self@.encoded_len(self@.preferred()) as usize)
                    && final(output)@ == splice(
                    old(output)@,
                    0,
                    self@.code(self@.preferred()),
                ) && self@.code(self@.preferred()).len() == self@.encoded_len(self@.preferred())
            },
    {
        self.encode_as(self.preferred_encoding(), output)
    }

    #[verifier::loop_isolation(false)]
    pub fn encode_as(&self, encoding: Encoding, output: &mut [u8]) -> (result: Result<usize>)
        ensures
            final(output)@.len() == old(output)@.len(),
            if old(output)@.len() < self@.encoded_len(encoding) {
                result == fail::<usize>(0, ErrorKind::Truncated) && final(output)@ == old(output)@
            } else {
                result == Ok::<usize, Error>(self@.encoded_len(encoding) as usize) && final(output)@
                    == splice(old(output)@, 0, self@.code(encoding)) && self@.code(encoding).len()
                    == self@.encoded_len(encoding)
            },
    {
        proof {
            use_type_invariant(self);
            code_len(self@, encoding);
        }
        if output.len() < self.encoded_len(encoding) {
            return Err(Error::new(0, ErrorKind::Truncated));
        }
        let tag: u8 = match encoding {
            Encoding::Sparse => 0,
            Encoding::Bitmap => 1,
            Encoding::Runs => 2,
        };
        let total: u16 = self.len();
        let ghost before = output@;
        let ghost words = self@.words;
        assert(before =~= splice(before, 0, Seq::empty()));
        assert(Seq::<u8>::empty() + u16_bytes(self.domain) =~= u16_bytes(self.domain));
        let mut writer: Writer = Writer::new(output);
        let a: Result<()> = writer.u16(self.domain);
        let b: Result<()> = writer.u16(total);
        let c: Result<()> = writer.u8(tag);
        let d: Result<()> = writer.u8(0);
        assert(a is Ok && b is Ok && c is Ok && d is Ok);
        let ghost lead = u16_bytes(self.domain) + u16_bytes(total) + seq![tag] + seq![0u8];
        match encoding {
            Encoding::Sparse => {
                self.write_sparse(&mut writer);
                assert(lead + sparse_code(members(words, 0)) =~= self@.code(encoding));
            },
            Encoding::Bitmap => {
                self.write_bitmap(&mut writer);
                assert(lead + mask_bytes(words, (self.domain + 7) / 8) =~= self@.code(encoding));
            },
            Encoding::Runs => {
                let e: Result<()> = writer.u16(self.run_count());
                assert(e is Ok);
                self.write_runs(&mut writer);
                assert(lead + u16_bytes(runs(words, 0).len() as u16) + runs_code(runs(words, 0))
                    =~= self@.code(encoding));
            },
        }
        Ok(writer.len())
    }

    #[verifier::loop_isolation(false)]
    fn write_sparse(&self, writer: &mut Writer<'_>)
        requires
            old(writer).offset + 2 * count(self@.words) <= old(writer).bytes@.len(),
        ensures
            final(writer).bytes@ == splice(
                old(writer).bytes@,
                old(writer).offset as int,
                sparse_code(members(self@.words, 0)),
            ),
            final(writer).offset == old(writer).offset + 2 * count(self@.words),
            final(final(writer).bytes)@ == final(old(writer).bytes)@,
    {
        let ghost before = writer.bytes@;
        let ghost words = self@.words;
        let start: usize = writer.offset;
        let room: usize = writer.bytes.len();
        let ghost list = members(words, 0);
        let ghost mut done: int = 0;
        let mut at: usize = 0;
        let mut more: bool = true;
        proof {
            assert(list.take(0) =~= Seq::empty());
            assert(before =~= splice(before, start as int, sparse_code(list.take(0))));
            assert(list.skip(0) =~= list);
            sparse_len(list);
            count_members(words, 0);
        }
        while more
            invariant
                at <= 512,
                0 <= done <= list.len(),
                members(words, at as int) == list.skip(done),
                writer.offset == start + 2 * done,
                writer.bytes@ == splice(before, start as int, sparse_code(list.take(done))),
                final(writer.bytes)@ == final(old(writer).bytes)@,
                !more ==> done == list.len(),
            decreases 512 - at, (if more { 1int } else { 0int }),
        {
            match mask_next(&self.words, at) {
                None => {
                    more = false;
                },
                Some(index) => {
                    proof {
                        assert(list.skip(done)[0] == list[done]);
                        assert(list.take(done + 1).drop_last() =~= list.take(done));
                        assert(list.skip(done).drop_first() =~= list.skip(done + 1));
                        assert((seq![index as int] + members(words, index + 1)).drop_first()
                            =~= members(words, index + 1));
                        sparse_len(list.take(done));
                    }
                    let e: Result<()> = writer.u16((index + 1) as u16);
                    assert(e is Ok);
                    proof {
                        splice_join(
                            before,
                            start as int,
                            sparse_code(list.take(done)),
                            u16_bytes((index + 1) as u16),
                        );
                        done = done + 1;
                    }
                    at = index + 1;
                },
            }
        }
        assert(list.take(done) =~= list);
    }

    #[verifier::loop_isolation(false)]
    fn write_bitmap(&self, writer: &mut Writer<'_>)
        requires
            old(writer).offset + (self@.domain + 7) / 8 <= old(writer).bytes@.len(),
        ensures
            final(writer).bytes@ == splice(
                old(writer).bytes@,
                old(writer).offset as int,
                mask_bytes(self@.words, (self@.domain + 7) / 8),
            ),
            final(writer).offset == old(writer).offset + (self@.domain + 7) / 8,
            final(final(writer).bytes)@ == final(old(writer).bytes)@,
    {
        proof {
            use_type_invariant(self);
        }
        let ghost before = writer.bytes@;
        let ghost words = self@.words;
        let start: usize = writer.offset;
        let room: usize = writer.bytes.len();
        let len: usize = (self.domain as usize + 7) / 8;
        let mut i: usize = 0;
        assert(before =~= splice(before, start as int, mask_bytes(words, 0)));
        while i < len
            invariant
                i <= len,
                writer.offset == start + i,
                writer.bytes@ == splice(before, start as int, mask_bytes(words, i as int)),
                final(writer.bytes)@ == final(old(writer).bytes)@,
            decreases len - i,
        {
            let byte: u8 = take_byte(&self.words, i);
            let e: Result<()> = writer.u8(byte);
            assert(e is Ok);
            proof {
                splice_join(before, start as int, mask_bytes(words, i as int), seq![byte]);
                assert(mask_bytes(words, i as int) + seq![byte] =~= mask_bytes(words, i + 1));
            }
            i += 1;
        }
    }

    #[verifier::loop_isolation(false)]
    fn write_runs(&self, writer: &mut Writer<'_>)
        requires
            old(writer).offset + 4 * runs(self@.words, 0).len() <= old(writer).bytes@.len(),
        ensures
            final(writer).bytes@ == splice(
                old(writer).bytes@,
                old(writer).offset as int,
                runs_code(runs(self@.words, 0)),
            ),
            final(writer).offset == old(writer).offset + 4 * runs(self@.words, 0).len(),
            final(final(writer).bytes)@ == final(old(writer).bytes)@,
    {
        let ghost before = writer.bytes@;
        let ghost words = self@.words;
        let start: usize = writer.offset;
        let room: usize = writer.bytes.len();
        let ghost list = runs(words, 0);
        let ghost mut done: int = 0;
        let mut at: usize = 0;
        let mut more: bool = true;
        proof {
            assert(list.take(0) =~= Seq::empty());
            assert(before =~= splice(before, start as int, runs_code(list.take(0))));
            assert(list.skip(0) =~= list);
        }
        while more
            invariant
                at <= 512,
                0 <= done <= list.len(),
                runs(words, at as int) == list.skip(done),
                writer.offset == start + 4 * done,
                writer.bytes@ == splice(before, start as int, runs_code(list.take(done))),
                final(writer.bytes)@ == final(old(writer).bytes)@,
                !more ==> done == list.len(),
            decreases 512 - at, (if more { 1int } else { 0int }),
        {
            match self.next_run(at) {
                None => {
                    more = false;
                },
                Some((first, end)) => {
                    let ghost part = runs_code(list.take(done));
                    let ghost a = u16_bytes((first + 1) as u16);
                    let ghost b = u16_bytes((end - first) as u16);
                    proof {
                        assert(list.skip(done)[0] == list[done]);
                        assert(list.take(done + 1).drop_last() =~= list.take(done));
                        assert(list.skip(done).drop_first() =~= list.skip(done + 1));
                        assert((seq![(first as int, end as int)] + runs(
                            words,
                            end as int,
                        )).drop_first() =~= runs(words, end as int));
                        runs_len(list.take(done));
                    }
                    let f: Result<()> = writer.u16((first + 1) as u16);
                    let g: Result<()> = writer.u16((end - first) as u16);
                    assert(f is Ok && g is Ok);
                    proof {
                        splice_join(before, start as int, part, a);
                        splice_join(before, start as int, part + a, b);
                        done = done + 1;
                    }
                    at = end;
                },
            }
        }
        assert(list.take(done) =~= list);
    }

    /// Rejects invalid cardinality, ordering, reserved bits and bitmap tails.
    pub fn parse(bytes: &[u8], layout: HeapLayout) -> (result: Result<Self>)
        ensures
            match parsed(bytes@, layout) {
                Err(error) => result == Err::<Self, Error>(error),
                Ok(set) => result matches Ok(offsets) && offsets@.domain == layout.max_offset()
                    && member_set(offsets@.words) == set && offsets@.wf(),
            },
    {
        let mut reader: Reader = Reader::new(bytes);
        if reader.u16()? != layout.max_offset() {
            return Err(Error::new(0, ErrorKind::InvalidValue));
        }
        let count: u16 = reader.u16()?;
        if count > layout.max_offset() {
            return Err(Error::new(2, ErrorKind::InvalidValue));
        }
        let tag: u8 = reader.u8()?;
        if reader.u8()? != 0 {
            return Err(Error::new(5, ErrorKind::NonCanonical));
        }
        let result: OffsetSet = match tag {
            0 => OffsetSet::read_sparse(&mut reader, layout, count)?,
            1 => OffsetSet::read_bitmap(&mut reader, layout)?,
            2 => {
                let runs: u16 = reader.u16()?;
                if runs > count {
                    return Err(Error::new(6, ErrorKind::InvalidValue));
                }
                OffsetSet::read_runs(&mut reader, layout, runs)?
            },
            _ => {
                return Err(Error::new(4, ErrorKind::UnknownTag));
            },
        };
        reader.finish()?;
        proof {
            member_set_count(result@.words, 512);
            assert(member_set(result@.words) =~= Set::new(|i: int| 0 <= i < 512).filter(
                |i: int| member(result@.words, i),
            ));
        }
        if result.len() != count {
            return Err(Error::new(2, ErrorKind::InvalidValue));
        }
        Ok(result)
    }

    #[verifier::loop_isolation(false)]
    fn read_sparse(reader: &mut Reader<'_>, layout: HeapLayout, count: u16) -> (result: Result<
        Self,
    >)
        ensures
            final(reader).source() == old(reader).source(),
            match sparse_at(
                old(reader).source(),
                old(reader).offset() as int,
                count as nat,
                0,
                layout.max_offset(),
            ) {
                Err(error) => result == Err::<Self, Error>(error),
                Ok((set, end)) => result matches Ok(offsets) && offsets@.domain
                    == layout.max_offset() && member_set(offsets@.words) == set && offsets@.wf()
                    && final(reader).offset() == end,
            },
    {
        let mut result: OffsetSet = OffsetSet::new(layout);
        let mut previous: u16 = 0;
        let mut remaining: u16 = count;
        let ghost source = reader.source();
        let ghost start = reader.offset() as int;
        let ghost domain = layout.max_offset();
        proof {
            empty_mask(result@.words);
            assert(member_set(result@.words) =~= Set::empty());
            if let Ok((set, _)) = sparse_at(source, start, count as nat, 0, domain) {
                assert(set.union(member_set(result@.words)) =~= set);
            }
        }
        while remaining > 0
            invariant
                reader.source() == source,
                result@.domain == domain,
                result@.wf(),
                sparse_at(source, start, count as nat, 0, domain) == (match sparse_at(
                    source,
                    reader.offset() as int,
                    remaining as nat,
                    previous,
                    domain,
                ) {
                    Err(error) => Err(error),
                    Ok((set, end)) => Ok((set.union(member_set(result@.words)), end)),
                }),
            decreases remaining,
        {
            let at: usize = reader.offset();
            let ghost before = result@.words;
            let ghost tail = sparse_at(source, at as int, remaining as nat, previous, domain);
            let offset: u16 = reader.u16()?;
            if offset <= previous {
                return Err(Error::new(at, ErrorKind::InvalidOrder));
            }
            result.insert(offset)?;
            previous = offset;
            remaining -= 1;
            proof {
                assert(member_set(result@.words) =~= member_set(before).insert(offset - 1)) by {
                    assert forall|i: int| member_set(result@.words).contains(i) == member_set(
                        before,
                    ).insert(offset - 1).contains(i) by {
                        assert(member(result@.words, i) == (i == offset - 1 || member(before, i)));
                    }
                }
                let rest = sparse_at(
                    source,
                    reader.offset() as int,
                    remaining as nat,
                    previous,
                    domain,
                );
                if rest is Ok {
                    let set = rest->Ok_0.0;
                    assert(set.insert(offset - 1).union(member_set(before)) =~= set.union(
                        member_set(result@.words),
                    ));
                }
            }
        }
        assert(Set::<int>::empty().union(member_set(result@.words)) =~= member_set(result@.words));
        Ok(result)
    }

    fn read_bitmap(reader: &mut Reader<'_>, layout: HeapLayout) -> (result: Result<Self>)
        ensures
            final(reader).source() == old(reader).source(),
            ({
                let domain = layout.max_offset();
                let len = (domain + 7) / 8;
                match extent(old(reader).source(), old(reader).offset() as int, len) {
                    Err(error) => result == Err::<Self, Error>(error),
                    Ok(body) => if domain % 8 != 0 && (body.last() >> ((domain % 8) as u8)) != 0 {
                        result == fail::<Self>(
                            old(reader).offset() + len - 1,
                            ErrorKind::NonCanonical,
                        )
                    } else {
                        result matches Ok(offsets) && offsets@.domain == domain && member_set(
                            offsets@.words,
                        ) == byte_set(body) && offsets@.wf() && final(reader).offset()
                            == old(reader).offset() + len
                    },
                }
            }),
    {
        let domain: u16 = layout.max_offset();
        let len: usize = (domain as usize + 7) / 8;
        let bytes: &[u8] = reader.take(len)?;
        let tail: u8 = (domain % 8) as u8;
        let last: u8 = bytes[len - 1];
        if tail != 0 && (last >> tail) != 0 {
            return Err(Error::new(reader.offset() - 1, ErrorKind::NonCanonical));
        }
        let words: OffsetMask = mask_from_bytes(bytes);
        proof {
            assert forall|i: int| #[trigger] member(words@, i) implies i < domain by {
                assert(byte_member(bytes@, i));
                if i >= domain {
                    assert(i / 8 == len - 1);
                    high_bits_clear(last, tail, (i % 8) as u8);
                }
            }
            assert(member_set(words@) =~= byte_set(bytes@)) by {
                assert forall|i: int| member_set(words@).contains(i) == byte_set(bytes@).contains(
                    i,
                ) by {
                    if 0 <= i < 512 {
                        assert(member(words@, i) == byte_member(bytes@, i));
                    }
                }
            }
        }
        Ok(OffsetSet { words, domain })
    }

    #[verifier::loop_isolation(false)]
    fn read_runs(reader: &mut Reader<'_>, layout: HeapLayout, number: u16) -> (result: Result<Self>)
        ensures
            final(reader).source() == old(reader).source(),
            match runs_at(
                old(reader).source(),
                old(reader).offset() as int,
                number as nat,
                0,
                layout.max_offset(),
            ) {
                Err(error) => result == Err::<Self, Error>(error),
                Ok((set, end)) => result matches Ok(offsets) && offsets@.domain
                    == layout.max_offset() && member_set(offsets@.words) == set && offsets@.wf()
                    && final(reader).offset() == end,
            },
    {
        let mut result: OffsetSet = OffsetSet::new(layout);
        let mut previous: u16 = 0;
        let mut remaining: u16 = number;
        let ghost source = reader.source();
        let ghost start_at = reader.offset() as int;
        let domain: u16 = layout.max_offset();
        proof {
            empty_mask(result@.words);
            assert(member_set(result@.words) =~= Set::empty());
            if let Ok((set, _)) = runs_at(source, start_at, number as nat, 0, domain) {
                assert(set.union(member_set(result@.words)) =~= set);
            }
        }
        while remaining > 0
            invariant
                reader.source() == source,
                result@.domain == domain,
                result@.wf(),
                previous <= domain,
                runs_at(source, start_at, number as nat, 0, domain) == (match runs_at(
                    source,
                    reader.offset() as int,
                    remaining as nat,
                    previous,
                    domain,
                ) {
                    Err(error) => Err(error),
                    Ok((set, end)) => Ok((set.union(member_set(result@.words)), end)),
                }),
            decreases remaining,
        {
            let at: usize = reader.offset();
            let ghost before = result@.words;
            let first: u16 = reader.u16()?;
            let len: u16 = reader.u16()?;
            if first == 0 || len == 0 || (previous != 0 && first <= previous + 1) {
                return Err(Error::new(at, ErrorKind::InvalidOrder));
            }
            if len - 1 > u16::MAX - first {
                return Err(Error::new(at, ErrorKind::Overflow));
            }
            let end: u16 = first + (len - 1);
            if end > domain {
                return Err(Error::new(at, ErrorKind::InvalidValue));
            }
            let mut offset: u16 = first;
            while offset <= end
                invariant
                    first <= offset <= end + 1,
                    result@.domain == domain,
                    result@.wf(),
                    forall|i: int|
                        #![trigger member(result@.words, i)]
                        member(result@.words, i) == (first - 1 <= i < offset - 1 || member(
                            before,
                            i,
                        )),
                decreases end + 1 - offset,
            {
                let fresh: Result<bool> = result.insert(offset);
                assert(fresh is Ok);
                offset += 1;
            }
            previous = end;
            remaining -= 1;
            proof {
                let range = range_set(first - 1, end as int);
                assert(member_set(result@.words) =~= member_set(before).union(range)) by {
                    assert forall|i: int| member_set(result@.words).contains(i) == member_set(
                        before,
                    ).union(range).contains(i) by {
                        assert(member(result@.words, i) == (first - 1 <= i < end || member(
                            before,
                            i,
                        )));
                    }
                }
                let rest = runs_at(
                    source,
                    reader.offset() as int,
                    remaining as nat,
                    previous,
                    domain,
                );
                if rest is Ok {
                    let set = rest->Ok_0.0;
                    assert(set.union(range).union(member_set(before)) =~= set.union(
                        member_set(result@.words),
                    ));
                }
            }
        }
        assert(Set::<int>::empty().union(member_set(result@.words)) =~= member_set(result@.words));
        Ok(result)
    }
}

proof fn skip_runs(words: Seq<u64>, from: int, to: int)
    requires
        0 <= from <= to <= 64 * words.len(),
        members(words, from) == members(words, to) || members(words, from).len() == 0,
    ensures
        runs(words, from) == runs(words, to),
    decreases to - from,
{
    members_range(words, from);
    if from < to {
        members_range(words, to);
        if member(words, from) {
            assert(members(words, from).contains(from));
            assert(members(words, from)[0] == from);
            assert(members(words, to)[0] >= to);
        }
        skip_runs(words, from + 1, to);
    }
}

proof fn run_end_after(words: Seq<u64>, from: int)
    requires
        0 <= from,
    ensures
        run_end(words, from) >= from,
    decreases 64 * words.len() - from,
{
    if from < 64 * words.len() && member(words, from) {
        run_end_after(words, from + 1);
    }
}

proof fn run_members(words: Seq<u64>, from: int)
    requires
        0 <= from,
    ensures
        run_end(words, from) >= from,
        from <= 64 * words.len() ==> run_end(words, from) <= 64 * words.len(),
        forall|i: int| from <= i < run_end(words, from) ==> member(words, i),
        run_end(words, from) < 64 * words.len() ==> !member(words, run_end(words, from)),
    decreases 64 * words.len() - from,
{
    if from < 64 * words.len() && member(words, from) {
        run_members(words, from + 1);
    }
}

proof fn sparse_len(list: Seq<int>)
    ensures
        sparse_code(list).len() == 2 * list.len(),
    decreases list.len(),
{
    if list.len() > 0 {
        sparse_len(list.drop_last());
    }
}

proof fn runs_len(list: Seq<(int, int)>)
    ensures
        runs_code(list).len() == 4 * list.len(),
    decreases list.len(),
{
    if list.len() > 0 {
        runs_len(list.drop_last());
    }
}

proof fn code_len(model: OffsetModel, encoding: Encoding)
    requires
        model.wf(),
    ensures
        model.code(encoding).len() == model.encoded_len(encoding),
{
    sparse_len(members(model.words, 0));
    runs_len(runs(model.words, 0));
    count_members(model.words, 0);
}

/// The offsets of a set, in ascending order.
pub struct OffsetIter<'a> {
    words: &'a [u64; 8],
    next: usize,
}

impl<'a> View for OffsetIter<'a> {
    type V = Seq<int>;

    /// The bits still to come; each stands for the offset one above it.
    closed spec fn view(&self) -> Seq<int> {
        members(self.words@, self.next as int)
    }
}

impl<'a> OffsetIter<'a> {
    #[verifier::type_invariant]
    closed spec fn inv(self) -> bool {
        self.next <= 512
    }

    /// Yields the next offset.
    pub fn next(&mut self) -> (offset: Option<u16>)
        ensures
            if old(self)@.len() == 0 {
                offset is None && final(self)@ == old(self)@
            } else {
                offset matches Some(number) && number == old(self)@[0] + 1 && final(self)@ == old(self)@.drop_first()
            },
    {
        proof {
            use_type_invariant(&*self);
        }
        match mask_next(self.words, self.next) {
            None => None,
            Some(index) => {
                self.next = index + 1;
                assert(self@ =~= old(self)@.drop_first());
                Some((index + 1) as u16)
            },
        }
    }
}

proof fn sparse_code_at(list: Seq<int>, index: int)
    requires
        0 <= index < list.len(),
    ensures
        sparse_code(list).len() == 2 * list.len(),
        sparse_code(list).subrange(2 * index, 2 * index + 2) == u16_bytes((list[index] + 1) as u16),
    decreases list.len(),
{
    sparse_len(list);
    sparse_len(list.drop_last());
    let code = sparse_code(list);
    if index < list.len() - 1 {
        sparse_code_at(list.drop_last(), index);
        assert(code.subrange(2 * index, 2 * index + 2) =~= sparse_code(list.drop_last()).subrange(
            2 * index,
            2 * index + 2,
        ));
    } else {
        assert(code.subrange(2 * index, 2 * index + 2) =~= u16_bytes((list[index] + 1) as u16));
    }
}

proof fn sparse_decodes(bytes: Seq<u8>, list: Seq<int>, index: int, domain: u16)
    requires
        0 <= index <= list.len(),
        domain <= 512,
        bytes.len() == 6 + 2 * list.len(),
        bytes.len() <= usize::MAX,
        bytes.subrange(6, bytes.len() as int) == sparse_code(list),
        forall|i: int| 0 <= i < list.len() ==> 0 <= #[trigger] list[i] < domain,
        forall|i: int, j: int| 0 <= i < j < list.len() ==> list[i] < list[j],
    ensures
        sparse_at(
            bytes,
            6 + 2 * index,
            (list.len() - index) as nat,
            (if index == 0 {
                0
            } else {
                list[index - 1] + 1
            }) as u16,
            domain,
        ) == Ok::<(Set<int>, int), Error>((list.skip(index).to_set(), bytes.len() as int)),
    decreases list.len() - index,
{
    if index == list.len() {
        assert(list.skip(index).to_set() =~= Set::empty());
    } else {
        let at = 6 + 2 * index;
        sparse_code_at(list, index);
        assert(bytes.subrange(at, at + 2) =~= bytes.subrange(6, bytes.len() as int).subrange(
            2 * index,
            2 * index + 2,
        ));
        assert(0 <= list[index] < domain);
        le_u16_of_bytes(bytes, at, (list[index] + 1) as u16);
        sparse_decodes(bytes, list, index + 1, domain);
        if index > 0 {
            assert(list[index - 1] < list[index]);
            assert(0 <= list[index - 1]);
        }
        let rest = list.skip(index + 1);
        assert(list.skip(index) =~= seq![list[index]] + rest);
        assert(list.skip(index).to_set() =~= rest.to_set().insert(list[index])) by {
            assert forall|i: int| list.skip(index).to_set().contains(i) == rest.to_set().insert(
                list[index],
            ).contains(i) by {
                if list.skip(index).contains(i) {
                    let k = choose|k: int| 0 <= k < list.skip(index).len() && list.skip(index)[k] == i;
                    if k > 0 {
                        assert(rest[k - 1] == i);
                    }
                }
                if rest.contains(i) {
                    let k = choose|k: int| 0 <= k < rest.len() && rest[k] == i;
                    assert(list.skip(index)[k + 1] == i);
                }
                assert(list.skip(index)[0] == list[index]);
            }
        }
    }
}

proof fn runs_head(words: Seq<u64>, from: int)
    requires
        0 <= from < 64 * words.len(),
        member(words, from),
    ensures
        from < run_end(words, from) <= 64 * words.len(),
        runs(words, from) == seq![(from, run_end(words, from))] + runs(
            words,
            run_end(words, from),
        ),
        runs(words, from).len() == 1 + runs(words, run_end(words, from)).len(),
        runs(words, from)[0] == (from, run_end(words, from)),
        forall|k: int|
            0 < k < runs(words, from).len() ==> (#[trigger] runs(words, from)[k]) == runs(
                words,
                run_end(words, from),
            )[k - 1],
        run_end(words, from) < 64 * words.len() ==> runs(words, run_end(words, from)) == runs(
            words,
            run_end(words, from) + 1,
        ),
        member(words, run_end(words, from) - 1),
{
    run_members(words, from);
    run_end_after(words, from + 1);
}

proof fn runs_bounds(words: Seq<u64>, from: int)
    requires
        0 <= from <= 64 * words.len(),
    ensures
        forall|k: int|
            0 <= k < runs(words, from).len() ==> from <= (#[trigger] runs(words, from)[k]).0
                < runs(words, from)[k].1 <= 64 * words.len() && member(
                words,
                runs(words, from)[k].1 - 1,
            ),
    decreases 64 * words.len() - from,
{
    if from < 64 * words.len() {
        if !member(words, from) {
            runs_bounds(words, from + 1);
            assert(runs(words, from) == runs(words, from + 1));
        } else {
            runs_head(words, from);
            let list = runs(words, from);
            let rest = runs(words, run_end(words, from));
            runs_bounds(words, run_end(words, from));
            assert forall|k: int| 0 <= k < list.len() implies from <= (#[trigger] list[k]).0
                < list[k].1 <= 64 * words.len() && member(words, list[k].1 - 1) by {
                if k > 0 {
                    assert(list[k] == rest[k - 1]);
                }
            }
        }
    }
}

proof fn runs_apart(words: Seq<u64>, from: int)
    requires
        0 <= from <= 64 * words.len(),
    ensures
        forall|k: int|
            0 < k < runs(words, from).len() ==> runs(words, from)[k - 1].1 < (#[trigger] runs(
                words,
                from,
            )[k]).0,
    decreases 64 * words.len() - from,
{
    if from < 64 * words.len() {
        if !member(words, from) {
            runs_apart(words, from + 1);
            assert(runs(words, from) == runs(words, from + 1));
        } else {
            runs_head(words, from);
            let end = run_end(words, from);
            runs_apart(words, end);
            if end < 64 * words.len() {
                runs_bounds(words, end + 1);
            }
            let list = runs(words, from);
            let rest = runs(words, end);
            assert forall|k: int| 0 < k < list.len() implies list[k - 1].1 < (
            #[trigger] list[k]).0 by {
                assert(list[k] == rest[k - 1]);
                if k > 1 {
                    assert(list[k - 1] == rest[k - 2]);
                    assert(rest[(k - 1) - 1].1 < rest[k - 1].0);
                } else {
                    assert(rest[0].0 >= end + 1);
                }
            }
        }
    }
}

proof fn runs_counted(words: Seq<u64>, from: int)
    requires
        0 <= from <= 64 * words.len(),
    ensures
        count_below(words, from) + runs(words, from).len() <= count(words),
    decreases 64 * words.len() - from,
{
    if from < 64 * words.len() {
        if !member(words, from) {
            runs_counted(words, from + 1);
            assert(count_below(words, from + 1) == count_below(words, from));
        } else {
            runs_head(words, from);
            runs_counted(words, run_end(words, from));
            count_grows(words, from, run_end(words, from));
        }
    }
}

/// The members that runs from `index` on cover.
pub open spec fn runs_set(list: Seq<(int, int)>, index: int) -> Set<int>
    decreases list.len() - index,
{
    if index >= list.len() {
        Set::empty()
    } else {
        runs_set(list, index + 1).union(range_set(list[index].0, list[index].1))
    }
}

proof fn runs_code_at(list: Seq<(int, int)>, index: int)
    requires
        0 <= index < list.len(),
    ensures
        runs_code(list).len() == 4 * list.len(),
        runs_code(list).subrange(4 * index, 4 * index + 2) == u16_bytes(
            (list[index].0 + 1) as u16,
        ),
        runs_code(list).subrange(4 * index + 2, 4 * index + 4) == u16_bytes(
            (list[index].1 - list[index].0) as u16,
        ),
    decreases list.len(),
{
    runs_len(list);
    runs_len(list.drop_last());
    let code = runs_code(list);
    let short = runs_code(list.drop_last());
    if index < list.len() - 1 {
        runs_code_at(list.drop_last(), index);
        assert(code.subrange(4 * index, 4 * index + 2) =~= short.subrange(
            4 * index,
            4 * index + 2,
        ));
        assert(code.subrange(4 * index + 2, 4 * index + 4) =~= short.subrange(
            4 * index + 2,
            4 * index + 4,
        ));
    } else {
        assert(code.subrange(4 * index, 4 * index + 2) =~= u16_bytes((list[index].0 + 1) as u16));
        assert(code.subrange(4 * index + 2, 4 * index + 4) =~= u16_bytes(
            (list[index].1 - list[index].0) as u16,
        ));
    }
}

proof fn runs_decode(bytes: Seq<u8>, list: Seq<(int, int)>, index: int, domain: u16)
    requires
        0 <= index <= list.len(),
        domain <= 512,
        bytes.len() == 8 + 4 * list.len(),
        bytes.len() <= usize::MAX,
        bytes.subrange(8, bytes.len() as int) == runs_code(list),
        forall|k: int|
            0 <= k < list.len() ==> 0 <= (#[trigger] list[k]).0 < list[k].1 <= domain,
        forall|k: int| 0 < k < list.len() ==> list[k - 1].1 < (#[trigger] list[k]).0,
    ensures
        runs_at(
            bytes,
            8 + 4 * index,
            (list.len() - index) as nat,
            (if index == 0 {
                0
            } else {
                list[index - 1].1
            }) as u16,
            domain,
        ) == Ok::<(Set<int>, int), Error>((runs_set(list, index), bytes.len() as int)),
    decreases list.len() - index,
{
    if index < list.len() {
        let at = 8 + 4 * index;
        runs_code_at(list, index);
        let code = bytes.subrange(8, bytes.len() as int);
        assert(bytes.subrange(at, at + 2) =~= code.subrange(4 * index, 4 * index + 2));
        assert(bytes.subrange(at + 2, at + 4) =~= code.subrange(4 * index + 2, 4 * index + 4));
        assert(0 <= list[index].0 < list[index].1 <= domain);
        le_u16_of_bytes(bytes, at, (list[index].0 + 1) as u16);
        le_u16_of_bytes(bytes, at + 2, (list[index].1 - list[index].0) as u16);
        if index > 0 {
            assert(list[index - 1].1 < list[index].0);
            assert(0 <= list[index - 1].0 < list[index - 1].1);
        }
        runs_decode(bytes, list, index + 1, domain);
    }
}

proof fn runs_cover(words: Seq<u64>, from: int, list: Seq<(int, int)>, index: int)
    requires
        words.len() == 8,
        0 <= from <= 512,
        0 <= index <= list.len(),
        list.skip(index) == runs(words, from),
    ensures
        forall|i: int|
            #[trigger] runs_set(list, index).contains(i) <==> (from <= i && member(words, i)),
    decreases 512 - from,
{
    if from >= 512 {
        assert(list.skip(index).len() == 0);
        assert(runs_set(list, index) == Set::<int>::empty());
        assert(forall|i: int| member(words, i) ==> i < 512);
    } else if !member(words, from) {
        runs_cover(words, from + 1, list, index);
    } else {
        let end = run_end(words, from);
        run_members(words, from);
        runs_head(words, from);
        assert(index < list.len());
        assert(list.skip(index)[0] == list[index]);
        assert(list.skip(index).drop_first() =~= list.skip(index + 1));
        assert((seq![(from, end)] + runs(words, end)).drop_first() =~= runs(words, end));
        runs_cover(words, end, list, index + 1);
        assert(list[index] == (from, end));
        let later = runs_set(list, index + 1);
        let range = range_set(from, end);
        assert(runs_set(list, index) == later.union(range));
        assert forall|i: int| #[trigger] runs_set(list, index).contains(i) <==> (from <= i
            && member(words, i)) by {
            assert(later.contains(i) <==> (end <= i && member(words, i)));
            assert(range.contains(i) <==> (0 <= i < 512 && from <= i < end));
            if from <= i < end {
                assert(member(words, i));
            }
        }
    }
}

/// Every form of a set reads back as that set.
pub proof fn offsets_round_trip(model: OffsetModel, encoding: Encoding, layout: HeapLayout)
    requires
        model.wf(),
        layout.max_offset() == model.domain,
    ensures
        parsed(model.code(encoding), layout) == Ok::<Set<int>, Error>(member_set(model.words)),
{
    let bytes = model.code(encoding);
    let words = model.words;
    let domain = model.domain;
    let tag: u8 = match encoding {
        Encoding::Sparse => 0,
        Encoding::Bitmap => 1,
        Encoding::Runs => 2,
    };
    code_len(model, encoding);
    member_set_count(words, 512);
    member_set_count(words, domain as int);
    assert(member_set(words) =~= Set::new(|i: int| 0 <= i < 512).filter(|i: int| member(words, i)));
    assert(member_set(words) =~= Set::new(|i: int| 0 <= i < domain).filter(
        |i: int| member(words, i),
    ));
    count_grows(words, 0, domain as int);
    assert(count(words) <= domain);
    assert(bytes.subrange(0, 2) =~= u16_bytes(domain));
    assert(bytes.subrange(2, 4) =~= u16_bytes(count(words) as u16));
    le_u16_of_bytes(bytes, 0, domain);
    le_u16_of_bytes(bytes, 2, count(words) as u16);
    assert(bytes[4] == tag && bytes[5] == 0);
    match encoding {
        Encoding::Sparse => {
            let list = members(words, 0);
            members_range(words, 0);
            count_members(words, 0);
            sparse_len(list);
            assert(bytes.subrange(6, bytes.len() as int) =~= sparse_code(list));
            assert forall|i: int| 0 <= i < list.len() implies 0 <= #[trigger] list[i] < domain by {
                assert(member(words, list[i]));
            }
            sparse_decodes(bytes, list, 0, domain);
            assert(list.skip(0) =~= list);
            assert(list.to_set() =~= member_set(words)) by {
                assert forall|i: int| list.to_set().contains(i) == member_set(words).contains(i) by {
                    if list.contains(i) {
                        let k = choose|k: int| 0 <= k < list.len() && list[k] == i;
                        assert(member(words, list[k]));
                    }
                    if member(words, i) {
                        assert(list.contains(i));
                    }
                }
            }
        },
        Encoding::Bitmap => {
            let len = (domain + 7) / 8;
            let body = bytes.subrange(6, 6 + len);
            assert(body =~= mask_bytes(words, len));
            assert(byte_set(body) =~= member_set(words)) by {
                assert forall|i: int| byte_set(body).contains(i) == member_set(words).contains(i) by {
                    if 0 <= i < 8 * len {
                        mask_bytes_bits(words, len, i);
                    } else if member(words, i) {
                        assert(i < domain);
                    }
                }
            }
            if domain % 8 != 0 {
                let tail = (domain % 8) as u8;
                assert forall|j: int| tail <= j < 8 implies !#[trigger] crate::mask::byte_bit(
                    body.last(),
                    j,
                ) by {
                    let i = 8 * (len - 1) + j;
                    mask_bytes_bits(words, len, i);
                    assert(i / 8 == len - 1 && i % 8 == j);
                    if member(words, i) {
                        assert(i < domain);
                    }
                }
                tail_clear(body.last(), tail);
            }
        },
        Encoding::Runs => {
            let list = runs(words, 0);
            runs_bounds(words, 0);
            runs_apart(words, 0);
            runs_counted(words, 0);
            runs_len(list);
            assert(bytes.subrange(6, 8) =~= u16_bytes(list.len() as u16));
            le_u16_of_bytes(bytes, 6, list.len() as u16);
            assert(bytes.subrange(8, bytes.len() as int) =~= runs_code(list));
            assert forall|k: int| 0 <= k < list.len() implies 0 <= (#[trigger] list[k]).0
                < list[k].1 <= domain by {
                assert(member(words, list[k].1 - 1));
            }
            runs_decode(bytes, list, 0, domain);
            assert(list.skip(0) =~= list);
            runs_cover(words, 0, list, 0);
            assert(runs_set(list, 0) =~= member_set(words));
        },
    }
}

} // verus!
