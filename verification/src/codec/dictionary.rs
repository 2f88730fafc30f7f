//! Borrowed sorted terms with constant-time offset access and logarithmic lookup.
//! Term numbers are dictionary-local; profile identity does not prove normalization.

use super::bytes::{
    extent, get_u32, group_bytes, le_u32, le_u32_of_bytes, splice, u32_bytes, Reader, Writer,
};
use super::records::{
    envelope, envelope_header, opened, opened_of_envelope, payload, start, start_error,
    HEADER_BYTES,
};
use super::{fail, Error, ErrorKind, Result};
use crate::query::starts_with;
use crate::text::{
    bytes_precede, bytes_start_with, precedes, precedes_total, precedes_transitive, prefix_between,
    same_bytes, text_bytes, utf8,
};
use core::ops::Range;
use vstd::prelude::*;
use vstd::utf8::valid_utf8;

verus! {

broadcast use group_bytes;

/// What a dictionary may hold.
#[derive(Clone, Copy, Debug)]
pub struct DictionaryLimits {
    pub max_bytes: usize,
    pub max_terms: u32,
    pub max_term_bytes: usize,
}

/// The number of a term in its dictionary.
#[derive(Clone, Copy, Debug, Eq, Ord, PartialEq, PartialOrd, Structural)]
pub struct TermId(pub u32);

/// A profile and its terms, by increasing bytes.
#[verifier::ext_equal]
pub struct DictionaryModel {
    pub profile: u32,
    pub terms: Seq<Seq<u8>>,
}

/// The bytes between two entries of the offset table.
pub open spec fn term_at(offsets: Seq<u8>, terms: Seq<u8>, index: int) -> Result<Seq<u8>> {
    let start = le_u32(offsets, 4 * index);
    let end = le_u32(offsets, 4 * (index + 1));
    if start > end || end > terms.len() {
        fail(8, ErrorKind::InvalidValue)
    } else if !valid_utf8(terms.subrange(start as int, end as int)) {
        fail(start as int, ErrorKind::InvalidUtf8)
    } else {
        Ok(terms.subrange(start as int, end as int))
    }
}

/// What is wrong with the terms from `index` on, if anything is.
pub open spec fn terms_error(
    offsets: Seq<u8>,
    terms: Seq<u8>,
    count: int,
    index: int,
    previous: Seq<u8>,
    max_term_bytes: usize,
) -> Option<Error>
    decreases count - index,
{
    if index >= count {
        None
    } else {
        match term_at(offsets, terms, index) {
            Err(error) => Some(error),
            Ok(term) => if term.len() == 0 || term.len() > max_term_bytes {
                Some(Error { offset: 8, kind: ErrorKind::LimitExceeded })
            } else if !precedes(previous, term) {
                Some(Error { offset: 8, kind: ErrorKind::InvalidOrder })
            } else {
                terms_error(offsets, terms, count, index + 1, term, max_term_bytes)
            },
        }
    }
}

/// The dictionary that a payload holds.
pub open spec fn dictionary_of_payload(bytes: Seq<u8>, limits: DictionaryLimits) -> Result<
    DictionaryModel,
> {
    if bytes.len() < 4 {
        fail(0, ErrorKind::Truncated)
    } else if le_u32(bytes, 0) == 0 {
        fail(0, ErrorKind::InvalidValue)
    } else if bytes.len() < 8 {
        fail(4, ErrorKind::Truncated)
    } else {
        let count = le_u32(bytes, 4);
        if count > limits.max_terms {
            fail(4, ErrorKind::LimitExceeded)
        } else if (count + 1) * 4 > usize::MAX {
            fail(8, ErrorKind::Overflow)
        } else {
            match extent(bytes, 8, (count + 1) * 4) {
                Err(error) => Err(error),
                Ok(offsets) => {
                    let terms = bytes.subrange(8 + (count + 1) * 4, bytes.len() as int);
                    if le_u32(offsets, 0) != 0 || le_u32(offsets, 4 * count) != terms.len() {
                        fail(8, ErrorKind::InvalidValue)
                    } else {
                        match terms_error(
                            offsets,
                            terms,
                            count as int,
                            0,
                            Seq::empty(),
                            limits.max_term_bytes,
                        ) {
                            Some(error) => Err(error),
                            None => Ok(
                                DictionaryModel {
                                    profile: le_u32(bytes, 0),
                                    terms: Seq::new(
                                        count as nat,
                                        |i: int| term_at(offsets, terms, i)->Ok_0,
                                    ),
                                },
                            ),
                        }
                    }
                },
            }
        }
    }
}

/// The dictionary that `bytes` hold.
pub open spec fn parsed_dictionary(bytes: Seq<u8>, limits: DictionaryLimits) -> Result<
    DictionaryModel,
> {
    match opened(bytes, 3, limits.max_bytes) {
        Err(error) => Err(error),
        Ok(payload) => dictionary_of_payload(payload, limits),
    }
}

/// Whether each term precedes all later ones.
pub open spec fn strictly_ordered(terms: Seq<Seq<u8>>) -> bool {
    forall|i: int, j: int|
        0 <= i < j < terms.len() ==> precedes(#[trigger] terms[i], #[trigger] terms[j])
}

proof fn terms_ok(
    offsets: Seq<u8>,
    terms: Seq<u8>,
    count: int,
    index: int,
    previous: Seq<u8>,
    max_term_bytes: usize,
)
    requires
        0 <= index,
        terms_error(offsets, terms, count, index, previous, max_term_bytes) is None,
    ensures
        forall|i: int| index <= i < count ==> (#[trigger] term_at(offsets, terms, i)) is Ok,
        forall|i: int|
            index <= i < count ==> precedes(
                previous,
                (#[trigger] term_at(offsets, terms, i))->Ok_0,
            ),
        forall|i: int, j: int|
            index <= i < j < count ==> precedes(
                (#[trigger] term_at(offsets, terms, i))->Ok_0,
                (#[trigger] term_at(offsets, terms, j))->Ok_0,
            ),
    decreases count - index,
{
    if index < count {
        let term = term_at(offsets, terms, index)->Ok_0;
        terms_ok(offsets, terms, count, index + 1, term, max_term_bytes);
        assert forall|i: int| index <= i < count implies precedes(
            previous,
            (#[trigger] term_at(offsets, terms, i))->Ok_0,
        ) by {
            if i > index {
                precedes_transitive(previous, term, term_at(offsets, terms, i)->Ok_0);
            }
        }
    }
}

/// Checked terms, borrowed from their encoding.
#[derive(Clone, Copy, Debug)]
pub struct Dictionary<'a> {
    profile: u32,
    offsets: &'a [u8],
    terms: &'a [u8],
    count: u32,
}

impl<'a> View for Dictionary<'a> {
    type V = DictionaryModel;

    closed spec fn view(&self) -> DictionaryModel {
        DictionaryModel {
            profile: self.profile,
            terms: Seq::new(
                self.count as nat,
                |i: int| term_at(self.offsets@, self.terms@, i)->Ok_0,
            ),
        }
    }
}

/// Reads a term through the offset table.
fn read_term<'a>(offsets: &[u8], terms: &'a [u8], index: usize) -> (result: Result<&'a str>)
    requires
        4 * (index + 2) <= offsets@.len(),
    ensures
        match term_at(offsets@, terms@, index as int) {
            Ok(bytes) => result matches Ok(text) && text_bytes(text) == bytes,
            Err(error) => result == Err::<&'a str, Error>(error),
        },
{
    let room: usize = offsets.len();
    assert(4 * (index + 2) <= room);
    let start: usize = get_u32(offsets, 4 * index) as usize;
    let end: usize = get_u32(offsets, 4 * (index + 1)) as usize;
    if start > end || end > terms.len() {
        return Err(Error::new(8, ErrorKind::InvalidValue));
    }
    match utf8(&terms[start..end]) {
        Some(text) => Ok(text),
        None => Err(Error::new(start, ErrorKind::InvalidUtf8)),
    }
}

impl<'a> Dictionary<'a> {
    #[verifier::type_invariant]
    closed spec fn inv(self) -> bool {
        &&& self.offsets@.len() == (self.count + 1) * 4
        &&& forall|i: int|
            0 <= i < self.count ==> (#[trigger] term_at(self.offsets@, self.terms@, i)) is Ok
        &&& strictly_ordered(self@.terms)
    }

    /// Validates every offset, term, ordering relation and trailing byte before use.
    #[verifier::loop_isolation(false)]
    pub fn parse(bytes: &'a [u8], limits: DictionaryLimits) -> (result: Result<Self>)
        ensures
            match parsed_dictionary(bytes@, limits) {
                Ok(model) => result matches Ok(dictionary) && dictionary@ == model
                    && strictly_ordered(model.terms),
                Err(error) => result == Err::<Self, _>(error),
            },
    {
        let body: &'a [u8] = payload(bytes, 3, limits.max_bytes)?;
        let mut reader: Reader<'a> = Reader::new(body);
        let profile: u32 = reader.u32()?;
        if profile == 0 {
            return Err(Error::new(0, ErrorKind::InvalidValue));
        }
        let count: u32 = reader.u32()?;
        if count > limits.max_terms {
            return Err(Error::new(4, ErrorKind::LimitExceeded));
        }
        if count as u64 + 1 > (usize::MAX / 4) as u64 {
            return Err(Error::new(8, ErrorKind::Overflow));
        }
        let offset_bytes: usize = (count as usize + 1) * 4;
        let offsets: &'a [u8] = reader.take(offset_bytes)?;
        let length: usize = reader.remaining();
        let terms: &'a [u8] = reader.take(length)?;
        if get_u32(offsets, 0) != 0 || get_u32(offsets, 4 * count as usize) as usize != terms.len() {
            return Err(Error::new(8, ErrorKind::InvalidValue));
        }
        let mut previous: &[u8] = &[];
        assert(previous@ =~= Seq::<u8>::empty());
        let mut index: u32 = 0;
        while index < count
            invariant
                index <= count,
                terms_error(
                    offsets@,
                    terms@,
                    count as int,
                    0,
                    Seq::empty(),
                    limits.max_term_bytes,
                ) == terms_error(
                    offsets@,
                    terms@,
                    count as int,
                    index as int,
                    previous@,
                    limits.max_term_bytes,
                ),
            decreases count - index,
        {
            let text: &'a str = read_term(offsets, terms, index as usize)?;
            let term: &'a [u8] = text.as_bytes();
            if term.len() == 0 || term.len() > limits.max_term_bytes {
                return Err(Error::new(8, ErrorKind::LimitExceeded));
            }
            if !bytes_precede(previous, term) {
                return Err(Error::new(8, ErrorKind::InvalidOrder));
            }
            previous = term;
            index += 1;
        }
        proof {
            terms_ok(offsets@, terms@, count as int, 0, Seq::empty(), limits.max_term_bytes);
        }
        let dictionary: Dictionary<'a> = Dictionary { profile, offsets, terms, count };
        assert(dictionary@ =~= parsed_dictionary(bytes@, limits)->Ok_0);
        Ok(dictionary)
    }

    pub fn profile(self) -> (profile: u32)
        ensures
            profile == self@.profile,
    {
        self.profile
    }

    pub fn len(self) -> (len: u32)
        ensures
            len == self@.terms.len(),
    {
        self.count
    }

    pub fn is_empty(self) -> (empty: bool)
        ensures
            empty == (self@.terms.len() == 0),
    {
        self.count == 0
    }

    pub fn term(self, id: TermId) -> (result: Result<&'a str>)
        ensures
            if id.0 < self@.terms.len() {
                result matches Ok(text) && text_bytes(text) == self@.terms[id.0 as int]
            } else {
                result matches Err(error) && error == (Error {
                    offset: 8,
                    kind: ErrorKind::InvalidValue,
                })
            },
            strictly_ordered(self@.terms),
    {
        proof {
            use_type_invariant(&self);
        }
        if id.0 >= self.count {
            return Err(Error::new(8, ErrorKind::InvalidValue));
        }
        assert(term_at(self.offsets@, self.terms@, id.0 as int) is Ok);
        read_term(self.offsets, self.terms, id.0 as usize)
    }

    /// The first term that does not precede the text.
    fn lower_bound(self, term: &str) -> (result: Result<u32>)
        ensures
            strictly_ordered(self@.terms),
            result matches Ok(bound) && bound <= self@.terms.len() && (forall|i: int|
                0 <= i < self@.terms.len() ==> (i < bound <==> precedes(
                    #[trigger] self@.terms[i],
                    text_bytes(term),
                ))),
    {
        let mut low: u32 = 0;
        let mut high: u32 = self.len();
        let ghost terms = self@.terms;
        let ghost wanted = text_bytes(term);
        proof {
            use_type_invariant(&self);
        }
        while low < high
            invariant
                terms == self@.terms,
                wanted == text_bytes(term),
                strictly_ordered(terms),
                low <= high <= terms.len(),
                forall|i: int| 0 <= i < low ==> precedes(#[trigger] terms[i], wanted),
                forall|i: int| high <= i < terms.len() ==> !precedes(#[trigger] terms[i], wanted),
            decreases high - low,
        {
            let middle: u32 = low + (high - low) / 2;
            let text: &str = self.term(TermId(middle))?;
            if bytes_precede(text.as_bytes(), term.as_bytes()) {
                proof {
                    assert forall|i: int| 0 <= i <= middle implies precedes(
                        #[trigger] terms[i],
                        wanted,
                    ) by {
                        if i < middle {
                            precedes_transitive(terms[i], terms[middle as int], wanted);
                        }
                    }
                }
                low = middle + 1;
            } else {
                proof {
                    assert forall|i: int| middle <= i < terms.len() implies !precedes(
                        #[trigger] terms[i],
                        wanted,
                    ) by {
                        if i > middle && precedes(terms[i], wanted) {
                            precedes_transitive(terms[middle as int], terms[i], wanted);
                        }
                    }
                }
                high = middle;
            }
        }
        Ok(low)
    }

    /// The number of a term, if the dictionary holds it.
    pub fn lookup(self, term: &str) -> (result: Result<Option<TermId>>)
        ensures
            match result {
                Ok(Some(id)) => id.0 < self@.terms.len() && self@.terms[id.0 as int] == text_bytes(
                    term,
                ),
                Ok(None) => !self@.terms.contains(text_bytes(term)),
                Err(_) => false,
            },
    {
        let index: u32 = self.lower_bound(term)?;
        let ghost terms = self@.terms;
        let ghost wanted = text_bytes(term);
        if index < self.len() {
            let text: &str = self.term(TermId(index))?;
            if same_bytes(text.as_bytes(), term.as_bytes()) {
                return Ok(Some(TermId(index)));
            }
        }
        proof {
            assert forall|i: int| 0 <= i < terms.len() implies #[trigger] terms[i] != wanted by {
                precedes_total(terms[i], wanted);
                if i > index {
                    assert(precedes(terms[index as int], terms[i]));
                    assert(!precedes(terms[index as int], wanted));
                }
            }
        }
        Ok(None)
    }

    /// Locates the complete interval of terms with a prefix, without expanding
    /// terms or constructing a successor key.
    pub fn prefix(self, prefix: &str, max_expanded: u32) -> (result: Result<Range<u32>>)
        ensures
            match result {
                Ok(range) => {
                    &&& range.start <= range.end <= self@.terms.len()
                    &&& range.end - range.start <= max_expanded
                    &&& forall|i: int|
                        0 <= i < self@.terms.len() ==> (range.start <= i < range.end
                            <==> starts_with(#[trigger] self@.terms[i], text_bytes(prefix)))
                },
                Err(error) => {
                    &&& error == (Error { offset: 0, kind: ErrorKind::LimitExceeded })
                    &&& exists|begin: int, end: int|
                        #![trigger self@.terms.subrange(begin, end)]
                        0 <= begin && begin + max_expanded < end && end <= self@.terms.len()
                            && forall|i: int|
                            begin <= i < end ==> starts_with(
                                #[trigger] self@.terms[i],
                                text_bytes(prefix),
                            )
                },
            },
    {
        let begin: u32 = self.lower_bound(prefix)?;
        let mut low: u32 = begin;
        let mut high: u32 = self.len();
        let ghost terms = self@.terms;
        let ghost wanted = text_bytes(prefix);
        while low < high
            invariant
                terms == self@.terms,
                wanted == text_bytes(prefix),
                strictly_ordered(terms),
                begin <= low <= high <= terms.len(),
                forall|i: int|
                    0 <= i < terms.len() ==> (i < begin <==> precedes(#[trigger] terms[i], wanted)),
                forall|i: int| begin <= i < low ==> starts_with(#[trigger] terms[i], wanted),
                forall|i: int|
                    high <= i < terms.len() ==> !starts_with(#[trigger] terms[i], wanted),
            decreases high - low,
        {
            let middle: u32 = low + (high - low) / 2;
            let text: &str = self.term(TermId(middle))?;
            if bytes_start_with(text.as_bytes(), prefix.as_bytes()) {
                proof {
                    assert forall|i: int| begin <= i <= middle implies starts_with(
                        #[trigger] terms[i],
                        wanted,
                    ) by {
                        prefix_between(wanted, terms[i], terms[middle as int]);
                        precedes_total(terms[i], terms[middle as int]);
                        if i < middle {
                            assert(precedes(terms[i], terms[middle as int]));
                        }
                    }
                }
                low = middle + 1;
            } else {
                proof {
                    assert forall|i: int| middle <= i < terms.len() implies !starts_with(
                        #[trigger] terms[i],
                        wanted,
                    ) by {
                        if starts_with(terms[i], wanted) && i > middle {
                            prefix_between(wanted, terms[middle as int], terms[i]);
                            precedes_total(terms[middle as int], terms[i]);
                            assert(precedes(terms[middle as int], terms[i]));
                        }
                    }
                }
                high = middle;
            }
        }
        proof {
            assert forall|i: int| 0 <= i < begin implies !starts_with(
                #[trigger] terms[i],
                wanted,
            ) by {
                if starts_with(terms[i], wanted) {
                    prefix_between(wanted, wanted, terms[i]);
                }
            }
        }
        if low - begin > max_expanded {
            assert(self@.terms.subrange(begin as int, low as int).len() == low - begin);
            return Err(Error::new(0, ErrorKind::LimitExceeded));
        }
        Ok(begin..low)
    }
}

/// The terms one behind the other.
pub open spec fn joined(terms: Seq<Seq<u8>>) -> Seq<u8>
    decreases terms.len(),
{
    if terms.len() == 0 {
        Seq::empty()
    } else {
        joined(terms.drop_last()) + terms.last()
    }
}

/// Where each of the terms starts when they stand one behind the other, and
/// where the last one ends.
pub open spec fn offset_table(terms: Seq<Seq<u8>>) -> Seq<u8>
    decreases terms.len(),
{
    if terms.len() == 0 {
        u32_bytes(0)
    } else {
        offset_table(terms.drop_last()) + u32_bytes(joined(terms).len() as u32)
    }
}

/// The payload of a dictionary.
pub open spec fn dictionary_payload(model: DictionaryModel) -> Seq<u8> {
    u32_bytes(model.profile) + u32_bytes(model.terms.len() as u32) + offset_table(model.terms)
        + joined(model.terms)
}

/// Why terms from `index` on cannot be encoded, if they cannot.
pub open spec fn terms_fault(
    terms: Seq<Seq<u8>>,
    index: int,
    previous: Seq<u8>,
    max_term_bytes: usize,
) -> Option<Error>
    decreases terms.len() - index,
{
    if index >= terms.len() {
        None
    } else if terms[index].len() == 0 || terms[index].len() > max_term_bytes {
        Some(Error { offset: 0, kind: ErrorKind::LimitExceeded })
    } else if !precedes(previous, terms[index]) {
        Some(Error { offset: 0, kind: ErrorKind::InvalidOrder })
    } else if joined(terms.take(index + 1)).len() > usize::MAX {
        Some(Error { offset: 0, kind: ErrorKind::Overflow })
    } else {
        terms_fault(terms, index + 1, terms[index], max_term_bytes)
    }
}

/// The length of a dictionary's payload.
pub open spec fn payload_len(terms: Seq<Seq<u8>>) -> int {
    (terms.len() + 1) * 4 + 8 + joined(terms).len() as int
}

/// Why a dictionary cannot be encoded, if it cannot.
pub open spec fn dictionary_error(model: DictionaryModel, room: nat, limits: DictionaryLimits) -> Option<
    Error,
> {
    if model.profile == 0 {
        Some(Error { offset: 0, kind: ErrorKind::InvalidValue })
    } else if model.terms.len() > limits.max_terms {
        Some(Error { offset: 4, kind: ErrorKind::LimitExceeded })
    } else if terms_fault(model.terms, 0, Seq::empty(), limits.max_term_bytes) is Some {
        terms_fault(model.terms, 0, Seq::empty(), limits.max_term_bytes)
    } else if joined(model.terms).len() > u32::MAX || payload_len(model.terms) > usize::MAX {
        Some(Error { offset: 0, kind: ErrorKind::Overflow })
    } else if payload_len(model.terms) + 16 > limits.max_bytes {
        Some(Error { offset: 0, kind: ErrorKind::LimitExceeded })
    } else {
        start_error(room, payload_len(model.terms) as nat)
    }
}

/// The bytes of each of a list of texts.
pub open spec fn term_list(terms: Seq<&str>) -> Seq<Seq<u8>> {
    Seq::new(terms.len(), |i: int| text_bytes(terms[i]))
}

/// The joined terms up to some point are no longer than all of them.
proof fn joined_grows(terms: Seq<Seq<u8>>, count: int)
    requires
        0 <= count <= terms.len(),
    ensures
        joined(terms.take(count)).len() <= joined(terms).len(),
    decreases terms.len() - count,
{
    if count < terms.len() {
        joined_grows(terms, count + 1);
        assert(terms.take(count + 1).drop_last() =~= terms.take(count));
    } else {
        assert(terms.take(count) =~= terms);
    }
}

/// Checks terms for encoding; the length of all of them together.
#[verifier::loop_isolation(false)]
fn check_terms(terms: &[&str], max_term_bytes: usize) -> (result: Result<usize>)
    ensures
        match terms_fault(term_list(terms@), 0, Seq::empty(), max_term_bytes) {
            Some(error) => result == Err::<usize, Error>(error),
            None => result matches Ok(length) && length == joined(term_list(terms@)).len(),
        },
{
    let ghost all = term_list(terms@);
    let mut data: usize = 0;
    let mut previous: &[u8] = &[];
    assert(previous@ =~= Seq::<u8>::empty());
    assert(joined(all.take(0)).len() == 0);
    let mut index: usize = 0;
    while index < terms.len()
        invariant
            index <= terms@.len(),
            data == joined(all.take(index as int)).len(),
            terms_fault(all, 0, Seq::empty(), max_term_bytes) == terms_fault(
                all,
                index as int,
                previous@,
                max_term_bytes,
            ),
        decreases terms@.len() - index,
    {
        let term: &[u8] = terms[index].as_bytes();
        assert(term@ == all[index as int]);
        assert(all.take(index + 1).drop_last() =~= all.take(index as int));
        if term.len() == 0 || term.len() > max_term_bytes {
            return Err(Error::new(0, ErrorKind::LimitExceeded));
        }
        if !bytes_precede(previous, term) {
            return Err(Error::new(0, ErrorKind::InvalidOrder));
        }
        match data.checked_add(term.len()) {
            Some(sum) => {
                data = sum;
            },
            None => {
                return Err(Error::new(0, ErrorKind::Overflow));
            },
        }
        previous = term;
        index += 1;
    }
    assert(all.take(index as int) =~= all);
    Ok(data)
}

/// Writes the offset table behind its first entry.
#[verifier::loop_isolation(false)]
fn write_offsets(writer: &mut Writer<'_>, terms: &[&str], lead: Ghost<Seq<u8>>, before: Ghost<
    Seq<u8>,
>)
    requires
        joined(term_list(terms@)).len() <= u32::MAX,
        lead@.len() + 4 * (terms@.len() + 1) <= before@.len(),
        old(writer).offset == lead@.len() + 4,
        old(writer).bytes@ == splice(before@, 0, lead@ + u32_bytes(0)),
    ensures
        offset_table(term_list(terms@)).len() == 4 * (terms@.len() + 1),
        final(writer).offset == lead@.len() + 4 * (terms@.len() + 1),
        final(writer).bytes@ == splice(before@, 0, lead@ + offset_table(term_list(terms@))),
        final(final(writer).bytes)@ == final(old(writer).bytes)@,
{
    let ghost all = term_list(terms@);
    let ghost room = writer.bytes@.len();
    let space: usize = writer.bytes.len();
    assert(offset_table(all.take(0)) == u32_bytes(0));
    assert(joined(all.take(0)).len() == 0);
    let mut offset: u32 = 0;
    let mut index: usize = 0;
    while index < terms.len()
        invariant
            index <= terms@.len(),
            offset == joined(all.take(index as int)).len(),
            offset_table(all.take(index as int)).len() == 4 * (index + 1),
            writer.offset == lead@.len() + 4 * (index + 1),
            writer.bytes@ == splice(before@, 0, lead@ + offset_table(all.take(index as int))),
            final(writer.bytes)@ == final(old(writer).bytes)@,
        decreases terms@.len() - index,
    {
        let term: &[u8] = terms[index].as_bytes();
        let ghost done = lead@ + offset_table(all.take(index as int));
        proof {
            assert(term@ == all[index as int]);
            assert(all.take(index + 1).drop_last() =~= all.take(index as int));
            joined_grows(all, index + 1);
        }
        offset = offset + term.len() as u32;
        let written: Result<()> = writer.u32(offset);
        assert(done + u32_bytes(offset) =~= lead@ + offset_table(all.take(index + 1)));
        index += 1;
    }
    assert(all.take(index as int) =~= all);
}

/// Writes the terms one behind the other.
#[verifier::loop_isolation(false)]
fn write_terms(writer: &mut Writer<'_>, terms: &[&str], lead: Ghost<Seq<u8>>, before: Ghost<
    Seq<u8>,
>)
    requires
        lead@.len() + joined(term_list(terms@)).len() <= before@.len(),
        old(writer).offset == lead@.len(),
        old(writer).bytes@ == splice(before@, 0, lead@),
    ensures
        final(writer).offset == lead@.len() + joined(term_list(terms@)).len(),
        final(writer).bytes@ == splice(before@, 0, lead@ + joined(term_list(terms@))),
        final(final(writer).bytes)@ == final(old(writer).bytes)@,
{
    let ghost all = term_list(terms@);
    let space: usize = writer.bytes.len();
    assert(lead@ + joined(all.take(0)) =~= lead@);
    let mut index: usize = 0;
    while index < terms.len()
        invariant
            index <= terms@.len(),
            writer.offset == lead@.len() + joined(all.take(index as int)).len(),
            writer.bytes@ == splice(before@, 0, lead@ + joined(all.take(index as int))),
            final(writer.bytes)@ == final(old(writer).bytes)@,
        decreases terms@.len() - index,
    {
        let term: &[u8] = terms[index].as_bytes();
        let ghost done = lead@ + joined(all.take(index as int));
        proof {
            assert(term@ == all[index as int]);
            assert(all.take(index + 1).drop_last() =~= all.take(index as int));
            joined_grows(all, index + 1);
        }
        let written: Result<()> = writer.put(term);
        assert(done + term@ =~= lead@ + joined(all.take(index + 1)));
        index += 1;
    }
    assert(all.take(index as int) =~= all);
}

/// Writes a dictionary of strictly increasing terms.
///
/// # Errors
/// Rejects profile zero, terms that are empty, too long or out of order, sizes
/// above the limits and an output without room. The output is then unchanged.
#[verifier::loop_isolation(false)]
pub fn encode(
    profile: u32,
    terms: &[&str],
    output: &mut [u8],
    limits: DictionaryLimits,
) -> (result: Result<usize>)
    ensures
        ({
            let model = DictionaryModel { profile, terms: term_list(terms@) };
            match dictionary_error(model, old(output)@.len(), limits) {
                Some(error) => result == Err::<usize, _>(error) && final(output)@ == old(output)@,
                None => {
                    let code = envelope(3, dictionary_payload(model));
                    &&& code.len() == payload_len(model.terms) + 16
                    &&& result == Ok::<usize, Error>(code.len() as usize)
                    &&& final(output)@ == splice(old(output)@, 0, code)
                },
            }
        }),
{
    let ghost all = term_list(terms@);
    let ghost model = DictionaryModel { profile, terms: all };
    if profile == 0 {
        return Err(Error::new(0, ErrorKind::InvalidValue));
    }
    let total: usize = terms.len();
    if total as u64 > limits.max_terms as u64 {
        return Err(Error::new(4, ErrorKind::LimitExceeded));
    }
    let count: u32 = total as u32;
    let data: usize = check_terms(terms, limits.max_term_bytes)?;
    if data as u64 > u32::MAX as u64 {
        return Err(Error::new(0, ErrorKind::Overflow));
    }
    if total > (usize::MAX - 12) / 4 || data > usize::MAX - 12 - 4 * total {
        return Err(Error::new(0, ErrorKind::Overflow));
    }
    let len: usize = (total + 1) * 4 + 8 + data;
    if len > usize::MAX - HEADER_BYTES || len + HEADER_BYTES > limits.max_bytes {
        return Err(Error::new(0, ErrorKind::LimitExceeded));
    }
    let ghost before = output@;
    let ghost header = envelope_header(3, len as u32);
    let ghost lead = header + u32_bytes(profile) + u32_bytes(count);
    let mut writer: Writer = start(output, 3, len)?;
    let written: Result<()> = writer.u32(profile);
    assert(written is Ok);
    let written: Result<()> = writer.u32(count);
    assert(written is Ok);
    let written: Result<()> = writer.u32(0);
    assert(written is Ok);
    write_offsets(&mut writer, terms, Ghost(lead), Ghost(before));
    write_terms(&mut writer, terms, Ghost(lead + offset_table(all)), Ghost(before));
    assert(lead + offset_table(all) + joined(all) =~= envelope(3, dictionary_payload(model)));
    Ok(writer.len())
}

/// The entries of the offset table are the lengths of what stands before.
proof fn table_at(terms: Seq<Seq<u8>>, index: int)
    requires
        0 <= index <= terms.len(),
    ensures
        offset_table(terms).len() == 4 * (terms.len() + 1),
        offset_table(terms).subrange(4 * index, 4 * index + 4) == u32_bytes(
            joined(terms.take(index)).len() as u32,
        ),
    decreases terms.len(),
{
    if terms.len() == 0 {
        assert(terms.take(index) =~= terms);
        assert(offset_table(terms).subrange(0, 4) =~= u32_bytes(0));
    } else {
        let last = terms.len() as int;
        table_at(terms.drop_last(), if index < last { index } else { 0 });
        if index == last {
            assert(terms.take(index) =~= terms);
            assert(offset_table(terms).subrange(4 * index, 4 * index + 4) =~= u32_bytes(
                joined(terms).len() as u32,
            ));
        } else {
            assert(terms.take(index) =~= terms.drop_last().take(index));
            assert(offset_table(terms).subrange(4 * index, 4 * index + 4) =~= offset_table(
                terms.drop_last(),
            ).subrange(4 * index, 4 * index + 4));
        }
    }
}

/// A term stands between the joined terms before it and those behind it.
proof fn joined_at(terms: Seq<Seq<u8>>, index: int)
    requires
        0 <= index < terms.len(),
    ensures
        joined(terms.take(index)).len() + terms[index].len() == joined(
            terms.take(index + 1),
        ).len(),
        joined(terms.take(index + 1)).len() <= joined(terms).len(),
        joined(terms).subrange(
            joined(terms.take(index)).len() as int,
            joined(terms.take(index + 1)).len() as int,
        ) == terms[index],
    decreases terms.len(),
{
    joined_grows(terms, index + 1);
    assert(terms.take(index + 1).drop_last() =~= terms.take(index));
    let (low, high) = (
        joined(terms.take(index)).len() as int,
        joined(terms.take(index + 1)).len() as int,
    );
    if index == terms.len() - 1 {
        assert(terms.take(index + 1) =~= terms);
        assert(joined(terms).subrange(low, high) =~= terms[index]);
    } else {
        let rest = terms.drop_last();
        joined_at(rest, index);
        assert(rest.take(index) =~= terms.take(index));
        assert(rest.take(index + 1) =~= terms.take(index + 1));
        assert(joined(terms).subrange(low, high) =~= joined(rest).subrange(low, high));
    }
}

proof fn term_at_of_terms(terms: Seq<Seq<u8>>, index: int)
    requires
        0 <= index < terms.len(),
        joined(terms).len() <= u32::MAX,
        valid_utf8(terms[index]),
    ensures
        term_at(offset_table(terms), joined(terms), index) == Ok::<Seq<u8>, Error>(terms[index]),
{
    table_at(terms, index);
    table_at(terms, index + 1);
    joined_at(terms, index);
    le_u32_of_bytes(
        offset_table(terms),
        4 * index,
        joined(terms.take(index)).len() as u32,
    );
    le_u32_of_bytes(
        offset_table(terms),
        4 * (index + 1),
        joined(terms.take(index + 1)).len() as u32,
    );
}

proof fn terms_error_of_terms(
    terms: Seq<Seq<u8>>,
    index: int,
    previous: Seq<u8>,
    max_term_bytes: usize,
)
    requires
        0 <= index <= terms.len(),
        joined(terms).len() <= u32::MAX,
        forall|i: int| 0 <= i < terms.len() ==> valid_utf8(#[trigger] terms[i]),
        terms_fault(terms, index, previous, max_term_bytes) is None,
    ensures
        terms_error(
            offset_table(terms),
            joined(terms),
            terms.len() as int,
            index,
            previous,
            max_term_bytes,
        ) is None,
    decreases terms.len() - index,
{
    if index < terms.len() {
        term_at_of_terms(terms, index);
        terms_error_of_terms(terms, index + 1, terms[index], max_term_bytes);
    }
}

/// A dictionary reads back as it was written.
pub proof fn dictionary_round_trip(model: DictionaryModel, room: nat, limits: DictionaryLimits)
    requires
        forall|i: int| 0 <= i < model.terms.len() ==> valid_utf8(#[trigger] model.terms[i]),
        dictionary_error(model, room, limits) is None,
    ensures
        parsed_dictionary(envelope(3, dictionary_payload(model)), limits) == Ok::<
            DictionaryModel,
            Error,
        >(model),
{
    let terms = model.terms;
    let bytes = dictionary_payload(model);
    let table = offset_table(terms);
    let count = terms.len() as int;
    table_at(terms, 0);
    table_at(terms, count);
    assert(terms.take(0) =~= Seq::empty());
    assert(terms.take(count) =~= terms);
    opened_of_envelope(3, bytes, limits.max_bytes);
    assert(bytes.subrange(0, 4) =~= u32_bytes(model.profile));
    assert(bytes.subrange(4, 8) =~= u32_bytes(count as u32));
    le_u32_of_bytes(bytes, 0, model.profile);
    le_u32_of_bytes(bytes, 4, count as u32);
    assert(bytes.subrange(8, 8 + (count + 1) * 4) =~= table);
    assert(bytes.subrange(8 + (count + 1) * 4, bytes.len() as int) =~= joined(terms));
    le_u32_of_bytes(table, 0, 0);
    le_u32_of_bytes(table, 4 * count, joined(terms).len() as u32);
    terms_error_of_terms(terms, 0, Seq::empty(), limits.max_term_bytes);
    assert forall|i: int| 0 <= i < count implies #[trigger] term_at(table, joined(terms), i)
        == Ok::<Seq<u8>, Error>(terms[i]) by {
        term_at_of_terms(terms, i);
    }
    assert(Seq::new(count as nat, |i: int| term_at(table, joined(terms), i)->Ok_0) =~= terms);
}

} // verus!
