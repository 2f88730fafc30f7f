//! Owned complete-document payloads with exact term frequencies and positions.
//! Disk readers validate UTF-8, ordering, position uniqueness and byte budgets.

use crate::analysis::PROFILE_ID;
use crate::budget::{BudgetError, MemoryBudget};
use crate::codec::bytes::{extent, group_bytes, le_u16, le_u32, Reader};
use crate::codec::positions::{parsed, PositionIter, Positions};
use crate::codec::ErrorKind;
use crate::error::{lift, Error, Result};
use crate::mask::{empty_mask, mask_has, mask_insert, member};
use crate::memory::{out_of_memory, vector};
use crate::mutable::page::model::{broken, cut_short};
use crate::text::{bytes_precede, precedes, same_bytes, text_bytes, utf8};
use vstd::prelude::*;
use vstd::utf8::{encode_utf8, valid_utf8};

verus! {

broadcast use group_bytes;

pub const MAX_TERM_BYTES: usize = 1024;

pub const MAX_DOCUMENT_TOKENS: u32 = 262_144;

pub const MAX_DOCUMENT_BYTES: usize = 0x80_0000;

const HEADER: usize = 16;

/// The four bytes that start a document.
pub open spec fn document_magic() -> Seq<u8> {
    seq![0x50u8, 0x44u8, 0x30u8, 0x32u8]
}

/// One term of a document: its bytes and its encoded positions.
#[verifier::ext_equal]
pub struct TermEntry {
    pub term: Seq<u8>,
    pub positions: Seq<u8>,
}

/// The term at `at`, and where it ends; nothing may follow the last one.
pub open spec fn document_term_at(source: Seq<u8>, at: int, last: bool) -> Result<(TermEntry, int)> {
    let len = le_u16(source, at) as int;
    let size = le_u32(source, at + 4) as int;
    let end = at + 8 + len + size;
    if extent(source, at, 2) is Err {
        Err(Error::Codec(extent(source, at, 2)->Err_0))
    } else if len == 0 || len > MAX_TERM_BYTES {
        Err(Error::InvalidDocument)
    } else if extent(source, at + 2, 2) is Err {
        Err(Error::Codec(extent(source, at + 2, 2)->Err_0))
    } else if le_u16(source, at + 2) != 0 {
        Err(Error::InvalidDocument)
    } else if extent(source, at + 4, 4) is Err {
        Err(Error::Codec(extent(source, at + 4, 4)->Err_0))
    } else if extent(source, at + 8, len) is Err {
        Err(Error::Codec(extent(source, at + 8, len)->Err_0))
    } else if !valid_utf8(source.subrange(at + 8, at + 8 + len)) {
        Err(Error::InvalidDocument)
    } else if extent(source, at + 8 + len, size) is Err {
        Err(Error::Codec(extent(source, at + 8 + len, size)->Err_0))
    } else if last && end != source.len() {
        Err(broken(end, ErrorKind::TrailingBytes))
    } else {
        Ok(
            (
                TermEntry {
                    term: source.subrange(at + 8, at + 8 + len),
                    positions: source.subrange(at + 8 + len, end),
                },
                end,
            ),
        )
    }
}

/// The terms from `at` on, up to the first failure.
pub open spec fn document_outcomes(source: Seq<u8>, at: int, remaining: nat) -> Seq<
    Result<TermEntry>,
>
    decreases remaining,
{
    if remaining == 0 {
        Seq::empty()
    } else {
        match document_term_at(source, at, remaining == 1) {
            Err(error) => seq![Err(error)],
            Ok((entry, end)) => seq![Ok(entry)] + document_outcomes(
                source,
                end,
                (remaining - 1) as nat,
            ),
        }
    }
}

/// The numbers of tokens and terms that a document announces.
pub open spec fn document_header(bytes: Seq<u8>) -> Result<(u32, u32)> {
    if bytes.len() < 4 {
        Err(cut_short(0))
    } else if bytes.take(4) != document_magic() {
        Err(Error::InvalidProfile)
    } else if bytes.len() < 8 {
        Err(cut_short(4))
    } else if le_u32(bytes, 4) != PROFILE_ID {
        Err(Error::InvalidProfile)
    } else if bytes.len() < 12 {
        Err(cut_short(8))
    } else if bytes.len() < 16 {
        Err(cut_short(12))
    } else {
        Ok((le_u32(bytes, 8), le_u32(bytes, 12)))
    }
}

/// Positions as a set of numbers.
pub open spec fn position_set(positions: Seq<u32>) -> Set<int> {
    Set::new(|i: int| 0 <= i <= u32::MAX && positions.contains(i as u32))
}

/// Whether positions are new and lie below the number of tokens.
pub open spec fn positions_fresh(positions: Seq<u32>, tokens: u32, seen: Set<int>) -> bool {
    forall|i: int|
        0 <= i < positions.len() ==> (#[trigger] positions[i]) < tokens && !seen.contains(
            positions[i] as int,
        )
}

/// The positions that the terms from `at` on cover besides `seen`, or the
/// first thing wrong with them.
pub open spec fn check_terms(
    source: Seq<u8>,
    at: int,
    remaining: nat,
    tokens: u32,
    previous: Seq<u8>,
    seen: Set<int>,
) -> Result<Set<int>>
    decreases remaining,
{
    if remaining == 0 {
        Ok(seen)
    } else {
        match document_term_at(source, at, remaining == 1) {
            Err(error) => Err(error),
            Ok((entry, end)) => if !precedes(previous, entry.term) {
                Err(Error::InvalidDocument)
            } else {
                match parsed(entry.positions, MAX_DOCUMENT_TOKENS) {
                    Err(error) => Err(Error::Codec(error)),
                    Ok(positions) => if positions.len() == 0 || !positions_fresh(
                        positions,
                        tokens,
                        seen,
                    ) {
                        Err(Error::InvalidDocument)
                    } else {
                        check_terms(
                            source,
                            end,
                            (remaining - 1) as nat,
                            tokens,
                            entry.term,
                            seen.union(position_set(positions)),
                        )
                    },
                }
            },
        }
    }
}

/// The numbers of tokens and terms of a sound document, or what is wrong with it.
pub open spec fn validated(bytes: Seq<u8>) -> Result<(u32, u32)> {
    if bytes.len() > MAX_DOCUMENT_BYTES {
        Err(Error::Limit("document payload"))
    } else {
        match document_header(bytes) {
            Err(error) => Err(error),
            Ok((tokens, terms)) => if tokens > MAX_DOCUMENT_TOKENS || terms > tokens {
                Err(Error::InvalidDocument)
            } else if terms == 0 {
                if bytes.len() != 16 {
                    Err(broken(16, ErrorKind::TrailingBytes))
                } else if tokens == 0 {
                    Ok((0, 0))
                } else {
                    Err(Error::InvalidDocument)
                }
            } else {
                match check_terms(bytes, 16, terms as nat, tokens, Seq::empty(), Set::empty()) {
                    Err(error) => Err(error),
                    Ok(seen) => if seen.len() != tokens {
                        Err(Error::InvalidDocument)
                    } else {
                        Ok((tokens, terms))
                    },
                }
            },
        }
    }
}

/// Whether validation has to remember positions: the header is sound and
/// announces terms.
pub open spec fn needs_scratch(bytes: Seq<u8>) -> bool {
    &&& bytes.len() <= MAX_DOCUMENT_BYTES
    &&& document_header(bytes) matches Ok((tokens, terms)) && 0 < terms <= tokens && tokens
        <= MAX_DOCUMENT_TOKENS
}

/// How many words the position bitset of a document has.
pub open spec fn scratch_words(bytes: Seq<u8>) -> int {
    (document_header(bytes)->Ok_0.0 + 63) / 64
}

/// The terms of a document.
pub open spec fn document_entries(bytes: Seq<u8>) -> Seq<TermEntry> {
    let terms = validated(bytes)->Ok_0.1;
    document_outcomes(bytes, 16, terms as nat).map_values(
        |outcome: Result<TermEntry>| outcome->Ok_0,
    )
}

/// The positions of an entry.
pub open spec fn entry_positions(entry: TermEntry) -> Seq<u32> {
    parsed(entry.positions, MAX_DOCUMENT_TOKENS)->Ok_0
}

/// A checked term plus its separate, lazily decoded positional stream.
#[derive(Clone, Copy, Debug)]
pub struct DocumentTerm<'a> {
    pub term: &'a str,
    pub positions: &'a [u8],
}

impl<'a> View for DocumentTerm<'a> {
    type V = TermEntry;

    open spec fn view(&self) -> TermEntry {
        TermEntry { term: text_bytes(self.term), positions: self.positions@ }
    }
}

impl<'a> DocumentTerm<'a> {
    /// Decodes exact positions, rejecting malformed counts or deltas.
    pub fn positions(self) -> (result: Result<Positions<'a>>)
        ensures
            match parsed(self@.positions, MAX_DOCUMENT_TOKENS) {
                Ok(positions) => result matches Ok(view) && view@ == positions,
                Err(error) => result matches Err(e) && e == Error::Codec(error),
            },
    {
        lift(Positions::parse(self.positions, MAX_DOCUMENT_TOKENS))
    }
}

/// An iterator over the terms of a document that stops at the first failure.
pub struct DocumentTerms<'a> {
    reader: Reader<'a>,
    remaining: u32,
}

impl<'a> View for DocumentTerms<'a> {
    type V = Seq<Result<TermEntry>>;

    /// The outcomes still to come.
    closed spec fn view(&self) -> Seq<Result<TermEntry>> {
        document_outcomes(
            self.reader.source(),
            self.reader.offset() as int,
            self.remaining as nat,
        )
    }
}

/// An outcome of iteration with its term as a model.
pub open spec fn entry_outcome(outcome: Result<DocumentTerm<'_>>) -> Result<TermEntry> {
    match outcome {
        Ok(term) => Ok(term@),
        Err(error) => Err(error),
    }
}

fn read_document_term<'a>(reader: &mut Reader<'a>, last: bool) -> (result: Result<DocumentTerm<'a>>)
    ensures
        final(reader).source() == old(reader).source(),
        match document_term_at(old(reader).source(), old(reader).offset() as int, last) {
            Ok((entry, end)) => result matches Ok(term) && term@ == entry && final(reader).offset()
                == end,
            Err(error) => result matches Err(e) && e == error,
        },
{
    let len: usize = lift(reader.u16())? as usize;
    if len == 0 || len > MAX_TERM_BYTES {
        return Err(Error::InvalidDocument);
    }
    if lift(reader.u16())? != 0 {
        return Err(Error::InvalidDocument);
    }
    let size: usize = lift(reader.u32())? as usize;
    let slice: &'a [u8] = lift(reader.take(len))?;
    let term: &'a str = match utf8(slice) {
        Some(term) => term,
        None => {
            return Err(Error::InvalidDocument);
        },
    };
    let positions: &'a [u8] = lift(reader.take(size))?;
    if last {
        lift(reader.finish())?;
    }
    Ok(DocumentTerm { term, positions })
}

impl<'a> DocumentTerms<'a> {
    /// Yields the next term, or the failure that ends the iteration.
    pub fn next(&mut self) -> (item: Option<Result<DocumentTerm<'a>>>)
        ensures
            if old(self)@.len() == 0 {
                item is None && final(self)@ == old(self)@
            } else {
                item matches Some(outcome) && entry_outcome(outcome) == old(self)@[0]
                    && final(self)@ == old(self)@.drop_first()
            },
    {
        if self.remaining == 0 {
            return None;
        }
        let result: Result<DocumentTerm<'a>> = read_document_term(
            &mut self.reader,
            self.remaining == 1,
        );
        match result {
            Ok(_) => {
                self.remaining -= 1;
            },
            Err(_) => {
                self.remaining = 0;
            },
        }
        assert(self@ =~= old(self)@.drop_first());
        Some(result)
    }
}

pub(crate) fn read_header<'a>(reader: &mut Reader<'a>) -> (result: Result<(u32, u32)>)
    requires
        old(reader).offset() == 0,
    ensures
        final(reader).source() == old(reader).source(),
        result == document_header(old(reader).source()),
        result is Ok ==> final(reader).offset() == 16,
{
    let start: &'a [u8] = lift(reader.take(4))?;
    let magic: [u8; 4] = [0x50, 0x44, 0x30, 0x32];
    assert(magic@ =~= document_magic());
    assert(start@ =~= old(reader).source().take(4));
    if !same_bytes(start, &magic) {
        return Err(Error::InvalidProfile);
    }
    if lift(reader.u32())? != PROFILE_ID {
        return Err(Error::InvalidProfile);
    }
    let tokens: u32 = lift(reader.u32())?;
    let terms: u32 = lift(reader.u32())?;
    Ok((tokens, terms))
}

pub(crate) proof fn positions_bounded(seen: Set<int>, tokens: int)
    requires
        0 <= tokens,
        forall|i: int| #[trigger] seen.contains(i) ==> 0 <= i < tokens,
    ensures
        seen.finite(),
        seen.len() <= tokens,
{
    let all = vstd::set_lib::set_int_range(0, tokens);
    vstd::set_lib::lemma_int_range(0, tokens);
    assert(seen.subset_of(all));
    vstd::set_lib::lemma_set_subset_finite(all, seen);
    vstd::set_lib::lemma_len_subset(seen, all);
}

/// Marks the positions of one term; false when one is out of range or was seen before.
#[verifier::loop_isolation(false)]
fn mark_positions(
    positions: Positions<'_>,
    tokens: u32,
    seen: &mut Vec<u64>,
    total: u32,
    Ghost(marked): Ghost<Set<int>>,
) -> (count: Option<u32>)
    requires
        tokens <= MAX_DOCUMENT_TOKENS,
        64 * old(seen)@.len() >= tokens,
        forall|i: int| #[trigger] member(old(seen)@, i) <==> marked.contains(i),
        forall|i: int| #[trigger] marked.contains(i) ==> 0 <= i < tokens,
        marked.len() == total,
    ensures
        final(seen)@.len() == old(seen)@.len(),
        count is Some <==> positions_fresh(positions@, tokens, marked),
        count matches Some(number) ==> {
            let after = marked.union(position_set(positions@));
            &&& forall|i: int| #[trigger] member(final(seen)@, i) <==> after.contains(i)
            &&& forall|i: int| #[trigger] after.contains(i) ==> 0 <= i < tokens
            &&& after.len() == number
        },
{
    let mut iter: PositionIter<'_> = positions.iter();
    let ghost list = positions@;
    let ghost outcomes = iter@;
    let ghost mut index: int = 0;
    let ghost mut current = marked;
    let mut total: u32 = total;
    assert(outcomes.skip(0) =~= outcomes);
    assert(marked.union(position_set(list.take(0))) =~= marked) by {
        assert(list.take(0).len() == 0);
    }
    proof {
        positions_bounded(marked, tokens as int);
    }
    loop
        invariant
            0 <= index <= list.len(),
            outcomes == list.map_values(|position: u32| Ok::<u32, crate::codec::Error>(position)),
            iter@ == outcomes.skip(index),
            seen@.len() == old(seen)@.len(),
            current == marked.union(position_set(list.take(index))),
            forall|i: int| #[trigger] member(seen@, i) <==> current.contains(i),
            forall|i: int| #[trigger] current.contains(i) ==> 0 <= i < tokens,
            current.finite(),
            current.len() == total,
            total <= tokens,
            forall|i: int|
                0 <= i < index ==> (#[trigger] list[i]) < tokens && !marked.contains(
                    list[i] as int,
                ),
        decreases iter@.len(),
    {
        proof {
            if index < list.len() {
                assert(iter@[0] == outcomes[index]);
                assert(iter@.drop_first() =~= outcomes.skip(index + 1));
            }
        }
        match iter.next() {
            None => {
                proof {
                    assert(list.take(index) =~= list);
                }
                return Some(total);
            },
            Some(Err(_)) => {
                assert(false);
                return None;
            },
            Some(Ok(position)) => {
                if position >= tokens {
                    assert(list[index] >= tokens);
                    return None;
                }
                if mask_has(seen.as_slice(), position as usize) {
                    proof {
                        assert(current.contains(position as int));
                        if !marked.contains(position as int) {
                            let before = list.take(index);
                            assert(before.contains(position));
                            let j = choose|j: int| 0 <= j < before.len() && before[j] == position;
                            assert(list[j] < list[index]);
                        }
                        assert(list[index] == position);
                    }
                    return None;
                }
                let ghost unmarked = seen@;
                mask_insert(seen.as_mut_slice(), position as usize);
                proof {
                    let next = current.insert(position as int);
                    assert(next =~= marked.union(position_set(list.take(index + 1)))) by {
                        assert forall|i: int| next.contains(i) == marked.union(
                            position_set(list.take(index + 1)),
                        ).contains(i) by {
                            let short = list.take(index);
                            let long = list.take(index + 1);
                            if 0 <= i <= u32::MAX {
                                if short.contains(i as u32) {
                                    let j = choose|j: int| 0 <= j < short.len() && short[j] == i as u32;
                                    assert(long[j] == i as u32);
                                }
                                if long.contains(i as u32) {
                                    let j = choose|j: int| 0 <= j < long.len() && long[j] == i as u32;
                                    if j < index {
                                        assert(short[j] == i as u32);
                                    }
                                }
                                assert(long[index] == position);
                            }
                        }
                    }
                    assert(!current.contains(position as int));
                    assert(!marked.contains(position as int));
                    assert forall|i: int| #[trigger] member(seen@, i) <==> next.contains(i) by {
                        assert(member(seen@, i) == (i == position || member(unmarked, i)));
                    }
                    positions_bounded(next, tokens as int);
                    current = next;
                    index = index + 1;
                }
                total += 1;
            },
        }
    }
}

/// Validates an untrusted payload without retaining a decoded document.
///
/// # Errors
/// Rejects malformed bytes, duplicate or missing positions, profile mismatch,
/// noncanonical ordering and resource limits. Scratch is at most one position bitset.
#[verifier::loop_isolation(false)]
pub fn validate(bytes: &[u8], memory_bytes: usize) -> (result: Result<(u32, u32)>)
    ensures
        result == validated(bytes@) || (needs_scratch(bytes@) && (result matches Err(
            error,
        ) && out_of_memory(error))),
        needs_scratch(bytes@) && scratch_words(bytes@) * vstd::layout::size_of::<u64>()
            > memory_bytes ==> result == Err::<(u32, u32), Error>(
            Error::Budget(BudgetError::LimitExceeded),
        ),
{
    if bytes.len() > MAX_DOCUMENT_BYTES {
        return Err(Error::Limit("document payload"));
    }
    let mut reader: Reader = Reader::new(bytes);
    let (tokens, terms): (u32, u32) = read_header(&mut reader)?;
    if tokens > MAX_DOCUMENT_TOKENS || terms > tokens {
        return Err(Error::InvalidDocument);
    }
    if terms == 0 {
        return validate_in(bytes, Vec::new());
    }
    let mut budget: MemoryBudget = MemoryBudget::new(memory_bytes);
    let words: usize = (tokens as usize + 63) / 64;
    let seen: Vec<u64> = vector(words, &mut budget)?;
    validate_in(bytes, seen)
}

/// Validates a document in memory that was given for its position bitset.
///
/// # Errors
/// Rejects malformed bytes, duplicate or missing positions, profile mismatch,
/// noncanonical ordering and documents that are too large.
#[verifier::loop_isolation(false)]
pub fn validate_in(bytes: &[u8], given: Vec<u64>) -> (result: Result<(u32, u32)>)
    requires
        given@.len() == 0,
    ensures
        result == validated(bytes@),
{
    if bytes.len() > MAX_DOCUMENT_BYTES {
        return Err(Error::Limit("document payload"));
    }
    let mut reader: Reader = Reader::new(bytes);
    let (tokens, terms): (u32, u32) = read_header(&mut reader)?;
    if tokens > MAX_DOCUMENT_TOKENS || terms > tokens {
        return Err(Error::InvalidDocument);
    }
    if terms == 0 {
        lift(reader.finish())?;
        return if tokens == 0 {
            Ok((0, 0))
        } else {
            Err(Error::InvalidDocument)
        };
    }
    let mut seen: Vec<u64> = given;
    let words: usize = (tokens as usize + 63) / 64;
    seen.resize(words, 0);
    let ghost mut marked: Set<int> = Set::empty();
    let mut total: u32 = 0;
    let mut remaining: u32 = terms;
    let empty: [u8; 0] = [];
    let mut previous: &[u8] = &empty;
    assert(previous@ =~= Seq::<u8>::empty());
    proof {
        empty_mask(seen@);
    }
    while remaining > 0
        invariant
            reader.source() == bytes@,
            remaining <= terms,
            seen@.len() == words,
            forall|i: int| #[trigger] member(seen@, i) <==> marked.contains(i),
            forall|i: int| #[trigger] marked.contains(i) ==> 0 <= i < tokens,
            marked.len() == total,
            check_terms(bytes@, 16, terms as nat, tokens, Seq::empty(), Set::empty())
                == check_terms(
                bytes@,
                reader.offset() as int,
                remaining as nat,
                tokens,
                previous@,
                marked,
            ),
        decreases remaining,
    {
        let entry: DocumentTerm<'_> = read_document_term(&mut reader, remaining == 1)?;
        let term: &[u8] = entry.term.as_bytes();
        if !bytes_precede(previous, term) {
            return Err(Error::InvalidDocument);
        }
        previous = term;
        let positions: Positions<'_> = entry.positions()?;
        if positions.is_empty() {
            return Err(Error::InvalidDocument);
        }
        match mark_positions(positions, tokens, &mut seen, total, Ghost(marked)) {
            Some(count) => {
                total = count;
            },
            None => {
                return Err(Error::InvalidDocument);
            },
        }
        proof {
            marked = marked.union(position_set(positions@));
        }
        remaining -= 1;
    }
    if total != tokens {
        return Err(Error::InvalidDocument);
    }
    Ok((tokens, terms))
}

/// Whether entries are sound: each one parses, terms ascend strictly, and each
/// has positions.
pub open spec fn entries_sound(entries: Seq<TermEntry>) -> bool {
    &&& forall|i: int|
        0 <= i < entries.len() ==> parsed(
            (#[trigger] entries[i]).positions,
            MAX_DOCUMENT_TOKENS,
        ) is Ok && entry_positions(entries[i]).len() > 0
    &&& forall|i: int, j: int|
        0 <= i < j < entries.len() ==> precedes(
            (#[trigger] entries[i]).term,
            (#[trigger] entries[j]).term,
        )
}

proof fn checked_entries(
    source: Seq<u8>,
    at: int,
    remaining: nat,
    tokens: u32,
    previous: Seq<u8>,
    seen: Set<int>,
)
    requires
        check_terms(source, at, remaining, tokens, previous, seen) is Ok,
    ensures
        ({
            let outcomes = document_outcomes(source, at, remaining);
            let entries = outcomes.map_values(|outcome: Result<TermEntry>| outcome->Ok_0);
            &&& outcomes.len() == remaining
            &&& forall|i: int| 0 <= i < outcomes.len() ==> (#[trigger] outcomes[i]) is Ok
            &&& entries_sound(entries)
            &&& forall|i: int|
                0 <= i < entries.len() ==> precedes(previous, (#[trigger] entries[i]).term)
        }),
    decreases remaining,
{
    let get = |outcome: Result<TermEntry>| outcome->Ok_0;
    let outcomes = document_outcomes(source, at, remaining);
    let entries = outcomes.map_values(get);
    if remaining > 0 {
        let (entry, end) = document_term_at(source, at, remaining == 1)->Ok_0;
        let positions = parsed(entry.positions, MAX_DOCUMENT_TOKENS)->Ok_0;
        let more = seen.union(position_set(positions));
        checked_entries(source, end, (remaining - 1) as nat, tokens, entry.term, more);
        let rest_outcomes = document_outcomes(source, end, (remaining - 1) as nat);
        let rest = rest_outcomes.map_values(get);
        assert(entries =~= seq![entry] + rest);
        assert forall|i: int| 0 <= i < outcomes.len() implies (#[trigger] outcomes[i]) is Ok by {
            if i > 0 {
                assert(outcomes[i] == rest_outcomes[i - 1]);
            }
        }
        assert forall|i: int| 0 <= i < entries.len() implies precedes(
            previous,
            (#[trigger] entries[i]).term,
        ) && parsed(entries[i].positions, MAX_DOCUMENT_TOKENS) is Ok && entry_positions(
            entries[i],
        ).len() > 0 by {
            if i > 0 {
                assert(entries[i] == rest[i - 1]);
                crate::text::precedes_transitive(previous, entry.term, rest[i - 1].term);
            }
        }
        assert forall|i: int, j: int| 0 <= i < j < entries.len() implies precedes(
            (#[trigger] entries[i]).term,
            (#[trigger] entries[j]).term,
        ) by {
            assert(entries[j] == rest[j - 1]);
            if i > 0 {
                assert(entries[i] == rest[i - 1]);
            }
        }
    } else {
        assert(entries =~= Seq::empty());
    }
}

/// The entries of a sound document are sound, and there are as many as announced.
pub proof fn validated_entries(bytes: Seq<u8>)
    requires
        validated(bytes) is Ok,
    ensures
        entries_sound(document_entries(bytes)),
        document_entries(bytes).len() == validated(bytes)->Ok_0.1,
        forall|i: int|
            0 <= i < document_outcomes(bytes, 16, validated(bytes)->Ok_0.1 as nat).len() ==> (
            #[trigger] document_outcomes(bytes, 16, validated(bytes)->Ok_0.1 as nat)[i]) is Ok,
{
    let (tokens, terms) = validated(bytes)->Ok_0;
    if terms > 0 {
        checked_entries(bytes, 16, terms as nat, tokens, Seq::empty(), Set::empty());
    } else {
        assert(document_entries(bytes) =~= Seq::empty());
    }
}

proof fn outcomes_utf8(source: Seq<u8>, at: int, remaining: nat)
    ensures
        forall|i: int|
            0 <= i < document_outcomes(source, at, remaining).len() && (
            #[trigger] document_outcomes(source, at, remaining)[i]) is Ok ==> valid_utf8(
                document_outcomes(source, at, remaining)[i]->Ok_0.term,
            ),
    decreases remaining,
{
    if remaining > 0 {
        if let Ok((entry, end)) = document_term_at(source, at, remaining == 1) {
            outcomes_utf8(source, end, (remaining - 1) as nat);
            let outcomes = document_outcomes(source, at, remaining);
            let rest = document_outcomes(source, end, (remaining - 1) as nat);
            assert forall|i: int| 0 <= i < outcomes.len() && (#[trigger] outcomes[i]) is Ok implies valid_utf8(
                outcomes[i]->Ok_0.term,
            ) by {
                if i > 0 {
                    assert(outcomes[i] == rest[i - 1]);
                }
            }
        }
    }
}

/// The terms of a sound document are texts, and no two are the same.
pub proof fn validated_terms_differ(bytes: Seq<u8>)
    requires
        validated(bytes) is Ok,
    ensures
        forall|i: int|
            0 <= i < document_entries(bytes).len() ==> valid_utf8(
                (#[trigger] document_entries(bytes)[i]).term,
            ),
        forall|i: int, j: int|
            0 <= i < j < document_entries(bytes).len() ==> (
            #[trigger] document_entries(bytes)[i]).term != (
            #[trigger] document_entries(bytes)[j]).term,
{
    let entries = document_entries(bytes);
    let outcomes = document_outcomes(bytes, 16, validated(bytes)->Ok_0.1 as nat);
    validated_entries(bytes);
    outcomes_utf8(bytes, 16, validated(bytes)->Ok_0.1 as nat);
    assert forall|i: int| 0 <= i < entries.len() implies valid_utf8((#[trigger] entries[i]).term) by {
        assert(outcomes[i] is Ok);
    }
    assert forall|i: int, j: int| 0 <= i < j < entries.len() implies (#[trigger] entries[i]).term
        != (#[trigger] entries[j]).term by {
        crate::text::precedes_total(entries[i].term, entries[j].term);
    }
}

proof fn checked_range(
    source: Seq<u8>,
    at: int,
    remaining: nat,
    tokens: u32,
    previous: Seq<u8>,
    seen: Set<int>,
)
    requires
        check_terms(source, at, remaining, tokens, previous, seen) is Ok,
        forall|i: int| #[trigger] seen.contains(i) ==> 0 <= i < tokens,
    ensures
        forall|i: int|
            #[trigger] check_terms(source, at, remaining, tokens, previous, seen)->Ok_0.contains(i)
                ==> 0 <= i < tokens,
    decreases remaining,
{
    if remaining > 0 {
        let (entry, end) = document_term_at(source, at, remaining == 1)->Ok_0;
        let positions = parsed(entry.positions, MAX_DOCUMENT_TOKENS)->Ok_0;
        let more = seen.union(position_set(positions));
        assert forall|i: int| #[trigger] more.contains(i) implies 0 <= i < tokens by {
            if !seen.contains(i) {
                let k = choose|k: int| 0 <= k < positions.len() && positions[k] == i as u32;
                assert(positions[k] < tokens);
            }
        }
        checked_range(source, end, (remaining - 1) as nat, tokens, entry.term, more);
    }
}

/// Every position of a sound document belongs to some term: none is missing.
pub proof fn positions_complete(bytes: Seq<u8>)
    requires
        validated(bytes) is Ok,
        validated(bytes)->Ok_0.1 > 0,
    ensures
        ({
            let (tokens, terms) = validated(bytes)->Ok_0;
            check_terms(bytes, 16, terms as nat, tokens, Seq::empty(), Set::empty())->Ok_0
                == vstd::set_lib::set_int_range(0, tokens as int)
        }),
{
    let (tokens, terms) = validated(bytes)->Ok_0;
    let seen = check_terms(bytes, 16, terms as nat, tokens, Seq::empty(), Set::empty())->Ok_0;
    let all = vstd::set_lib::set_int_range(0, tokens as int);
    checked_range(bytes, 16, terms as nat, tokens, Seq::empty(), Set::empty());
    vstd::set_lib::lemma_int_range(0, tokens as int);
    positions_bounded(seen, tokens as int);
    assert(seen.subset_of(all));
    vstd::set_lib::lemma_subset_equality(seen, all);
}

/// A complete, immutable, owned representation of one non-null document.
#[derive(Debug)]
pub struct PreparedDocument {
    bytes: Vec<u8>,
    tokens: u32,
    terms: u32,
}

impl View for PreparedDocument {
    type V = Seq<u8>;

    /// The encoded document.
    closed spec fn view(&self) -> Seq<u8> {
        self.bytes@
    }
}

impl PreparedDocument {
    #[verifier::type_invariant]
    closed spec fn inv(self) -> bool {
        validated(self.bytes@) == Ok::<(u32, u32), Error>((self.tokens, self.terms))
    }

    /// A document of parts that fit together.
    pub(crate) fn of_parts(bytes: Vec<u8>, tokens: u32, terms: u32) -> (document: Self)
        requires
            validated(bytes@) == Ok::<(u32, u32), Error>((tokens, terms)),
        ensures
            document@ == bytes@,
    {
        PreparedDocument { bytes, tokens, terms }
    }

    /// Copies and validates one complete prepared payload.
    ///
    /// # Errors
    /// Rejects malformed bytes, allocation failure or the supplied memory limit.
    pub fn copy_from_bytes(input: &[u8], memory_bytes: usize) -> (result: Result<Self>)
        ensures
            match validated(input@) {
                Ok(_) => match result {
                    Ok(document) => document@ == input@,
                    Err(error) => out_of_memory(error),
                },
                Err(error) => result matches Err(e) && (e == error || (needs_scratch(input@)
                    && out_of_memory(e))),
            },
            needs_scratch(input@) && scratch_words(input@) * vstd::layout::size_of::<u64>()
                > memory_bytes ==> (result matches Err(error) && error == Error::Budget(
                BudgetError::LimitExceeded,
            )),
            validated(input@) is Ok && input@.len() * vstd::layout::size_of::<u8>() > memory_bytes
                ==> (result matches Err(error) && out_of_memory(error) && (!needs_scratch(input@)
                ==> error == Error::Budget(BudgetError::LimitExceeded))),
    {
        let (tokens, terms): (u32, u32) = validate(input, memory_bytes)?;
        let mut budget: MemoryBudget = MemoryBudget::new(memory_bytes);
        let room: Vec<u8> = vector(input.len(), &mut budget)?;
        Ok(PreparedDocument::copied(input, tokens, terms, room))
    }

    /// Copies and validates one complete prepared payload in memory that was given
    /// for its position bitset and for its bytes.
    ///
    /// # Errors
    /// Rejects malformed bytes.
    pub fn copy_from_bytes_in(input: &[u8], seen: Vec<u64>, bytes: Vec<u8>) -> (result: Result<Self>)
        requires
            seen@.len() == 0,
            bytes@.len() == 0,
        ensures
            match validated(input@) {
                Ok(_) => result matches Ok(document) && document@ == input@,
                Err(error) => result matches Err(e) && e == error,
            },
    {
        let (tokens, terms): (u32, u32) = validate_in(input, seen)?;
        Ok(PreparedDocument::copied(input, tokens, terms, bytes))
    }

    fn copied(input: &[u8], tokens: u32, terms: u32, room: Vec<u8>) -> (document: Self)
        requires
            validated(input@) == Ok::<(u32, u32), Error>((tokens, terms)),
            room@.len() == 0,
        ensures
            document@ == input@,
    {
        let mut bytes: Vec<u8> = room;
        bytes.extend_from_slice(input);
        assert(bytes@ =~= input@);
        PreparedDocument { bytes, tokens, terms }
    }

    pub fn bytes(&self) -> (bytes: &[u8])
        ensures
            bytes@ == self@,
            validated(self@) is Ok,
    {
        proof {
            use_type_invariant(self);
        }
        self.bytes.as_slice()
    }

    pub fn token_count(&self) -> (tokens: u32)
        ensures
            validated(self@) matches Ok(counts) && tokens == counts.0,
    {
        proof {
            use_type_invariant(self);
        }
        self.tokens
    }

    pub fn term_count(&self) -> (terms: u32)
        ensures
            validated(self@) matches Ok(counts) && terms == counts.1,
    {
        proof {
            use_type_invariant(self);
        }
        self.terms
    }

    /// Returns a lazy term iterator without decoding positional streams.
    pub fn terms(&self) -> (terms: DocumentTerms<'_>)
        ensures
            terms@ == document_entries(self@).map_values(
                |entry: TermEntry| Ok::<TermEntry, Error>(entry),
            ),
            entries_sound(document_entries(self@)),
    {
        proof {
            use_type_invariant(self);
        }
        entries_of(self.bytes.as_slice(), self.terms)
    }
}

fn entries_of(bytes: &[u8], count: u32) -> (terms: DocumentTerms<'_>)
    requires
        validated(bytes@) matches Ok(counts) && counts.1 == count,
    ensures
        terms@ == document_entries(bytes@).map_values(
            |entry: TermEntry| Ok::<TermEntry, Error>(entry),
        ),
        entries_sound(document_entries(bytes@)),
{
    let mut reader: Reader = Reader::new(bytes);
    let start: crate::codec::Result<&[u8]> = reader.take(HEADER);
    let terms: DocumentTerms<'_> = DocumentTerms { reader, remaining: count };
    proof {
        validated_entries(bytes@);
        let outcomes = document_outcomes(bytes@, 16, count as nat);
        assert(outcomes =~= document_entries(bytes@).map_values(
            |entry: TermEntry| Ok::<TermEntry, Error>(entry),
        ));
    }
    terms
}

/// Validates one stored payload and returns its zero-copy term iterator.
pub(crate) fn validated_terms(
    bytes: &[u8],
    expected_tokens: u32,
    expected_terms: u32,
    memory_bytes: usize,
) -> (result: Result<DocumentTerms<'_>>)
    ensures
        match expected_document(bytes@, expected_tokens, expected_terms) {
            Ok(_) => match result {
                Ok(terms) => terms@ == document_entries(bytes@).map_values(
                    |entry: TermEntry| Ok::<TermEntry, Error>(entry),
                ) && entries_sound(document_entries(bytes@)),
                Err(error) => needs_scratch(bytes@) && out_of_memory(error),
            },
            Err(error) => result matches Err(e) && (e == error || (needs_scratch(bytes@)
                && out_of_memory(e))),
        },
        needs_scratch(bytes@) && scratch_words(bytes@) * vstd::layout::size_of::<u64>()
            > memory_bytes ==> (result matches Err(error) && error == Error::Budget(
            BudgetError::LimitExceeded,
        )),
{
    let (tokens, terms): (u32, u32) = validate(bytes, memory_bytes)?;
    if tokens != expected_tokens || terms != expected_terms {
        return Err(Error::InvalidDocument);
    }
    Ok(entries_of(bytes, terms))
}

/// Validates one stored payload in memory that was given for its position bitset.
pub(crate) fn validated_terms_in(
    bytes: &[u8],
    expected_tokens: u32,
    expected_terms: u32,
    given: Vec<u64>,
) -> (result: Result<DocumentTerms<'_>>)
    requires
        given@.len() == 0,
    ensures
        match expected_document(bytes@, expected_tokens, expected_terms) {
            Ok(_) => result matches Ok(terms) && terms@ == document_entries(bytes@).map_values(
                |entry: TermEntry| Ok::<TermEntry, Error>(entry),
            ) && entries_sound(document_entries(bytes@)),
            Err(error) => result matches Err(e) && e == error,
        },
{
    let (tokens, terms): (u32, u32) = validate_in(bytes, given)?;
    if tokens != expected_tokens || terms != expected_terms {
        return Err(Error::InvalidDocument);
    }
    Ok(entries_of(bytes, terms))
}

/// Whether a sound document has the expected numbers of tokens and terms.
pub open spec fn expected_document(bytes: Seq<u8>, tokens: u32, terms: u32) -> Result<()> {
    match validated(bytes) {
        Err(error) => Err(error),
        Ok(counts) => if counts != (tokens, terms) {
            Err(Error::InvalidDocument)
        } else {
            Ok(())
        },
    }
}

/// The positions of a term among entries, if it occurs.
pub open spec fn term_positions(entries: Seq<TermEntry>, term: Seq<u8>) -> Option<Seq<u32>>
    decreases entries.len(),
{
    if entries.len() == 0 {
        None
    } else if entries.last().term == term {
        Some(entry_positions(entries.last()))
    } else {
        term_positions(entries.drop_last(), term)
    }
}

/// The UTF-8 bytes of an owned string.
pub open spec fn string_bytes(text: String) -> Seq<u8> {
    encode_utf8(text@)
}

/// The positions of every term of a phrase.
pub open spec fn phrase_lists(entries: Seq<TermEntry>, phrase: Seq<String>) -> Seq<
    Option<Seq<u32>>,
> {
    Seq::new(phrase.len(), |i: int| term_positions(entries, string_bytes(phrase[i])))
}

/// Whether the terms occur at consecutive positions from `start` on.
pub open spec fn phrase_at(lists: Seq<Option<Seq<u32>>>, start: int) -> bool {
    forall|k: int|
        0 <= k < lists.len() ==> (#[trigger] lists[k]) is Some && start + k <= u32::MAX
            && lists[k]->Some_0.contains((start + k) as u32)
}

/// Whether a phrase occurs: all its terms, at consecutive positions.
pub open spec fn phrase_present(lists: Seq<Option<Seq<u32>>>) -> bool {
    exists|start: int| 0 <= start && #[trigger] phrase_at(lists, start)
}

} // verus!
