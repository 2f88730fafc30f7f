//! Phrase proofs and exact term membership over stored documents.

use crate::budget::BudgetError;
use crate::codec::bytes::{extent, group_bytes, le_u16, le_u32, le_shift, Reader};
use crate::codec::positions::{
    decode_increasing, decode_len, increasing, parsed, PositionIter, Positions,
};
use crate::codec::{Error as CodecError, ErrorKind};
use crate::error::{lift, Error, Result};
use crate::mask::{bit, bit_logic, bit_set};
use crate::memory::out_of_memory;
use crate::mutable::document::{
    check_terms, document_entries, document_header, document_outcomes, document_term_at,
    entries_sound, expected_document, needs_scratch, phrase_at, phrase_lists, phrase_present,
    position_set, positions_bounded, scratch_words, string_bytes, term_positions, validated,
    validated_terms, validated_terms_in, DocumentTerms, TermEntry, MAX_DOCUMENT_BYTES, MAX_DOCUMENT_TOKENS, MAX_TERM_BYTES,
};
use crate::mutable::page::model::{broken, cut_short};
use crate::text::{
    bytes_precede, precedes, precedes_total, precedes_transitive, same_bytes, text_bytes, utf8,
};
use vstd::prelude::*;
use vstd::utf8::valid_utf8;

verus! {

broadcast use group_bytes;

/// Positions as the outcomes of an iteration that cannot fail.
pub open spec fn sure(positions: Seq<u32>) -> Seq<crate::codec::Result<u32>> {
    positions.map_values(|position: u32| Ok::<u32, CodecError>(position))
}

/// Whether a cursor stands at `place` of a list: what it holds and what is
/// still to come are the rest of the list, and all before is below `bound`.
spec fn stands(
    list: Seq<u32>,
    pending: Seq<crate::codec::Result<u32>>,
    current: Option<u32>,
    place: int,
    bound: int,
) -> bool {
    &&& 0 <= place <= list.len()
    &&& forall|i: int| 0 <= i < place ==> (#[trigger] list[i]) < bound
    &&& match current {
        Some(value) => place < list.len() && value == list[place] && pending == sure(
            list.skip(place + 1),
        ),
        None => pending == sure(list.skip(place)),
    }
}

proof fn sure_first(list: Seq<u32>, place: int)
    requires
        0 <= place <= list.len(),
    ensures
        sure(list.skip(place)).len() == list.len() - place,
        place < list.len() ==> sure(list.skip(place))[0] == Ok::<u32, CodecError>(list[place])
            && sure(list.skip(place)).drop_first() == sure(list.skip(place + 1)),
{
    if place < list.len() {
        assert(sure(list.skip(place)).drop_first() =~= sure(list.skip(place + 1)));
    }
}

/// Moves a cursor to the first position at or after `target`; tells whether it
/// is the target.
fn reach(
    cursor: &mut PositionIter<'_>,
    current: Option<u32>,
    target: u32,
    Ghost(list): Ghost<Seq<u32>>,
    Ghost(place): Ghost<int>,
) -> (outcome: (bool, Option<u32>, Ghost<int>))
    requires
        increasing(list),
        stands(list, old(cursor)@, current, place, target as int),
    ensures
        outcome.0 == list.contains(target),
        stands(list, final(cursor)@, outcome.1, outcome.2@, target as int),
{
    let mut current: Option<u32> = current;
    let ghost mut place: int = place;
    loop
        invariant
            increasing(list),
            stands(list, cursor@, current, place, target as int),
        decreases list.len() - place, (if current is Some { 0int } else { 1int }),
    {
        match current {
            Some(value) => {
                if value == target {
                    assert(list[place] == target);
                    return (true, current, Ghost(place));
                }
                if value > target {
                    proof {
                        assert forall|i: int| 0 <= i < list.len() implies list[i] != target by {
                            if i > place {
                                assert(list[place] < list[i]);
                            }
                        }
                    }
                    return (false, current, Ghost(place));
                }
                current = None;
                proof {
                    place = place + 1;
                }
            },
            None => {
                proof {
                    sure_first(list, place);
                }
                match cursor.next() {
                    None => {
                        proof {
                            assert(place == list.len());
                            assert(sure(list.skip(place)) =~= cursor@);
                        }
                        return (false, None, Ghost(place));
                    },
                    Some(Ok(value)) => {
                        current = Some(value);
                    },
                    Some(Err(_)) => {
                        assert(false);
                        return (false, None, Ghost(place));
                    },
                }
            },
        }
    }
}

/// Collects the positions of each term of a phrase.
#[verifier::loop_isolation(false)]
fn collect<'a>(
    terms: DocumentTerms<'a>,
    phrase: &[String],
    Ghost(entries): Ghost<Seq<TermEntry>>,
) -> (lists: Vec<Option<Positions<'a>>>)
    requires
        terms@ == entries.map_values(|entry: TermEntry| Ok::<TermEntry, Error>(entry)),
        entries_sound(entries),
        phrase@.len() <= 64,
    ensures
        lists@.len() == phrase@.len(),
        forall|k: int|
            0 <= k < phrase@.len() ==> (match #[trigger] lists@[k] {
                Some(view) => Some(view@),
                None => None,
            }) == phrase_lists(entries, phrase@)[k],
{
    let mut terms: DocumentTerms<'a> = terms;
    let mut lists: Vec<Option<Positions<'a>>> = Vec::new();
    let mut k: usize = 0;
    while k < phrase.len()
        invariant
            k <= phrase@.len(),
            lists@.len() == k,
            forall|i: int| 0 <= i < k ==> (#[trigger] lists@[i]) is None,
        decreases phrase@.len() - k,
    {
        lists.push(None);
        k += 1;
    }
    let ghost outcomes = terms@;
    let ghost mut index: int = 0;
    assert(outcomes.skip(0) =~= outcomes);
    assert(entries.take(0).len() == 0);
    loop
        invariant
            0 <= index <= entries.len(),
            terms@ == outcomes.skip(index),
            lists@.len() == phrase@.len(),
            forall|k: int|
                0 <= k < phrase@.len() ==> (match #[trigger] lists@[k] {
                    Some(view) => Some(view@),
                    None => None,
                }) == term_positions(entries.take(index), string_bytes(phrase@[k])),
        decreases terms@.len(),
    {
        proof {
            if index < entries.len() {
                assert(terms@[0] == outcomes[index]);
                assert(terms@.drop_first() =~= outcomes.skip(index + 1));
                assert(entries.take(index + 1).drop_last() =~= entries.take(index));
                assert(entries.take(index + 1).last() == entries[index]);
            }
        }
        match terms.next() {
            None => {
                assert(entries.take(index) =~= entries);
                return lists;
            },
            Some(Err(_)) => {
                assert(false);
                return lists;
            },
            Some(Ok(entry)) => {
                let name: &[u8] = entry.term.as_bytes();
                let ghost before = lists@;
                let mut k: usize = 0;
                while k < phrase.len()
                    invariant
                        k <= phrase@.len(),
                        lists@.len() == phrase@.len(),
                        entry@ == entries[index],
                        forall|i: int| k <= i < phrase@.len() ==> lists@[i] == before[i],
                        forall|i: int|
                            0 <= i < k ==> (match #[trigger] lists@[i] {
                                Some(view) => Some(view@),
                                None => None,
                            }) == term_positions(entries.take(index + 1), string_bytes(phrase@[i])),
                    decreases phrase@.len() - k,
                {
                    let wanted: &[u8] = phrase[k].as_str().as_bytes();
                    if same_bytes(wanted, name) {
                        match entry.positions() {
                            Ok(view) => {
                                lists.set(k, Some(view));
                            },
                            Err(_) => {
                                assert(false);
                            },
                        }
                    } else {
                        assert(lists@[k as int] == before[k as int]);
                    }
                    k += 1;
                }
                proof {
                    index = index + 1;
                }
            },
        }
    }
}

/// Proves one bounded phrase against the stored, complete positional payload.
/// The caller still has to check visibility.
pub fn phrase_matches(
    bytes: &[u8],
    expected_tokens: u32,
    expected_terms: u32,
    phrase: &[String],
    memory_bytes: usize,
) -> (result: Result<bool>)
    ensures
        if phrase@.len() == 0 || phrase@.len() > 64 {
            result == Err::<bool, Error>(Error::Limit("phrase terms"))
        } else {
            match expected_document(bytes@, expected_tokens, expected_terms) {
                Ok(_) => match result {
                    Ok(found) => found == phrase_present(
                        phrase_lists(document_entries(bytes@), phrase@),
                    ),
                    Err(error) => needs_scratch(bytes@) && out_of_memory(error),
                },
                Err(error) => result matches Err(e) && (e == error || (needs_scratch(bytes@)
                    && out_of_memory(e))),
            }
        },
        0 < phrase@.len() <= 64 && needs_scratch(bytes@) && scratch_words(bytes@)
            * vstd::layout::size_of::<u64>() > memory_bytes ==> result == Err::<bool, Error>(
            Error::Budget(BudgetError::LimitExceeded),
        ),
{
    if phrase.len() == 0 || phrase.len() > 64 {
        return Err(Error::Limit("phrase terms"));
    }
    let terms: DocumentTerms<'_> = validated_terms(
        bytes,
        expected_tokens,
        expected_terms,
        memory_bytes,
    )?;
    Ok(phrase_in(terms, phrase, Ghost(document_entries(bytes@))))
}

/// Proves one bounded phrase in memory that was given for the position bitset of
/// the document.
///
/// # Errors
/// Rejects empty and long phrases, and documents that are not the expected ones.
pub fn phrase_matches_in(
    bytes: &[u8],
    expected_tokens: u32,
    expected_terms: u32,
    phrase: &[String],
    given: Vec<u64>,
) -> (result: Result<bool>)
    requires
        given@.len() == 0,
    ensures
        result == (if phrase@.len() == 0 || phrase@.len() > 64 {
            Err(Error::Limit("phrase terms"))
        } else {
            match expected_document(bytes@, expected_tokens, expected_terms) {
                Ok(_) => Ok(phrase_present(phrase_lists(document_entries(bytes@), phrase@))),
                Err(error) => Err(error),
            }
        }),
{
    if phrase.len() == 0 || phrase.len() > 64 {
        return Err(Error::Limit("phrase terms"));
    }
    let terms: DocumentTerms<'_> = validated_terms_in(
        bytes,
        expected_tokens,
        expected_terms,
        given,
    )?;
    Ok(phrase_in(terms, phrase, Ghost(document_entries(bytes@))))
}

/// Whether a phrase occurs in a document with the terms.
#[verifier::loop_isolation(false)]
fn phrase_in(
    terms: DocumentTerms<'_>,
    phrase: &[String],
    Ghost(entries): Ghost<Seq<TermEntry>>,
) -> (found: bool)
    requires
        terms@ == entries.map_values(|entry: TermEntry| Ok::<TermEntry, Error>(entry)),
        entries_sound(entries),
        0 < phrase@.len() <= 64,
    ensures
        found == phrase_present(phrase_lists(entries, phrase@)),
{
    let ghost lists = phrase_lists(entries, phrase@);
    let views: Vec<Option<Positions<'_>>> = collect(terms, phrase, Ghost(entries));
    let count: usize = phrase.len();
    let mut cursors: Vec<PositionIter<'_>> = Vec::new();
    let mut current: Vec<Option<u32>> = Vec::new();
    let ghost mut places: Seq<int> = Seq::empty();
    let mut k: usize = 0;
    while k < count
        invariant
            k <= count,
            cursors@.len() == k,
            current@.len() == k,
            places.len() == k,
            forall|i: int|
                0 <= i < k ==> (#[trigger] lists[i]) is Some && increasing(lists[i]->Some_0)
                    && cursors@[i]@ == sure(lists[i]->Some_0) && current@[i] is None && places[i]
                    == 0,
        decreases count - k,
    {
        match views[k] {
            None => {
                proof {
                    assert(lists[k as int] is None);
                    assert forall|start: int| 0 <= start implies !#[trigger] phrase_at(
                        lists,
                        start,
                    ) by {
                        assert(lists[k as int] is None);
                    }
                }
                return false;
            },
            Some(view) => {
                assert(views@[k as int] == Some(view));
                cursors.push(view.iter());
                current.push(None);
                proof {
                    places = places.push(0);
                    assert(lists[k as int] == Some(view@));
                }
            },
        }
        k += 1;
    }
    let mut starts: PositionIter<'_> = match views[0] {
        Some(view) => {
            assert(views@[0] == Some(view));
            view.iter()
        },
        None => {
            return false;
        },
    };
    let ghost first = lists[0]->Some_0;
    let ghost mut at: int = 0;
    proof {
        assert(first.skip(0) =~= first);
        assert forall|i: int| 0 <= i < count implies stands(
            #[trigger] lists[i]->Some_0,
            cursors@[i]@,
            current@[i],
            places[i],
            0,
        ) by {
            assert(lists[i] is Some);
            assert(lists[i]->Some_0.skip(0) =~= lists[i]->Some_0);
        }
    }
    loop
        invariant
            0 <= at <= first.len(),
            starts@ == sure(first.skip(at)),
            cursors@.len() == count,
            current@.len() == count,
            places.len() == count,
            forall|i: int|
                0 <= i < count ==> (#[trigger] lists[i]) is Some && increasing(lists[i]->Some_0),
            forall|i: int|
                1 <= i < count ==> stands(
                    #[trigger] lists[i]->Some_0,
                    cursors@[i]@,
                    current@[i],
                    places[i],
                    if at == 0 {
                        0
                    } else {
                        first[at - 1] + i
                    },
                ),
            forall|j: int| 0 <= j < at ==> !#[trigger] phrase_at(lists, first[j] as int),
        decreases first.len() - at,
    {
        proof {
            sure_first(first, at);
        }
        let start: u32 = match starts.next() {
            Some(Ok(start)) => start,
            Some(Err(_)) => {
                assert(false);
                return false;
            },
            None => {
                proof {
                    assert forall|start: int| 0 <= start implies !#[trigger] phrase_at(
                        lists,
                        start,
                    ) by {
                        if phrase_at(lists, start) {
                            assert(lists[0] is Some);
                            let j = choose|j: int|
                                0 <= j < first.len() && first[j] == (start + 0) as u32;
                            assert(!phrase_at(lists, first[j] as int));
                        }
                    }
                }
                return false;
            },
        };
        let mut matched: bool = true;
        let mut index: usize = 1;
        proof {
            assert forall|i: int| 1 <= i < count implies stands(
                #[trigger] lists[i]->Some_0,
                cursors@[i]@,
                current@[i],
                places[i],
                start + i,
            ) by {
                if at > 0 {
                    assert(first[at - 1] < first[at]);
                }
            }
        }
        while index < count && matched
            invariant
                1 <= index <= count,
                cursors@.len() == count,
                current@.len() == count,
                places.len() == count,
                start == first[at],
                forall|i: int|
                    1 <= i < count ==> stands(
                        #[trigger] lists[i]->Some_0,
                        cursors@[i]@,
                        current@[i],
                        places[i],
                        start + i,
                    ),
                matched ==> forall|i: int|
                    1 <= i < index ==> start + i <= u32::MAX && (
                    #[trigger] lists[i]->Some_0).contains((start + i) as u32),
                !matched ==> !phrase_at(lists, start as int),
            decreases count - index, (if matched { 1int } else { 0int }),
        {
            if index as u32 > u32::MAX - start {
                proof {
                    assert forall|other: int| 0 <= other implies !#[trigger] phrase_at(
                        lists,
                        other,
                    ) by {
                        if phrase_at(lists, other) {
                            assert(lists[0] is Some);
                            assert(lists[index as int] is Some);
                            let j = choose|j: int|
                                0 <= j < first.len() && first[j] == (other + 0) as u32;
                            if j < at {
                                assert(!phrase_at(lists, first[j] as int));
                            } else if j > at {
                                assert(first[at] < first[j]);
                            }
                        }
                    }
                }
                return false;
            }
            let target: u32 = start + index as u32;
            let ghost list = lists[index as int]->Some_0;
            proof {
                assert(lists[index as int] is Some);
            }
            let ghost before = cursors@;
            let held: Option<u32> = current[index];
            let (found, next, place): (bool, Option<u32>, Ghost<int>) = reach(
                &mut cursors[index],
                held,
                target,
                Ghost(list),
                Ghost(places[index as int]),
            );
            current.set(index, next);
            proof {
                places = places.update(index as int, place@);
                assert forall|i: int| 1 <= i < count implies stands(
                    #[trigger] lists[i]->Some_0,
                    cursors@[i]@,
                    current@[i],
                    places[i],
                    start + i,
                ) by {
                    if i != index {
                        assert(cursors@[i] == before[i]);
                    }
                }
            }
            if !found {
                matched = false;
                assert(lists[index as int] is Some);
            } else {
                index += 1;
            }
        }
        if matched {
            proof {
                assert(phrase_at(lists, start as int)) by {
                    assert forall|k: int| 0 <= k < lists.len() implies (#[trigger] lists[k]) is Some
                        && start + k <= u32::MAX && lists[k]->Some_0.contains(
                        (start + k) as u32,
                    ) by {
                        if k == 0 {
                            assert(first[at] == start);
                        } else {
                            assert(lists[k]->Some_0.contains((start + k) as u32));
                        }
                    }
                }
            }
            return true;
        }
        proof {
            at = at + 1;
        }
    }
}

/// The bytes of an optional name.
pub open spec fn name_bytes(name: Option<&str>) -> Option<Seq<u8>> {
    match name {
        Some(text) => Some(text_bytes(text)),
        None => None,
    }
}

/// The term at `at` without its positions, their number, and where it ends.
pub open spec fn member_at(
    source: Seq<u8>,
    at: int,
    tokens: u32,
    previous: Option<Seq<u8>>,
) -> Result<(Seq<u8>, u32, int)> {
    let len = le_u16(source, at) as int;
    let size = le_u32(source, at + 4) as int;
    let term = source.subrange(at + 8, at + 8 + len);
    let start = at + 8 + len;
    let count = le_u32(source, start);
    if extent(source, at, 2) is Err {
        Err(Error::Codec(extent(source, at, 2)->Err_0))
    } else if len == 0 || len > MAX_TERM_BYTES {
        Err(Error::InvalidDocument)
    } else if extent(source, at + 2, 2) is Err {
        Err(Error::Codec(extent(source, at + 2, 2)->Err_0))
    } else if le_u16(source, at + 2) != 0 {
        Err(Error::InvalidDocument)
    } else if extent(source, at + 4, 4) is Err {
        Err(Error::Codec(extent(source, at + 4, 4)->Err_0))
    } else if extent(source, at + 8, len) is Err {
        Err(Error::Codec(extent(source, at + 8, len)->Err_0))
    } else if !valid_utf8(term) {
        Err(Error::InvalidDocument)
    } else if previous matches Some(earlier) && !precedes(earlier, term) {
        Err(Error::InvalidDocument)
    } else if extent(source, start, size) is Err {
        Err(Error::Codec(extent(source, start, size)->Err_0))
    } else if size < 4 {
        Err(cut_short(0))
    } else if count == 0 || count > tokens || count > size - 4 {
        Err(Error::InvalidDocument)
    } else {
        Ok((term, count, start + size))
    }
}

/// The terms from `at` on, the number of their positions, and where they end.
pub open spec fn members_at(
    source: Seq<u8>,
    at: int,
    remaining: nat,
    tokens: u32,
    previous: Option<Seq<u8>>,
    total: int,
) -> Result<(Seq<Seq<u8>>, int, int)>
    decreases remaining,
{
    if remaining == 0 {
        Ok((Seq::empty(), total, at))
    } else {
        match member_at(source, at, tokens, previous) {
            Err(error) => Err(error),
            Ok((term, count, end)) => if total + count > u32::MAX {
                Err(Error::InvalidDocument)
            } else {
                match members_at(
                    source,
                    end,
                    (remaining - 1) as nat,
                    tokens,
                    Some(term),
                    total + count,
                ) {
                    Err(error) => Err(error),
                    Ok((rest, sum, stop)) => Ok((seq![term] + rest, sum, stop)),
                }
            },
        }
    }
}

/// The terms of a stored document, without decoding unused positions.
pub open spec fn stored_terms(bytes: Seq<u8>, expected_tokens: u32, expected_terms: u32) -> Result<
    Seq<Seq<u8>>,
> {
    if bytes.len() > MAX_DOCUMENT_BYTES {
        Err(Error::Limit("document membership"))
    } else {
        match document_header(bytes) {
            Err(error) => Err(error),
            Ok((tokens, terms)) => if tokens != expected_tokens || terms != expected_terms || tokens
                > MAX_DOCUMENT_TOKENS || terms > tokens {
                Err(Error::InvalidDocument)
            } else {
                match members_at(bytes, 16, terms as nat, tokens, None, 0) {
                    Err(error) => Err(error),
                    Ok((found, total, end)) => if end != bytes.len() {
                        Err(broken(end, ErrorKind::TrailingBytes))
                    } else if total != tokens {
                        Err(Error::InvalidDocument)
                    } else {
                        Ok(found)
                    },
                }
            },
        }
    }
}

/// New positions add their number to those seen.
pub(crate) proof fn positions_count(seen: Set<int>, positions: Seq<u32>)
    requires
        seen.finite(),
        increasing(positions),
        forall|i: int|
            0 <= i < positions.len() ==> !seen.contains((#[trigger] positions[i]) as int),
    ensures
        seen.union(position_set(positions)).finite(),
        seen.union(position_set(positions)).len() == seen.len() + positions.len(),
    decreases positions.len(),
{
    if positions.len() == 0 {
        assert(seen.union(position_set(positions)) =~= seen);
    } else {
        let front = positions.drop_last();
        let last = positions.last();
        positions_count(seen, front);
        let before = seen.union(position_set(front));
        assert(!before.contains(last as int)) by {
            if position_set(front).contains(last as int) {
                let i = choose|i: int| 0 <= i < front.len() && front[i] == last;
                assert(positions[i] < positions[positions.len() - 1]);
            }
            assert(!seen.contains(positions[positions.len() - 1] as int));
        }
        assert(seen.union(position_set(positions)) =~= before.insert(last as int)) by {
            assert forall|p: int| position_set(positions).contains(p) == (position_set(
                front,
            ).contains(p) || p == last) by {
                if position_set(positions).contains(p) && p != last {
                    let i = choose|i: int| 0 <= i < positions.len() && positions[i] == p as u32;
                    assert(front[i] == p as u32);
                }
                if position_set(front).contains(p) {
                    let i = choose|i: int| 0 <= i < front.len() && front[i] == p as u32;
                    assert(positions[i] == p as u32);
                }
                if p == last {
                    assert(positions[positions.len() - 1] == p as u32);
                }
            }
        }
    }
}

/// The terms of entries that were checked are the members, and the positions
/// that they cover are counted.
#[verifier::rlimit(60)]
#[verifier::spinoff_prover]
proof fn checked_members(
    source: Seq<u8>,
    at: int,
    remaining: nat,
    tokens: u32,
    previous: Seq<u8>,
    earlier: Option<Seq<u8>>,
    seen: Set<int>,
)
    requires
        0 <= at <= source.len(),
        check_terms(source, at, remaining, tokens, previous, seen) is Ok,
        earlier matches Some(term) ==> term == previous,
        seen.finite(),
        forall|i: int| #[trigger] seen.contains(i) ==> 0 <= i < tokens,
    ensures
        ({
            let all = check_terms(source, at, remaining, tokens, previous, seen)->Ok_0;
            let entries = document_outcomes(source, at, remaining).map_values(
                |outcome: Result<TermEntry>| outcome->Ok_0,
            );
            let members = members_at(source, at, remaining, tokens, earlier, seen.len() as int);
            &&& members matches Ok((terms, total, end))
            &&& terms == entries.map_values(|entry: TermEntry| entry.term)
            &&& total == all.len()
            &&& end == if remaining == 0 {
                at
            } else {
                source.len() as int
            }
        }),
    decreases remaining,
{
    let get = |outcome: Result<TermEntry>| outcome->Ok_0;
    let name = |entry: TermEntry| entry.term;
    let outcomes = document_outcomes(source, at, remaining);
    if remaining == 0 {
        assert(outcomes.map_values(get).map_values(name) =~= Seq::<Seq<u8>>::empty());
    } else {
        let (entry, end) = document_term_at(source, at, remaining == 1)->Ok_0;
        let positions = parsed(entry.positions, MAX_DOCUMENT_TOKENS)->Ok_0;
        let start = at + 8 + le_u16(source, at);
        let count = le_u32(source, start);
        assert(le_u32(entry.positions, 0) == count) by {
            reveal(le_u32);
            assert(entry.positions.subrange(0, 4) =~= source.subrange(start, start + 4));
        }
        let payload = entry.positions.subrange(4, entry.positions.len() as int);
        decode_len(payload, 0, count as nat, 0, true);
        decode_increasing(payload, 0, count as nat, 0, true);
        assert(positions.len() == count);
        let more = seen.union(position_set(positions));
        assert forall|i: int| 0 <= i < positions.len() implies !seen.contains(
            (#[trigger] positions[i]) as int,
        ) by {}
        positions_count(seen, positions);
        assert forall|i: int| #[trigger] more.contains(i) implies 0 <= i < tokens by {
            if !seen.contains(i) {
                let k = choose|k: int| 0 <= k < positions.len() && positions[k] == i as u32;
                assert(positions[k] < tokens);
            }
        }
        positions_bounded(more, tokens as int);
        assert(member_at(source, at, tokens, earlier) == Ok::<(Seq<u8>, u32, int), Error>(
            (entry.term, count, end),
        ));
        let left = (remaining - 1) as nat;
        checked_members(source, end, left, tokens, entry.term, Some(entry.term), more);
        let rest = document_outcomes(source, end, left);
        assert(outcomes.map_values(get).map_values(name) =~= seq![entry.term] + rest.map_values(
            get,
        ).map_values(name));
    }
}

/// The terms that a stored document is read as are those of its entries.
pub proof fn stored_terms_are_entries(bytes: Seq<u8>)
    requires
        validated(bytes) is Ok,
    ensures
        ({
            let (tokens, terms) = validated(bytes)->Ok_0;
            stored_terms(bytes, tokens, terms) == Ok::<Seq<Seq<u8>>, Error>(
                document_entries(bytes).map_values(|entry: TermEntry| entry.term),
            )
        }),
{
    let (tokens, terms) = validated(bytes)->Ok_0;
    if terms > 0 {
        checked_members(
            bytes,
            16,
            terms as nat,
            tokens,
            Seq::empty(),
            None,
            Set::empty(),
        );
    } else {
        assert(document_entries(bytes).map_values(|entry: TermEntry| entry.term) =~= Seq::<
            Seq<u8>,
        >::empty());
    }
}

/// Whether a mask tells exactly which names are among the terms.
pub open spec fn tells_membership(
    mask: u64,
    names: Seq<Option<&str>>,
    terms: Seq<Seq<u8>>,
) -> bool {
    forall|i: int|
        0 <= i < 64 ==> #[trigger] bit(mask, i) == (i < names.len() && (name_bytes(
            names[i],
        ) matches Some(name) && terms.contains(name)))
}

/// Query-constant ordering for exact boolean term membership.
pub struct TermMembership<'a, 'b> {
    names: &'a [Option<&'b str>],
    order: Vec<u8>,
}

impl<'a, 'b> TermMembership<'a, 'b> {
    /// The names whose membership is asked for.
    pub closed spec fn asked(self) -> Seq<Option<&'b str>> {
        self.names@
    }

    #[verifier::type_invariant]
    closed spec fn inv(self) -> bool {
        ordered_names(self.names@, self.order@, self.names@.len() as int)
    }

    #[verifier::loop_isolation(false)]
    pub fn new(names: &'a [Option<&'b str>]) -> (result: Result<Self>)
        ensures
            if names@.len() > 64 {
                result matches Err(e) && e == Error::Limit("document membership")
            } else {
                result matches Ok(membership) && membership.asked() == names@
            },
    {
        if names.len() > 64 {
            return Err(Error::Limit("document membership"));
        }
        let mut order: Vec<u8> = Vec::new();
        let mut index: usize = 0;
        while index < names.len()
            invariant
                index <= names@.len() <= 64,
                ordered_names(names@, order@, index as int),
            decreases names@.len() - index,
        {
            if let Some(text) = names[index] {
                let name: &[u8] = text.as_bytes();
                let mut position: usize = order.len();
                let mut more: bool = true;
                while position != 0 && more
                    invariant
                        position <= order@.len(),
                        ordered_names(names@, order@, index as int),
                        forall|p: int|
                            position <= p < order@.len() ==> precedes(
                                name@,
                                #[trigger] ranked(names@, order@, p),
                            ),
                        !more && position > 0 ==> !precedes(
                            name@,
                            ranked(names@, order@, position - 1),
                        ),
                    decreases position, (if more { 1int } else { 0int }),
                {
                    let earlier: usize = order[position - 1] as usize;
                    assert(ranked(names@, order@, position - 1) == name_bytes(
                        names@[earlier as int],
                    )->Some_0);
                    match names[earlier] {
                        Some(other) => {
                            if bytes_precede(name, other.as_bytes()) {
                                position -= 1;
                            } else {
                                more = false;
                            }
                        },
                        None => {
                            assert(false);
                            more = false;
                        },
                    }
                }
                let ghost before = order@;
                order.insert(position, index as u8);
                proof {
                    inserted_order(names@, before, index as int, position as int);
                }
            } else {
                assert(ordered_names(names@, order@, index + 1));
            }
            index += 1;
        }
        Ok(TermMembership { names, order })
    }

    /// Reads exact term membership without decoding unused positional deltas.
    #[verifier::loop_isolation(false)]
    pub fn read(&self, bytes: &[u8], expected_tokens: u32, expected_terms: u32) -> (result: Result<
        u64,
    >)
        ensures
            match stored_terms(bytes@, expected_tokens, expected_terms) {
                Err(error) => result == Err::<u64, Error>(error),
                Ok(terms) => result matches Ok(mask) && tells_membership(mask, self.asked(), terms),
            },
    {
        proof {
            use_type_invariant(self);
        }
        if bytes.len() > MAX_DOCUMENT_BYTES {
            return Err(Error::Limit("document membership"));
        }
        let mut reader: Reader = Reader::new(bytes);
        let (tokens, terms): (u32, u32) = crate::mutable::document::read_header(&mut reader)?;
        if tokens != expected_tokens || terms != expected_terms || tokens > MAX_DOCUMENT_TOKENS
            || terms > tokens {
            return Err(Error::InvalidDocument);
        }
        let ghost names = self.names@;
        let ghost order = self.order@;
        let ghost mut found: Seq<Seq<u8>> = Seq::empty();
        let mut mask: u64 = 0;
        let mut query: usize = 0;
        let mut previous: Option<&[u8]> = None;
        let mut positions: u32 = 0;
        let mut remaining: u32 = terms;
        proof {
            assert forall|i: int| 0 <= i < 64 implies !#[trigger] bit(mask, i) by {
                bit_logic(0, 0, i as u64);
            }
        }
        while remaining > 0
            invariant
                reader.source() == bytes@,
                remaining <= terms,
                query <= order.len(),
                previous is None <==> found.len() == 0,
                previous matches Some(last) ==> last@ == found.last(),
                forall|i: int, j: int|
                    0 <= i < j < found.len() ==> precedes(
                        #[trigger] found[i],
                        #[trigger] found[j],
                    ),
                members_at(bytes@, 16, terms as nat, tokens, None, 0) == (match members_at(
                    bytes@,
                    reader.offset() as int,
                    remaining as nat,
                    tokens,
                    match previous {
                        Some(last) => Some(last@),
                        None => None,
                    },
                    positions as int,
                ) {
                    Err(error) => Err(error),
                    Ok((rest, total, end)) => Ok((found + rest, total, end)),
                }),
                forall|i: int|
                    0 <= i < 64 ==> #[trigger] bit(mask, i) == (exists|q: int|
                        0 <= q < query && #[trigger] order[q] == i && found.contains(
                            ranked(names, order, q),
                        )),
                forall|q: int|
                    query <= q < order.len() ==> !found.contains(
                        #[trigger] ranked(names, order, q),
                    ),
                forall|q: int|
                    query <= q < order.len() && found.len() > 0 ==> precedes(
                        found.last(),
                        #[trigger] ranked(names, order, q),
                    ),
                forall|q: int|
                    0 <= q < query ==> found.len() > 0 && !precedes(
                        found.last(),
                        #[trigger] ranked(names, order, q),
                    ),
            decreases remaining,
        {
            let (term, count): (&[u8], u32) = read_member(&mut reader, tokens, previous)?;
            if count > u32::MAX - positions {
                return Err(Error::InvalidDocument);
            }
            let ghost before = found;
            positions = positions + count;
            proof {
                found = found.push(term@);
                assert forall|i: int, j: int| 0 <= i < j < found.len() implies precedes(
                    #[trigger] found[i],
                    #[trigger] found[j],
                ) by {
                    if j == before.len() {
                        if i < before.len() - 1 {
                            precedes_transitive(before[i], before.last(), term@);
                        }
                    }
                }
                if let Ok((rest, _, _)) = members_at(
                    bytes@,
                    reader.offset() as int,
                    (remaining - 1) as nat,
                    tokens,
                    Some(term@),
                    positions as int,
                ) {
                    assert(before + (seq![term@] + rest) =~= found + rest);
                }
                assert forall|q: int| query <= q < order.len() implies found.contains(
                    #[trigger] ranked(names, order, q),
                ) == (ranked(names, order, q) == term@) by {
                    let name = ranked(names, order, q);
                    if found.contains(name) {
                        let j = choose|j: int| 0 <= j < found.len() && found[j] == name;
                        if j < before.len() {
                            assert(before[j] == name);
                            assert(before.contains(name));
                        }
                    }
                    if name == term@ {
                        assert(found[before.len() as int] == name);
                    }
                }
                assert forall|q: int| 0 <= q < query implies found.contains(
                    #[trigger] ranked(names, order, q),
                ) == before.contains(ranked(names, order, q)) && !precedes(
                    term@,
                    ranked(names, order, q),
                ) by {
                    let name = ranked(names, order, q);
                    precedes_total(before.last(), name);
                    precedes_total(term@, name);
                    if before.last() != name {
                        precedes_transitive(name, before.last(), term@);
                    }
                    if found.contains(name) {
                        let j = choose|j: int| 0 <= j < found.len() && found[j] == name;
                        if j < before.len() {
                            assert(before[j] == name);
                        }
                    }
                    if before.contains(name) {
                        let j = choose|j: int| 0 <= j < before.len() && before[j] == name;
                        assert(found[j] == name);
                    }
                }
                assert forall|i: int| 0 <= i < 64 implies #[trigger] bit(mask, i) == (exists|q: int|
                    0 <= q < query && #[trigger] order[q] == i && found.contains(
                        ranked(names, order, q),
                    )) by {
                    if bit(mask, i) {
                        let q = choose|q: int|
                            0 <= q < query && #[trigger] order[q] == i && before.contains(
                                ranked(names, order, q),
                            );
                        assert(found.contains(ranked(names, order, q)));
                    }
                    if exists|q: int|
                        0 <= q < query && #[trigger] order[q] == i && found.contains(
                            ranked(names, order, q),
                        ) {
                        let q = choose|q: int|
                            0 <= q < query && #[trigger] order[q] == i && found.contains(
                                ranked(names, order, q),
                            );
                        assert(before.contains(ranked(names, order, q)));
                    }
                }
            }
            let ghost first = query;
            let mut more: bool = true;
            while query < self.order.len() && more
                invariant
                    first <= query <= order.len(),
                    forall|q: int|
                        0 <= q < query ==> !precedes(term@, #[trigger] ranked(names, order, q)),
                    forall|i: int|
                        0 <= i < 64 ==> #[trigger] bit(mask, i) == (exists|q: int|
                            0 <= q < query && #[trigger] order[q] == i && found.contains(
                                ranked(names, order, q),
                            )),
                    !more ==> query < order.len() && precedes(term@, ranked(names, order, query as int)),
                decreases order.len() - query, (if more { 1int } else { 0int }),
            {
                let index: usize = self.order[query] as usize;
                assert(ranked(names, order, query as int) == name_bytes(
                    names[index as int],
                )->Some_0);
                let name: &[u8] = match self.names[index] {
                    Some(name) => name.as_bytes(),
                    None => {
                        assert(false);
                        return Err(Error::InvalidState);
                    },
                };
                proof {
                    precedes_total(name@, term@);
                }
                let ghost earlier = mask;
                if bytes_precede(name, term) {
                    proof {
                        assert(found.contains(ranked(names, order, query as int)) == (ranked(
                            names,
                            order,
                            query as int,
                        ) == term@));
                        widen_query(names, order, found, mask, mask, query as int);
                    }
                    query += 1;
                } else if !same_bytes(name, term) {
                    more = false;
                } else {
                    mask = mask | (1u64 << (index as u64));
                    proof {
                        assert(found.contains(name@));
                        assert forall|i: int| 0 <= i < 64 implies #[trigger] bit(mask, i) == (bit(
                            earlier,
                            i,
                        ) || i == index) by {
                            bit_set(earlier, index as u64, i as u64);
                        }
                        widen_query(names, order, found, earlier, mask, query as int);
                    }
                    query += 1;
                }
            }
            proof {
                assert forall|q: int| query <= q < order.len() implies !found.contains(
                    #[trigger] ranked(names, order, q),
                ) && precedes(found.last(), ranked(names, order, q)) by {
                    if !more {
                        let low = ranked(names, order, query as int);
                        let name = ranked(names, order, q);
                        rank_order(names, order, query as int, q);
                        precedes_total(low, name);
                        if low != name {
                            precedes_transitive(term@, low, name);
                        }
                        precedes_total(term@, name);
                    }
                }
            }
            previous = Some(term);
            remaining -= 1;
        }
        lift(reader.finish())?;
        if positions != tokens {
            return Err(Error::InvalidDocument);
        }
        proof {
            assert(found + Seq::<Seq<u8>>::empty() =~= found);
            assert forall|i: int| 0 <= i < 64 implies #[trigger] bit(mask, i) == (i < names.len()
                && (name_bytes(names[i]) matches Some(name) && found.contains(name))) by {
                if bit(mask, i) {
                    let q = choose|q: int|
                        0 <= q < query && #[trigger] order[q] == i && found.contains(
                            ranked(names, order, q),
                        );
                    assert(order[q] == i);
                }
                if i < names.len() && names[i] is Some && found.contains(
                    name_bytes(names[i])->Some_0,
                ) {
                    let q = choose|q: int| 0 <= q < order.len() && #[trigger] order[q] == i;
                    assert(ranked(names, order, q) == name_bytes(names[i])->Some_0);
                    assert(q < query);
                }
            }
        }
        Ok(mask)
    }
}

/// The name at `rank` of an order.
spec fn ranked(names: Seq<Option<&str>>, order: Seq<u8>, rank: int) -> Seq<u8> {
    name_bytes(names[order[rank] as int])->Some_0
}

/// Whether `order` lists the present names below `below` in ascending order.
spec fn ordered_names(names: Seq<Option<&str>>, order: Seq<u8>, below: int) -> bool {
    &&& names.len() <= 64
    &&& forall|q: int|
        0 <= q < order.len() ==> (#[trigger] order[q]) < below && order[q] < names.len()
            && names[order[q] as int] is Some
    &&& forall|i: int|
        0 <= i < below && i < names.len() && (#[trigger] names[i]) is Some ==> exists|q: int|
            0 <= q < order.len() && #[trigger] order[q] == i
    &&& forall|p: int, q: int|
        0 <= p < q < order.len() ==> !precedes(
            #[trigger] ranked(names, order, q),
            #[trigger] ranked(names, order, p),
        )
}

proof fn rank_order(names: Seq<Option<&str>>, order: Seq<u8>, low: int, high: int)
    requires
        ordered_names(names, order, names.len() as int),
        0 <= low <= high < order.len(),
    ensures
        !precedes(ranked(names, order, high), ranked(names, order, low)),
{
    if low == high {
        precedes_total(ranked(names, order, high), ranked(names, order, low));
    }
}

proof fn inserted_order(names: Seq<Option<&str>>, order: Seq<u8>, index: int, position: int)
    requires
        0 <= index < names.len(),
        names[index] is Some,
        ordered_names(names, order, index),
        0 <= position <= order.len(),
        forall|p: int|
            position <= p < order.len() ==> precedes(
                name_bytes(names[index])->Some_0,
                #[trigger] ranked(names, order, p),
            ),
        position > 0 ==> !precedes(
            name_bytes(names[index])->Some_0,
            ranked(names, order, position - 1),
        ),
    ensures
        ordered_names(names, order.insert(position, index as u8), index + 1),
{
    let after = order.insert(position, index as u8);
    let name = name_bytes(names[index])->Some_0;
    assert forall|i: int|
        0 <= i < index + 1 && i < names.len() && (#[trigger] names[i]) is Some implies exists|q: int|
        0 <= q < after.len() && #[trigger] after[q] == i by {
        if i == index {
            assert(after[position] == i);
        } else {
            let q = choose|q: int| 0 <= q < order.len() && #[trigger] order[q] == i;
            if q < position {
                assert(after[q] == i);
            } else {
                assert(after[q + 1] == i);
            }
        }
    }
    assert forall|p: int, q: int| 0 <= p < q < after.len() implies !precedes(
        #[trigger] ranked(names, after, q),
        #[trigger] ranked(names, after, p),
    ) by {
        let old_q = if q > position {
            q - 1
        } else {
            q
        };
        let old_p = if p > position {
            p - 1
        } else {
            p
        };
        if p != position {
            assert(after[p] == order[old_p]);
            assert(ranked(names, after, p) == ranked(names, order, old_p));
        }
        if q != position {
            assert(after[q] == order[old_q]);
            assert(ranked(names, after, q) == ranked(names, order, old_q));
        }
        if q == position {
            let low = ranked(names, order, old_p);
            let last = ranked(names, order, position - 1);
            if precedes(name, low) {
                if p < position - 1 {
                    assert(!precedes(last, low));
                    precedes_total(last, low);
                    if low != last {
                        precedes_transitive(name, low, last);
                    }
                }
            }
        } else if p == position {
            precedes_total(name, ranked(names, order, old_q));
        } else {
            assert(!precedes(ranked(names, order, old_q), ranked(names, order, old_p)));
        }
    }
    assert forall|q: int| 0 <= q < after.len() implies (#[trigger] after[q]) < index + 1
        && after[q] < names.len() && names[after[q] as int] is Some by {
        if q < position {
            assert(after[q] == order[q]);
        } else if q > position {
            assert(after[q] == order[q - 1]);
        }
    }
}

/// A mask that told membership for the first ranks tells it for one more.
proof fn widen_query(
    names: Seq<Option<&str>>,
    order: Seq<u8>,
    found: Seq<Seq<u8>>,
    before: u64,
    after: u64,
    query: int,
)
    requires
        0 <= query < order.len(),
        forall|q: int| 0 <= q < order.len() ==> (#[trigger] order[q]) < 64,
        forall|i: int|
            0 <= i < 64 ==> #[trigger] bit(before, i) == (exists|q: int|
                0 <= q < query && #[trigger] order[q] == i && found.contains(
                    ranked(names, order, q),
                )),
        forall|i: int|
            0 <= i < 64 ==> #[trigger] bit(after, i) == (bit(before, i) || (i == order[query]
                && found.contains(ranked(names, order, query)))),
    ensures
        forall|i: int|
            0 <= i < 64 ==> #[trigger] bit(after, i) == (exists|q: int|
                0 <= q < query + 1 && #[trigger] order[q] == i && found.contains(
                    ranked(names, order, q),
                )),
{
    assert forall|i: int| 0 <= i < 64 implies #[trigger] bit(after, i) == (exists|q: int|
        0 <= q < query + 1 && #[trigger] order[q] == i && found.contains(
            ranked(names, order, q),
        )) by {
        if bit(before, i) {
            let q = choose|q: int|
                0 <= q < query && #[trigger] order[q] == i && found.contains(
                    ranked(names, order, q),
                );
            assert(order[q] == i);
        }
        if exists|q: int|
            0 <= q < query + 1 && #[trigger] order[q] == i && found.contains(
                ranked(names, order, q),
            ) {
            let q = choose|q: int|
                0 <= q < query + 1 && #[trigger] order[q] == i && found.contains(
                    ranked(names, order, q),
                );
            if q < query {
                assert(bit(before, i));
            }
        }
    }
}

fn read_member<'a>(reader: &mut Reader<'a>, tokens: u32, previous: Option<&[u8]>) -> (result:
    Result<(&'a [u8], u32)>)
    ensures
        final(reader).source() == old(reader).source(),
        match member_at(
            old(reader).source(),
            old(reader).offset() as int,
            tokens,
            match previous {
                Some(last) => Some(last@),
                None => None,
            },
        ) {
            Err(error) => result matches Err(e) && e == error,
            Ok((term, count, end)) => result matches Ok(found) && found.0@ == term && found.1
                == count && final(reader).offset() == end && (previous matches Some(last)
                ==> precedes(last@, term)),
        },
{
    let len: usize = lift(reader.u16())? as usize;
    if len == 0 || len > MAX_TERM_BYTES {
        return Err(Error::InvalidDocument);
    }
    if lift(reader.u16())? != 0 {
        return Err(Error::InvalidDocument);
    }
    let size: usize = lift(reader.u32())? as usize;
    let term: &'a [u8] = lift(reader.take(len))?;
    if utf8(term).is_none() {
        return Err(Error::InvalidDocument);
    }
    if let Some(last) = previous {
        if !bytes_precede(last, term) {
            return Err(Error::InvalidDocument);
        }
    }
    let ghost start = reader.offset() as int;
    let encoded: &'a [u8] = lift(reader.take(size))?;
    let mut inner: Reader<'a> = Reader::new(encoded);
    let count: u32 = lift(inner.u32())?;
    proof {
        le_shift(old(reader).source(), start, size as int);
    }
    if count == 0 || count > tokens || count as usize > inner.remaining() {
        return Err(Error::InvalidDocument);
    }
    Ok((term, count))
}

} // verus!
