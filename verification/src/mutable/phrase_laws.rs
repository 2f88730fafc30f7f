//! What document prefixes tell of phrases is true of the whole document.

use crate::codec::bytes::{group_bytes, le_inside, le_u16, le_u32, var_groups, var_u32_at};
use crate::codec::positions::{decode, decode_increasing, decode_len, increasing, parsed};
use crate::codec::ErrorKind;
use crate::error::{Error, Result};
use crate::mutable::document::{
    check_terms, document_entries, document_outcomes, document_term_at, entry_positions,
    phrase_at, phrase_lists, phrase_present, position_set, positions_bounded, term_positions,
    validated, validated_entries, validated_terms_differ, TermEntry, MAX_DOCUMENT_BYTES,
    MAX_DOCUMENT_TOKENS,
};
use crate::mutable::membership::positions_count;
use crate::mutable::phrase_prefix::{
    all_known, entry_stream, gathered, known, list_finder, passed_bounds, prefix_entry,
    prefix_header, prefix_streams, prefix_told, prefix_work, sizes_bounded, stream_finders,
    stream_sizes, streams_witnessed, undecided, wanted_bytes, with_entry, work_limit, PrefixEntry,
    StreamModel,
};
use crate::mutable::walk::Walk;
use crate::mutable::witness::{absent, fails_at, present, stands_at};
use vstd::prelude::*;

verus! {

broadcast use group_bytes;

/// A number at the beginning of some bytes reads alike, or is cut short.
proof fn varint_cut(bytes: Seq<u8>, length: int, start: int, group: int, last: int, top: int)
    requires
        0 <= start,
        0 <= group,
        0 <= length <= bytes.len() <= MAX_DOCUMENT_BYTES,
        var_groups(bytes, start, group, last, top) is Ok,
    ensures
        match var_groups(bytes.take(length), start, group, last, top) {
            Ok(read) => var_groups(bytes, start, group, last, top) == Ok::<
                (nat, nat),
                crate::codec::Error,
            >(read),
            Err(error) => error.kind == ErrorKind::Truncated && length < bytes.len(),
        },
    decreases last - group,
{
    if start + group + 1 <= length {
        let byte = bytes[start + group];
        assert(bytes.take(length)[start + group] == byte);
        if byte >= 128 && group < last {
            varint_cut(bytes, length, start, group + 1, last, top);
        }
    }
}

/// Whether a walk is the beginning of a list: all of it where it comes to an
/// end, and it comes to one unless what is missing cuts it short.
pub open spec fn beginning(walk: Walk<u32>, list: Seq<u32>, whole: bool) -> bool {
    &&& walk.items.len() <= list.len()
    &&& walk.items == list.take(walk.items.len() as int)
    &&& walk.end is Ok ==> walk.items == list
    &&& walk.end matches Err(error) ==> undecided(error) && !whole
}

/// The positions of a stream over the beginning of a list.
proof fn stream_begins(bytes: Seq<u8>, length: int, stream: StreamModel)
    requires
        0 <= length <= bytes.len() <= MAX_DOCUMENT_BYTES,
        stream.source == bytes.take(length),
        stream.complete == (length == bytes.len()),
        0 <= stream.at,
        decode(
            bytes,
            stream.at,
            stream.remaining,
            stream.previous,
            stream.first,
        ) matches Ok((list, end)) && end == bytes.len() && (forall|i: int|
            0 <= i < list.len() ==> (#[trigger] list[i]) < stream.tokens),
    ensures
        beginning(
            stream.positions(),
            decode(
                bytes,
                stream.at,
                stream.remaining,
                stream.previous,
                stream.first,
            )->Ok_0.0,
            length == bytes.len(),
        ),
    decreases stream.remaining,
{
    let (list, end) = decode(
        bytes,
        stream.at,
        stream.remaining,
        stream.previous,
        stream.first,
    )->Ok_0;
    if stream.remaining == 0 {
        assert(stream.positions().items =~= list.take(0));
        assert(stream.positions().items =~= list);
    } else {
        varint_cut(bytes, length, stream.at, 0, 4, 15);
        let (delta, len) = var_u32_at(bytes, stream.at)->Ok_0;
        let position = (stream.previous + delta) as u32;
        let (rest, _) = decode(
            bytes,
            stream.at + len,
            (stream.remaining - 1) as nat,
            position,
            false,
        )->Ok_0;
        assert(list == seq![position] + rest);
        assert(list[0] == position);
        match var_u32_at(stream.source, stream.at) {
            Err(error) => {
                assert(stream.positions().items =~= list.take(0));
            },
            Ok(_) => {
                let next = StreamModel {
                    at: stream.at + len,
                    remaining: (stream.remaining - 1) as nat,
                    previous: position,
                    first: false,
                    ..stream
                };
                assert forall|i: int| 0 <= i < rest.len() implies (#[trigger] rest[i])
                    < stream.tokens by {
                    assert(list[i + 1] == rest[i]);
                }
                if stream.remaining == 1 {
                    assert(rest.len() == 0);
                    assert(stream.at + len == bytes.len());
                    assert(stream.complete ==> stream.source =~= bytes);
                }
                stream_begins(bytes, length, next);
                assert(stream.step() == Ok::<Option<(u32, StreamModel)>, Error>(
                    Some((position, next)),
                ));
                let walk = next.positions();
                let all = stream.positions();
                assert(all.items =~= seq![position] + walk.items);
                assert(all.items =~= list.take(all.items.len() as int));
                if walk.end is Ok {
                    assert(all.items =~= list);
                }
            },
        }
    }
}

/// The next entry of a sound document, as far as a prefix reaches: it is read
/// alike, or cut short.
#[verifier::rlimit(60)]
#[verifier::spinoff_prover]
proof fn entry_begins(
    bytes: Seq<u8>,
    length: int,
    tokens: u32,
    offset: int,
    last: bool,
    previous: Seq<u8>,
    frequency: int,
)
    requires
        0 <= length <= bytes.len() <= MAX_DOCUMENT_BYTES,
        0 <= offset <= bytes.len(),
        document_term_at(bytes, offset, last) is Ok,
        ({
            let (entry, end) = document_term_at(bytes, offset, last)->Ok_0;
            &&& crate::text::precedes(previous, entry.term)
            &&& parsed(entry.positions, MAX_DOCUMENT_TOKENS) is Ok
            &&& 0 < entry_positions(entry).len()
            &&& 0 <= frequency
            &&& frequency + entry_positions(entry).len() <= tokens
            &&& forall|i: int|
                0 <= i < entry_positions(entry).len() ==> (#[trigger] entry_positions(entry)[i])
                    < tokens
        }),
    ensures
        ({
            let (entry, end) = document_term_at(bytes, offset, last)->Ok_0;
            match prefix_entry(
                bytes.take(length),
                bytes.len() as int,
                tokens,
                offset,
                previous,
                frequency,
            ) {
                Err(error) => undecided(error) && length < bytes.len(),
                Ok(read) => {
                    &&& read.term == entry.term
                    &&& read.end == end
                    &&& read.count == entry_positions(entry).len()
                    &&& beginning(
                        entry_stream(bytes.take(length), read, tokens).positions(),
                        entry_positions(entry),
                        length == bytes.len(),
                    )
                },
            }
        }),
{
    let (entry, end) = document_term_at(bytes, offset, last)->Ok_0;
    let begun = bytes.take(length);
    let len = le_u16(bytes, offset) as int;
    let start = offset + 8 + len;
    let count = le_u32(bytes, start);
    let list = entry_positions(entry);
    let size = entry.positions.len() as int;
    assert(le_u32(entry.positions, 0) == count) by {
        le_inside(bytes, start, size, 0);
    }
    let payload = entry.positions.subrange(4, size);
    decode_len(payload, 0, count as nat, 0, true);
    if offset <= length {
        let input = begun.skip(offset);
        assert(input =~= bytes.subrange(offset, offset + (length - offset)));
        le_inside(bytes, offset, length - offset, 0);
        le_inside(bytes, offset, length - offset, 2);
        le_inside(bytes, offset, length - offset, 4);
        le_inside(bytes, offset, length - offset, 8 + len);
        if 8 + len <= input.len() {
            assert(input.subrange(8, 8 + len) =~= entry.term);
        }
        if start + 4 <= length {
            let read = PrefixEntry { term: entry.term, start, end, count };
            let stream = entry_stream(begun, read, tokens);
            let reach = if end <= length {
                end
            } else {
                length
            };
            assert(payload =~= bytes.subrange(start + 4, end));
            assert(stream.source =~= payload.take(reach - (start + 4)));
            stream_begins(payload, reach - (start + 4), stream);
        }
    }
}

/// Whether the streams met so far begin the lists of their words among the
/// entries met so far.
pub open spec fn follows(
    streams: Seq<Option<StreamModel>>,
    words: Seq<Seq<u8>>,
    entries: Seq<TermEntry>,
    tokens: u32,
    whole: bool,
) -> bool {
    &&& streams.len() == words.len()
    &&& forall|i: int|
        0 <= i < words.len() ==> stream_follows(
            #[trigger] streams[i],
            term_positions(entries, words[i]),
            tokens,
            whole,
        )
}

/// Whether a stream begins a list, and there is one where there is the other.
pub open spec fn stream_follows(
    stream: Option<StreamModel>,
    list: Option<Seq<u32>>,
    tokens: u32,
    whole: bool,
) -> bool {
    match stream {
        None => list is None,
        Some(stream) => list matches Some(list) && (beginning(stream.positions(), list, whole)
            && stream.remaining <= tokens && (whole ==> stream.complete)),
    }
}

/// A word that was met has its list, whatever entries of other terms follow.
proof fn list_stays(entries: Seq<TermEntry>, count: int, word: Seq<u8>)
    requires
        0 <= count <= entries.len(),
        term_positions(entries.take(count), word) is Some,
        forall|i: int, j: int|
            0 <= i < j < entries.len() ==> (#[trigger] entries[i]).term != (
            #[trigger] entries[j]).term,
    ensures
        term_positions(entries, word) == term_positions(entries.take(count), word),
    decreases entries.len(),
{
    if count < entries.len() {
        let front = entries.drop_last();
        assert(front.take(count) =~= entries.take(count));
        list_stays(front, count, word);
        let i = occurs(entries.take(count), word);
        assert(entries[i].term != entries[entries.len() - 1].term);
    } else {
        assert(entries.take(count) =~= entries);
    }
}

/// Where a word with a list stands.
proof fn occurs(entries: Seq<TermEntry>, word: Seq<u8>) -> (i: int)
    requires
        term_positions(entries, word) is Some,
    ensures
        0 <= i < entries.len(),
        entries[i].term == word,
    decreases entries.len(),
{
    if entries.last().term == word {
        entries.len() - 1
    } else {
        occurs(entries.drop_last(), word)
    }
}

/// The entries of a sound document from `at` on.
pub open spec fn entries_from(bytes: Seq<u8>, at: int, remaining: nat) -> Seq<TermEntry> {
    let outcomes = document_outcomes(bytes, at, remaining);
    Seq::new(outcomes.len(), |i: int| outcomes[i]->Ok_0)
}

/// What gathering streams from a prefix of a sound document comes to.
pub open spec fn gathers(
    result: Result<Option<Seq<StreamModel>>>,
    words: Seq<Seq<u8>>,
    entries: Seq<TermEntry>,
    tokens: u32,
    whole: bool,
) -> bool {
    match result {
        Err(error) => undecided(error) && !whole,
        Ok(None) => exists|i: int|
            0 <= i < words.len() && term_positions(entries, #[trigger] words[i]) is None,
        Ok(Some(streams)) => {
            &&& streams.len() == words.len()
            &&& forall|i: int|
                0 <= i < words.len() ==> stream_follows(
                    Some(#[trigger] streams[i]),
                    term_positions(entries, words[i]),
                    tokens,
                    whole,
                )
        },
    }
}

/// Gathering from the entries from `at` on, of which `count` were met.
#[verifier::rlimit(60)]
#[verifier::spinoff_prover]
proof fn gathering_begins(
    bytes: Seq<u8>,
    length: int,
    at: int,
    remaining: nat,
    tokens: u32,
    previous: Seq<u8>,
    seen: Set<int>,
    words: Seq<Seq<u8>>,
    streams: Seq<Option<StreamModel>>,
    entries: Seq<TermEntry>,
    count: int,
)
    requires
        0 <= length <= bytes.len() <= MAX_DOCUMENT_BYTES,
        0 <= at <= bytes.len(),
        remaining == 0 ==> at == bytes.len(),
        check_terms(bytes, at, remaining, tokens, previous, seen) matches Ok(all) && all.len()
            == tokens,
        seen.finite(),
        forall|i: int| #[trigger] seen.contains(i) ==> 0 <= i < tokens,
        0 <= count <= entries.len(),
        entries_from(bytes, at, remaining) == entries.skip(count),
        forall|i: int, j: int|
            0 <= i < j < entries.len() ==> (#[trigger] entries[i]).term != (
            #[trigger] entries[j]).term,
        follows(streams, words, entries.take(count), tokens, length == bytes.len()),
        !all_known(streams),
    ensures
        gathers(
            gathered(
                bytes.take(length),
                bytes.len() as int,
                tokens,
                remaining,
                at,
                previous,
                seen.len() as int,
                words,
                streams,
            ),
            words,
            entries,
            tokens,
            length == bytes.len(),
        ),
    decreases remaining,
{
    let begun = bytes.take(length);
    let whole = length == bytes.len();
    let outcomes = document_outcomes(bytes, at, remaining);
    if remaining == 0 {
        assert(entries.skip(count).len() == 0);
        assert(entries.take(count) =~= entries);
        let i = choose|i: int| 0 <= i < streams.len() && (#[trigger] streams[i]) is None;
        assert(stream_follows(streams[i], term_positions(entries, words[i]), tokens, whole));
        assert(term_positions(entries, words[i]) is None);
    } else {
        let (entry, end) = document_term_at(bytes, at, remaining == 1)->Ok_0;
        let list = entry_positions(entry);
        let payload = entry.positions.subrange(4, entry.positions.len() as int);
        decode_len(payload, 0, le_u32(entry.positions, 0) as nat, 0, true);
        decode_increasing(payload, 0, le_u32(entry.positions, 0) as nat, 0, true);
        let more = seen.union(position_set(list));
        positions_count(seen, list);
        assert forall|i: int| #[trigger] more.contains(i) implies 0 <= i < tokens by {
            if !seen.contains(i) {
                let k = choose|k: int| 0 <= k < list.len() && list[k] == i as u32;
                assert(list[k] < tokens);
            }
        }
        positions_bounded(more, tokens as int);
        entry_begins(
            bytes,
            length,
            tokens,
            at,
            remaining == 1,
            previous,
            seen.len() as int,
        );
        let left = (remaining - 1) as nat;
        let rest = document_outcomes(bytes, end, left);
        assert(outcomes == seq![Ok::<TermEntry, Error>(entry)] + rest);
        let here = entries_from(bytes, at, remaining);
        let later = entries_from(bytes, end, left);
        assert(here.len() == later.len() + 1);
        assert(here[0] == entry);
        assert(entries.skip(count)[0] == entries[count]);
        assert(later =~= entries.skip(count + 1)) by {
            assert forall|i: int| 0 <= i < later.len() implies later[i] == entries.skip(count + 1)[i] by {
                assert(here[i + 1] == later[i]);
                assert(entries.skip(count)[i + 1] == entries[count + i + 1]);
            }
        }
        let met = entries.take(count + 1);
        assert(met.drop_last() =~= entries.take(count));
        assert(met.last() == entry);
        if let Ok(read) = prefix_entry(
            begun,
            bytes.len() as int,
            tokens,
            at,
            previous,
            seen.len() as int,
        ) {
            let now = with_entry(streams, words, begun, read, tokens);
            assert(follows(now, words, met, tokens, whole)) by {
                assert forall|i: int| 0 <= i < words.len() implies stream_follows(
                    #[trigger] now[i],
                    term_positions(met, words[i]),
                    tokens,
                    whole,
                ) by {
                    assert(stream_follows(
                        streams[i],
                        term_positions(entries.take(count), words[i]),
                        tokens,
                        whole,
                    ));
                }
            }
            if all_known(now) {
                let found = known(now);
                assert forall|i: int| 0 <= i < words.len() implies stream_follows(
                    Some(#[trigger] found[i]),
                    term_positions(entries, words[i]),
                    tokens,
                    whole,
                ) by {
                    assert(now[i] is Some);
                    assert(stream_follows(now[i], term_positions(met, words[i]), tokens, whole));
                    list_stays(entries, count + 1, words[i]);
                }
            } else {
                assert(end <= bytes.len());
                gathering_begins(
                    bytes,
                    length,
                    end,
                    left,
                    tokens,
                    entry.term,
                    more,
                    words,
                    now,
                    entries,
                    count + 1,
                );
            }
        }
    }
}

/// Gathering from a prefix of a sound document.
proof fn prefix_begins(bytes: Seq<u8>, length: int, words: Seq<Seq<u8>>)
    requires
        validated(bytes) is Ok,
        0 <= length <= bytes.len(),
        words.len() > 0,
    ensures
        ({
            let (tokens, terms) = validated(bytes)->Ok_0;
            gathers(
                prefix_streams(bytes.take(length), bytes.len() as int, tokens, terms, words),
                words,
                document_entries(bytes),
                tokens,
                length == bytes.len(),
            )
        }),
{
    let (tokens, terms) = validated(bytes)->Ok_0;
    let begun = bytes.take(length);
    let entries = document_entries(bytes);
    let none = Seq::new(words.len(), |i: int| None::<StreamModel>);
    validated_entries(bytes);
    validated_terms_differ(bytes);
    assert(begun =~= bytes.subrange(0, 0 + length));
    le_inside(bytes, 0, length, 4);
    le_inside(bytes, 0, length, 8);
    le_inside(bytes, 0, length, 12);
    if length >= 4 {
        assert(begun.take(4) =~= bytes.take(4));
    }
    if prefix_header(begun, tokens, terms) is Ok {
        assert(entries.skip(0) =~= entries);
        assert(entries_from(bytes, 16, terms as nat) =~= entries);
        assert(entries.take(0) =~= Seq::<TermEntry>::empty());
        assert(none[0] is None);
        assert(follows(none, words, entries.take(0), tokens, length == bytes.len()));
        gathering_begins(
            bytes,
            length,
            16,
            terms as nat,
            tokens,
            Seq::empty(),
            Set::empty(),
            words,
            none,
            entries,
            0,
        );
    }
}

/// What the beginning of a list tells of a position is true of the list.
proof fn beginning_tells(walk: Walk<u32>, list: Seq<u32>, whole: bool, position: int)
    requires
        beginning(walk, list, whole),
        increasing(list),
    ensures
        present(list_finder(walk), position) ==> 0 <= position <= u32::MAX && list.contains(
            position as u32,
        ),
        absent(list_finder(walk), position) && 0 <= position <= u32::MAX ==> !list.contains(
            position as u32,
        ),
        whole ==> list_finder(walk)(position) is Ok,
        list_finder(walk)(position) matches Err(error) ==> undecided(error),
{
    let items = walk.items;
    passed_bounds(items, position);
    let count = crate::mutable::phrase_prefix::passed(items, position);
    if present(list_finder(walk), position) {
        assert(list[count] == items[count]);
    }
    if absent(list_finder(walk), position) && 0 <= position <= u32::MAX && list.contains(
        position as u32,
    ) {
        let i = list.index_of(position as u32);
        if count < items.len() {
            assert(list[count] == items[count]);
            if i < count {
                assert(list[i] == items[i]);
                assert(items[i] < position);
            } else if i > count {
                assert(list[count] < list[i]);
            }
        } else {
            assert(items == list);
            assert(items[i] < position);
        }
    }
}

/// The lists of words.
pub open spec fn word_lists(entries: Seq<TermEntry>, words: Seq<Seq<u8>>) -> Seq<
    Option<Seq<u32>>,
> {
    Seq::new(words.len(), |i: int| term_positions(entries, words[i]))
}

/// Lists of sound entries ascend.
proof fn list_ascends(entries: Seq<TermEntry>, word: Seq<u8>)
    requires
        term_positions(entries, word) is Some,
        forall|i: int|
            0 <= i < entries.len() ==> parsed(
                (#[trigger] entries[i]).positions,
                MAX_DOCUMENT_TOKENS,
            ) is Ok,
    ensures
        increasing(term_positions(entries, word)->Some_0),
    decreases entries.len(),
{
    let entry = entries.last();
    if entry.term == word {
        assert(parsed(entries[entries.len() - 1].positions, MAX_DOCUMENT_TOKENS) is Ok);
        let payload = entry.positions.subrange(4, entry.positions.len() as int);
        decode_increasing(payload, 0, le_u32(entry.positions, 0) as nat, 0, true);
    } else {
        let front = entries.drop_last();
        assert forall|i: int| 0 <= i < front.len() implies parsed(
            (#[trigger] front[i]).positions,
            MAX_DOCUMENT_TOKENS,
        ) is Ok by {
            assert(front[i] == entries[i]);
        }
        list_ascends(front, word);
    }
}

/// What streams that begin the lists of words find out of a phrase is true.
#[verifier::rlimit(40)]
proof fn streams_tell(
    streams: Seq<StreamModel>,
    words: Seq<Seq<u8>>,
    entries: Seq<TermEntry>,
    tokens: u32,
    whole: bool,
    found: bool,
)
    requires
        gathers(Ok(Some(streams)), words, entries, tokens, whole),
        forall|i: int|
            0 <= i < entries.len() ==> parsed(
                (#[trigger] entries[i]).positions,
                MAX_DOCUMENT_TOKENS,
            ) is Ok,
        streams_witnessed(streams, prefix_work(streams), Ok(found)),
    ensures
        found == phrase_present(word_lists(entries, words)),
{
    let lists = word_lists(entries, words);
    let finders = stream_finders(streams);
    if found {
        let start = choose|start: int| #[trigger] stands_at(finders, start);
        assert forall|k: int| 0 <= k < lists.len() implies (#[trigger] lists[k]) is Some && start
            + k <= u32::MAX && lists[k]->Some_0.contains((start + k) as u32) by {
            assert(present(finders[k], start + k));
            assert(stream_follows(Some(streams[k]), lists[k], tokens, whole));
            list_ascends(entries, words[k]);
            beginning_tells(streams[k].positions(), lists[k]->Some_0, whole, start + k);
        }
        assert(phrase_at(lists, start));
    } else if phrase_present(lists) {
        let start = choose|start: int| 0 <= start && #[trigger] phrase_at(lists, start);
        assert(fails_at(finders, start));
        let k = choose|k: int|
            0 <= k < finders.len() && absent(#[trigger] finders[k], start + k);
        assert(lists[k] is Some);
        assert(stream_follows(Some(streams[k]), lists[k], tokens, whole));
        list_ascends(entries, words[k]);
        beginning_tells(streams[k].positions(), lists[k]->Some_0, whole, start + k);
    }
}

/// A search over streams that begin sound lists ends in no error but for what
/// is missing.
proof fn streams_err(
    streams: Seq<StreamModel>,
    words: Seq<Seq<u8>>,
    entries: Seq<TermEntry>,
    tokens: u32,
    whole: bool,
    error: Error,
)
    requires
        gathers(Ok(Some(streams)), words, entries, tokens, whole),
        forall|i: int|
            0 <= i < entries.len() ==> parsed(
                (#[trigger] entries[i]).positions,
                MAX_DOCUMENT_TOKENS,
            ) is Ok,
        seeks_fail(streams, error),
    ensures
        undecided(error),
        !whole,
{
    let finders = stream_finders(streams);
    let (i, target) = choose|i: int, target: int|
        0 <= i < finders.len() && #[trigger] finders[i](target) == Err::<Option<u32>, Error>(error);
    assert(stream_follows(
        Some(streams[i]),
        term_positions(entries, words[i]),
        tokens,
        whole,
    ));
    list_ascends(entries, words[i]);
    beginning_tells(
        streams[i].positions(),
        term_positions(entries, words[i])->Some_0,
        whole,
        target,
    );
}

/// Whether some seek over streams fails.
pub open spec fn seeks_fail(streams: Seq<StreamModel>, error: Error) -> bool {
    crate::mutable::witness::seek_fails(stream_finders(streams), error)
}

/// What any prefix of a sound document tells of a phrase is true of the whole
/// document: an answer is that of the whole, and no failure is reported. The
/// whole document always gives an answer.
#[verifier::rlimit(40)]
pub proof fn prefixes_tell_of_documents(
    bytes: Seq<u8>,
    length: int,
    phrase: Seq<String>,
    result: Result<Option<bool>>,
)
    requires
        validated(bytes) is Ok,
        0 <= length <= bytes.len(),
        0 < phrase.len() <= 64,
        ({
            let (tokens, terms) = validated(bytes)->Ok_0;
            prefix_told(
                bytes.take(length),
                bytes.len() as int,
                prefix_streams(
                    bytes.take(length),
                    bytes.len() as int,
                    tokens,
                    terms,
                    wanted_bytes(phrase),
                ),
                result,
            )
        }),
    ensures
        match result {
            Ok(Some(found)) => found == phrase_present(
                phrase_lists(document_entries(bytes), phrase),
            ),
            Ok(None) => length < bytes.len(),
            Err(_) => false,
        },
{
    let (tokens, terms) = validated(bytes)->Ok_0;
    let words = wanted_bytes(phrase);
    let entries = document_entries(bytes);
    let whole = length == bytes.len();
    let begun = bytes.take(length);
    let told = prefix_streams(begun, bytes.len() as int, tokens, terms, words);
    prefix_begins(bytes, length, words);
    validated_entries(bytes);
    let lists = word_lists(entries, words);
    assert(lists =~= phrase_lists(entries, phrase));
    match told {
        Err(error) => {
            assert(begun.len() == length);
            assert(undecided(error) && length < bytes.len());
            assert(result == Ok::<Option<bool>, Error>(None));
        },
        Ok(None) => {
            let i = choose|i: int|
                0 <= i < words.len() && term_positions(entries, #[trigger] words[i]) is None;
            if phrase_present(lists) {
                let start = choose|start: int| 0 <= start && #[trigger] phrase_at(lists, start);
                assert(lists[i] is Some);
            }
        },
        Ok(Some(streams)) => {
            match result {
                Ok(Some(found)) => {
                    streams_tell(streams, words, entries, tokens, whole, found);
                },
                Ok(None) => {},
                Err(error) => {
                    if seeks_fail(streams, error) {
                        streams_err(streams, words, entries, tokens, whole, error);
                    } else {
                        assert(error == work_limit());
                        work_suffices(streams, words, entries, tokens, whole);
                    }
                },
            }
        },
    }
}

/// Whole streams are searched with work to spare.
proof fn work_suffices(
    streams: Seq<StreamModel>,
    words: Seq<Seq<u8>>,
    entries: Seq<TermEntry>,
    tokens: u32,
    whole: bool,
)
    requires
        gathers(Ok(Some(streams)), words, entries, tokens, whole),
        words.len() <= 64,
        tokens <= MAX_DOCUMENT_TOKENS,
    ensures
        whole ==> stream_sizes(streams) < prefix_work(streams),
{
    assert forall|i: int| 0 <= i < streams.len() implies (#[trigger] streams[i]).remaining
        <= tokens by {
        assert(stream_follows(
            Some(streams[i]),
            term_positions(entries, words[i]),
            tokens,
            whole,
        ));
    }
    if whole {
        assert forall|i: int| 0 <= i < streams.len() implies (#[trigger] streams[i]).complete by {
            assert(stream_follows(
                Some(streams[i]),
                term_positions(entries, words[i]),
                tokens,
                whole,
            ));
        }
    }
    sizes_bounded(streams, tokens);
    assert(streams.len() * tokens <= 64 * 262_144) by (nonlinear_arith)
        requires
            streams.len() <= 64,
            tokens <= 262_144,
    ;
}

} // verus!
