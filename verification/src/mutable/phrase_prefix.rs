//! Bounded phrase witnesses from a document prefix; unused tails stay unread.

use crate::analysis::PROFILE_ID;
use crate::codec::bytes::{extent, group_bytes, le_u16, le_u32, var_u32_at, Reader};
use crate::codec::ErrorKind;
use crate::error::{lift, Error, Result};
use crate::mutable::document::{
    document_magic, string_bytes, MAX_DOCUMENT_BYTES, MAX_DOCUMENT_TOKENS, MAX_TERM_BYTES,
};
use crate::mutable::page::model::{broken, cut_short};
use crate::codec::positions::increasing;
use crate::mutable::walk::Walk;
use crate::mutable::witness::{
    all_unread, consistent, finders, phrase_fails, phrase_stands, seek_fails, witness, Finder,
    Seeker, POSITION_LIMIT,
};
use crate::text::{bytes_precede, precedes, same_bytes, text_bytes, utf8};
use vstd::prelude::*;
use vstd::utf8::valid_utf8;

verus! {

broadcast use group_bytes;

/// A counted stream of deltas that is read on demand.
#[derive(Clone, Copy)]
pub struct Stream<'a> {
    pub reader: Reader<'a>,
    pub remaining: u32,
    pub previous: u32,
    pub first: bool,
    pub tokens: u32,
    pub complete: bool,
}

/// What a stream has left: its bytes from `at` on.
#[verifier::ext_equal]
pub struct StreamModel {
    pub source: Seq<u8>,
    pub at: int,
    pub remaining: nat,
    pub previous: u32,
    pub first: bool,
    pub tokens: u32,
    pub complete: bool,
}

impl<'a> View for Stream<'a> {
    type V = StreamModel;

    open spec fn view(&self) -> StreamModel {
        StreamModel {
            source: self.reader.source(),
            at: self.reader.spec_offset() as int,
            remaining: self.remaining as nat,
            previous: self.previous,
            first: self.first,
            tokens: self.tokens,
            complete: self.complete,
        }
    }
}

/// The failure of a search that may take no more steps.
pub open spec fn work_limit() -> Error {
    Error::Limit("prefix position work")
}

/// The result of a seek, and what is left of the stream and of the work.
#[verifier::ext_equal]
pub struct Sought {
    pub value: Result<Option<u32>>,
    pub stream: StreamModel,
    pub work: nat,
}

impl StreamModel {
    /// The next position and the stream behind it.
    pub open spec fn step(self) -> Result<Option<(u32, StreamModel)>> {
        if self.remaining == 0 {
            Ok(None)
        } else {
            match var_u32_at(self.source, self.at) {
                Err(error) => Err(Error::Codec(error)),
                Ok((delta, len)) => {
                    let position = self.previous + delta;
                    let end = self.at + len;
                    if (!self.first && delta == 0) || position > u32::MAX || position
                        >= self.tokens {
                        Err(Error::InvalidDocument)
                    } else if self.remaining == 1 && self.complete && end != self.source.len() {
                        Err(broken(end, ErrorKind::TrailingBytes))
                    } else {
                        Ok(
                            Some(
                                (
                                    position as u32,
                                    StreamModel {
                                        at: end,
                                        remaining: (self.remaining - 1) as nat,
                                        previous: position as u32,
                                        first: false,
                                        ..self
                                    },
                                ),
                            ),
                        )
                    }
                },
            }
        }
    }

    /// The first position that is not below the target, found one by one.
    pub open spec fn seek(self, target: u32, work: nat) -> Sought
        decreases work,
    {
        if work == 0 {
            Sought { value: Err(work_limit()), stream: self, work: 0 }
        } else {
            let left = (work - 1) as nat;
            match self.step() {
                Err(error) => Sought { value: Err(error), stream: self, work: left },
                Ok(None) => Sought { value: Ok(None), stream: self, work: left },
                Ok(Some((position, rest))) => if position >= target {
                    Sought { value: Ok(Some(position)), stream: rest, work: left }
                } else {
                    rest.seek(target, left)
                },
            }
        }
    }

    /// The positions of the stream, up to its end or its first failure.
    pub open spec fn positions(self) -> Walk<u32>
        decreases self.remaining,
    {
        match self.step() {
            Err(error) => Walk::failed(error),
            Ok(None) => Walk::nothing(),
            Ok(Some((position, rest))) => if rest.remaining < self.remaining {
                Walk::one(position).and(rest.positions())
            } else {
                Walk::nothing()
            },
        }
    }

    /// The stream behind a run of deltas of one.
    pub open spec fn skipped(self, run: int) -> StreamModel {
        StreamModel {
            at: self.at + run,
            remaining: (self.remaining - run) as nat,
            previous: (self.previous + run) as u32,
            ..self
        }
    }
}

/// Whether a run of deltas of one stands next.
pub open spec fn dense(stream: StreamModel, run: int) -> bool {
    &&& 0 <= stream.at && stream.at + run <= stream.source.len()
    &&& forall|i: int| stream.at <= i < stream.at + run ==> (#[trigger] stream.source[i]) == 1
}

/// Skipping a run of deltas of one is the same as reading them one by one.
proof fn skip_equals_steps(stream: StreamModel, target: u32, work: nat, run: int)
    requires
        !stream.first,
        0 < run <= work,
        run <= stream.remaining,
        dense(stream, run),
        stream.at + run <= usize::MAX,
        stream.previous + run < target,
    ensures
        stream.previous + run >= stream.tokens ==> stream.seek(target, work).value == Err::<
            Option<u32>,
            Error,
        >(Error::InvalidDocument),
        stream.previous + run < stream.tokens ==> {
            let end = stream.at + run;
            if stream.remaining == run && stream.complete && end != stream.source.len() {
                stream.seek(target, work).value == Err::<Option<u32>, Error>(
                    broken(end, ErrorKind::TrailingBytes),
                )
            } else {
                stream.seek(target, work) == stream.skipped(run).seek(target, (work - run) as nat)
            }
        },
    decreases run,
{
    assert(stream.source[stream.at] == 1);
    reveal_with_fuel(crate::codec::bytes::var_groups, 2);
    assert(var_u32_at(stream.source, stream.at) == Ok::<(nat, nat), crate::codec::Error>((1, 1)));
    if stream.previous + 1 < stream.tokens {
        if run == 1 {
            assert(stream.skipped(1).at == stream.at + 1);
        } else {
            let rest = stream.skipped(1);
            assert(stream.step() == Ok::<Option<(u32, StreamModel)>, Error>(
                Some(((stream.previous + 1) as u32, rest)),
            ));
            skip_equals_steps(rest, target, (work - 1) as nat, run - 1);
            assert(rest.skipped(run - 1) =~= stream.skipped(run));
        }
    }
}

impl<'a> Stream<'a> {
    /// Skips dense canonical delta runs without visiting each occurrence. Work
    /// remains charged per occurrence, so the outcome is that of reading the
    /// positions one by one.
    #[verifier::loop_isolation(false)]
    pub fn seek_ge(&mut self, target: u32, work: &mut usize) -> (result: Result<Option<u32>>)
        ensures
            result == old(self)@.seek(target, *old(work) as nat).value,
            result is Ok || result == Err::<Option<u32>, Error>(work_limit()) ==> final(self)@ == old(self)@.seek(target, *old(work) as nat).stream && *final(work) == old(self)@.seek(
                target,
                *old(work) as nat,
            ).work,
    {
        let ghost total = self@.seek(target, *work as nat);
        loop
            invariant
                total == self@.seek(target, *work as nat),
            decreases *work,
        {
            if self.skip_dense(256, target, work)? {
                continue;
            }
            if self.skip_dense(32, target, work)? {
                continue;
            }
            let value: Option<u32> = advance(self, work)?;
            match value {
                Some(position) => {
                    if position >= target {
                        return Ok(value);
                    }
                },
                None => {
                    return Ok(value);
                },
            }
        }
    }

    /// Skips a run of deltas of one that stays below the target.
    fn skip_dense(&mut self, run: usize, target: u32, work: &mut usize) -> (result: Result<bool>)
        requires
            0 < run <= 256,
        ensures
            match result {
                Ok(true) => *final(work) < *old(work) && old(self)@.seek(target, *old(work) as nat)
                    == final(self)@.seek(target, *final(work) as nat),
                Ok(false) => final(self)@ == old(self)@ && *final(work) == *old(work),
                Err(error) => error != work_limit() && old(self)@.seek(
                    target,
                    *old(work) as nat,
                ).value == Err::<Option<u32>, Error>(error),
            },
    {
        let before: Stream<'a> = *self;
        if before.first || before.remaining < run as u32 || *work < run
            || before.reader.remaining() < run {
            return Ok(false);
        }
        if before.previous > u32::MAX - run as u32 {
            return Ok(false);
        }
        let end: u32 = before.previous + run as u32;
        if end >= target {
            return Ok(false);
        }
        let mut probe: Reader<'a> = before.reader;
        let bytes: &[u8] = lift(probe.take(run))?;
        if !all_ones(bytes) {
            return Ok(false);
        }
        proof {
            assert forall|i: int| before@.at <= i < before@.at + run implies (
            #[trigger] before@.source[i]) == 1 by {
                assert(bytes@[i - before@.at] == 1);
            }
            skip_equals_steps(before@, target, *work as nat, run as int);
        }
        if end >= before.tokens {
            return Err(Error::InvalidDocument);
        }
        let remaining: u32 = before.remaining - run as u32;
        if remaining == 0 && before.complete {
            lift(probe.finish())?;
        }
        *self = Stream { reader: probe, remaining, previous: end, ..before };
        assert(self@ =~= before@.skipped(run as int));
        *work = *work - run;
        Ok(true)
    }

    /// Reads the next position; a failure leaves the stream as it was.
    pub fn next(&mut self) -> (result: Result<Option<u32>>)
        ensures
            match old(self)@.step() {
                Err(error) => result == Err::<Option<u32>, Error>(error) && final(self)@ == old(self)@,
                Ok(None) => result == Ok::<Option<u32>, Error>(None) && final(self)@ == old(self)@,
                Ok(Some((position, rest))) => result == Ok::<Option<u32>, Error>(Some(position))
                    && final(self)@ == rest,
            },
    {
        let before: Stream<'a> = *self;
        if before.remaining == 0 {
            return Ok(None);
        }
        let mut reader: Reader<'a> = before.reader;
        let delta: u32 = lift(reader.var_u32())?;
        if !before.first && delta == 0 {
            return Err(Error::InvalidDocument);
        }
        if delta > u32::MAX - before.previous {
            return Err(Error::InvalidDocument);
        }
        let position: u32 = before.previous + delta;
        if position >= before.tokens {
            return Err(Error::InvalidDocument);
        }
        let remaining: u32 = before.remaining - 1;
        if remaining == 0 && before.complete {
            lift(reader.finish())?;
        }
        *self = Stream { reader, remaining, previous: position, first: false, ..before };
        Ok(Some(position))
    }
}

fn all_ones(bytes: &[u8]) -> (all: bool)
    ensures
        all == (forall|i: int| 0 <= i < bytes@.len() ==> (#[trigger] bytes@[i]) == 1),
{
    let mut i: usize = 0;
    while i < bytes.len()
        invariant
            i <= bytes@.len(),
            forall|j: int| 0 <= j < i ==> (#[trigger] bytes@[j]) == 1,
        decreases bytes@.len() - i,
    {
        if bytes[i] != 1 {
            return false;
        }
        i += 1;
    }
    true
}

/// Reads the next position and charges one unit of work.
pub fn advance(stream: &mut Stream<'_>, work: &mut usize) -> (result: Result<Option<u32>>)
    ensures
        if *old(work) == 0 {
            result == Err::<Option<u32>, Error>(work_limit()) && final(stream)@ == old(stream)@
                && *final(work) == 0
        } else {
            *final(work) == *old(work) - 1 && match old(stream)@.step() {
                Err(error) => result == Err::<Option<u32>, Error>(error) && final(stream)@ == old(stream)@,
                Ok(None) => result == Ok::<Option<u32>, Error>(None) && final(stream)@ == old(stream)@,
                Ok(Some((position, rest))) => result == Ok::<Option<u32>, Error>(Some(position))
                    && final(stream)@ == rest,
            }
        },
{
    if *work == 0 {
        return Err(Error::Limit("prefix position work"));
    }
    *work = *work - 1;
    stream.next()
}

/// How many leading positions lie below the target.
pub open spec fn passed(items: Seq<u32>, target: int) -> int
    decreases items.len(),
{
    if items.len() == 0 || items[0] >= target {
        0
    } else {
        1 + passed(items.drop_first(), target)
    }
}

/// The first position of a list at or behind a target; where none follows, how
/// the list ends.
pub open spec fn sought_in(walk: Walk<u32>, target: int) -> Result<Option<u32>> {
    let count = passed(walk.items, target);
    if count < walk.items.len() {
        Ok(Some(walk.items[count]))
    } else {
        match walk.end {
            Ok(_) => Ok(None),
            Err(error) => Err(error),
        }
    }
}

/// The answers of a list of positions.
pub open spec fn list_finder(walk: Walk<u32>) -> Finder {
    |target: int| sought_in(walk, target)
}

pub proof fn passed_bounds(items: Seq<u32>, target: int)
    ensures
        0 <= passed(items, target) <= items.len(),
        forall|i: int| 0 <= i < passed(items, target) ==> (#[trigger] items[i]) < target,
        passed(items, target) < items.len() ==> items[passed(items, target)] >= target,
    decreases items.len(),
{
    if items.len() > 0 && items[0] < target {
        let rest = items.drop_first();
        passed_bounds(rest, target);
        assert forall|i: int| 0 <= i < passed(items, target) implies (#[trigger] items[i])
            < target by {
            if i > 0 {
                assert(rest[i - 1] == items[i]);
            }
        }
    }
}

pub proof fn passed_unique(items: Seq<u32>, target: int, count: int)
    requires
        0 <= count <= items.len(),
        forall|i: int| 0 <= i < count ==> (#[trigger] items[i]) < target,
        count < items.len() ==> items[count] >= target,
    ensures
        passed(items, target) == count,
    decreases items.len(),
{
    if count > 0 {
        assert(items[0] < target);
        let rest = items.drop_first();
        assert forall|i: int| 0 <= i < count - 1 implies (#[trigger] rest[i]) < target by {
            assert(rest[i] == items[i + 1]);
        }
        passed_unique(rest, target, count - 1);
    }
}

/// Ascending lists give answers that fit together.
pub proof fn list_consistent(walk: Walk<u32>)
    requires
        increasing(walk.items),
        forall|i: int| 0 <= i < walk.items.len() ==> (#[trigger] walk.items[i]) < POSITION_LIMIT,
    ensures
        consistent(list_finder(walk)),
{
    let finder = list_finder(walk);
    assert forall|target: int| #![trigger finder(target)] true implies (finder(target) matches Ok(
        Some(position),
    ) ==> target <= position < POSITION_LIMIT) by {
        passed_bounds(walk.items, target);
    }
    assert forall|target: int, later: int|
        #![trigger finder(target), finder(later)]
        target <= later implies match finder(target) {
        Ok(Some(position)) => later <= position ==> finder(later) == finder(target),
        Ok(None) => finder(later) == finder(target),
        Err(_) => true,
    } by {
        passed_bounds(walk.items, target);
        let count = passed(walk.items, target);
        if count < walk.items.len() {
            if later <= walk.items[count] {
                passed_unique(walk.items, later, count);
            }
        } else {
            passed_unique(walk.items, later, count);
        }
    }
}

/// The positions of a stream ascend from the last one read and lie below the
/// number of tokens.
pub proof fn positions_ascend(stream: StreamModel)
    ensures
        increasing(stream.positions().items),
        forall|i: int|
            0 <= i < stream.positions().items.len() ==> (#[trigger] stream.positions().items[i])
                < stream.tokens && stream.positions().items[i] >= stream.previous && (!stream.first
                ==> stream.positions().items[i] > stream.previous),
        stream.positions().items.len() <= stream.remaining,
    decreases stream.remaining,
{
    if let Ok(Some((position, rest))) = stream.step() {
        positions_ascend(rest);
        let items = stream.positions().items;
        let others = rest.positions().items;
        assert(items =~= seq![position] + others);
        assert forall|i: int, j: int| 0 <= i < j < items.len() implies items[i] < items[j] by {
            assert(items[j] == others[j - 1]);
            if i > 0 {
                assert(items[i] == others[i - 1]);
            }
        }
        assert forall|i: int| 0 <= i < items.len() implies (#[trigger] items[i]) < stream.tokens
            && items[i] >= stream.previous && (!stream.first ==> items[i] > stream.previous) by {
            if i > 0 {
                assert(items[i] == others[i - 1]);
            }
        }
    }
}

/// A seek passes the positions below its target, as far as the work reaches.
proof fn seek_passes(stream: StreamModel, target: u32, work: nat)
    ensures
        ({
            let list = stream.positions();
            let count = passed(list.items, target as int);
            let sought = stream.seek(target, work);
            if work <= count {
                sought.value == Err::<Option<u32>, Error>(work_limit())
            } else {
                &&& sought.value == sought_in(list, target as int)
                &&& sought.value is Ok ==> sought.work == work - count - 1 && sought.stream.tokens
                    == stream.tokens
                &&& sought.value matches Ok(Some(position)) ==> sought.stream.positions() == (Walk {
                    items: list.items.skip(count + 1),
                    end: list.end,
                })
                &&& sought.value matches Ok(None) ==> sought.stream.positions() == (Walk {
                    items: Seq::<u32>::empty(),
                    end: list.end,
                }) && sought.stream.remaining + list.items.len() == stream.remaining && (list.items.len() > 0 ==> sought.stream.previous == list.items.last())
            }
        }),
    decreases work,
{
    let list = stream.positions();
    let count = passed(list.items, target as int);
    passed_bounds(list.items, target as int);
    if work > 0 {
        if let Ok(Some((position, rest))) = stream.step() {
            let others = rest.positions();
            assert(list =~= Walk::one(position).and(others));
            assert(list.items.drop_first() =~= others.items);
            assert(list.items[0] == position);
            if position >= target {
                assert(list.items.skip(1) =~= others.items);
            } else {
                seek_passes(rest, target, (work - 1) as nat);
                let further = passed(others.items, target as int);
                assert(count == 1 + further);
                passed_bounds(others.items, target as int);
                if count < list.items.len() {
                    assert(list.items.skip(count + 1) =~= others.items.skip(further + 1));
                }
                if others.items.len() == 0 {
                    reveal_with_fuel(StreamModel::seek, 2);
                    assert(rest.step() matches Ok(Some(_)) ==> others.items.len() > 0);
                }
            }
        }
    }
}

/// A stream with the position read last.
#[derive(Clone, Copy)]
struct Cursor<'a> {
    stream: Stream<'a>,
    current: Option<u32>,
    /// All positions of the stream.
    total: Ghost<Walk<u32>>,
    /// The positions read so far.
    met: Ghost<Seq<u32>>,
}

impl<'a> Cursor<'a> {
    fn new(stream: Stream<'a>) -> (cursor: Self)
        requires
            stream@.tokens <= MAX_DOCUMENT_TOKENS,
        ensures
            cursor.valid(),
            cursor.floor() <= 0,
            cursor.unread() == stream@.positions().items.len(),
            cursor.finder() == list_finder(stream@.positions()),
    {
        proof {
            positions_ascend(stream@);
            let total = stream@.positions();
            assert(total.after(Seq::empty()) =~= total);
        }
        Cursor {
            stream,
            current: None,
            total: Ghost(stream@.positions()),
            met: Ghost(Seq::empty()),
        }
    }
}

impl<'a> Seeker<(), usize> for Cursor<'a> {
    closed spec fn finder(&self) -> Finder {
        list_finder(self.total@)
    }

    closed spec fn floor(&self) -> int {
        if self.met@.len() <= 1 {
            0
        } else {
            self.met@[self.met@.len() - 2] + 1
        }
    }

    closed spec fn valid(&self) -> bool {
        &&& self.total@ == self.stream@.positions().after(self.met@)
        &&& increasing(self.total@.items)
        &&& forall|i: int|
            0 <= i < self.total@.items.len() ==> (#[trigger] self.total@.items[i]) < POSITION_LIMIT
        &&& self.current == if self.met@.len() == 0 {
            None
        } else {
            Some(self.met@.last())
        }
    }

    closed spec fn unread(&self) -> nat {
        self.stream@.positions().items.len()
    }

    closed spec fn steps(context: ((), usize)) -> nat {
        context.1 as nat
    }

    open spec fn exhausted() -> Error {
        work_limit()
    }

    open spec fn dependable(context: ((), usize)) -> bool {
        true
    }

    open spec fn serves(&self, context: ((), usize)) -> bool {
        true
    }

    open spec fn same_context(context: ((), usize), other: ((), usize)) -> bool {
        true
    }

    proof fn finder_consistent(&self) {
        list_consistent(self.total@);
    }

    proof fn served(&self, context: ((), usize), other: ((), usize)) {
    }

    proof fn same_transitive(first: ((), usize), second: ((), usize), third: ((), usize)) {
    }

    #[verifier::spinoff_prover]
    #[verifier::rlimit(80)]
    fn seek(&mut self, _source: &mut (), context: &mut usize, target: u32) -> (result: Result<Option<u32>>) {
        let ghost total = self.total@;
        let ghost met = self.met@;
        if let Some(position) = self.current {
            if position >= target {
                proof {
                    assert forall|i: int| 0 <= i < met.len() - 1 implies (#[trigger] total.items[i])
                        < target by {
                        assert(total.items[i] == met[i]);
                        assert(total.items[met.len() - 2] == met[met.len() - 2]);
                        assert(i < met.len() - 2 ==> total.items[i] < total.items[met.len() - 2]);
                    }
                    assert(total.items[met.len() - 1] == met.last());
                    passed_unique(total.items, target as int, met.len() - 1);
                }
                return Ok(self.current);
            }
        }
        let ghost list = self.stream@.positions();
        let ghost count = passed(list.items, target as int);
        let mut stream: Stream<'a> = self.stream;
        proof {
            seek_passes(stream@, target, *context as nat);
            passed_bounds(list.items, target as int);
            assert forall|i: int| 0 <= i < met.len() + count implies (#[trigger] total.items[i])
                < target by {
                if i < met.len() {
                    assert(total.items[i] == met[i]);
                    assert(total.items[met.len() - 1] == met.last());
                    assert(i < met.len() - 1 ==> total.items[i] < total.items[met.len() - 1]);
                } else {
                    assert(total.items[i] == list.items[i - met.len()]);
                }
            }
            if count < list.items.len() {
                assert(total.items[met.len() + count] == list.items[count]);
            }
            passed_unique(total.items, target as int, met.len() + count);
        }
        let value: Option<u32> = match stream.seek_ge(target, context) {
            Ok(value) => value,
            Err(error) => {
                return Err(error);
            },
        };
        match value {
            Some(position) => {
                let ghost now = met + list.items.take(count + 1);
                proof {
                    assert(stream@.positions().after(now) =~= total);
                    assert(now.last() == position);
                    if now.len() > 1 {
                        assert(now[now.len() - 2] == total.items[met.len() + count - 1]);
                    }
                }
                *self = Cursor {
                    stream,
                    current: Some(position),
                    total: self.total,
                    met: Ghost(now),
                };
            },
            None => {
                let ghost now = met + list.items;
                proof {
                    assert(stream@.positions().after(now) =~= total);
                    if now.len() > 1 {
                        assert(now[now.len() - 2] == total.items[now.len() - 2]);
                    }
                }
                let current: Option<u32> = if self.stream.remaining == stream.remaining {
                    self.current
                } else {
                    Some(stream.previous)
                };
                *self = Cursor { stream, current, total: self.total, met: Ghost(now) };
            },
        }
        Ok(value)
    }
}

/// The streams of a phrase, one a word, as far as they were met.
pub open spec fn stream_of(stream: Option<Stream<'_>>) -> Option<StreamModel> {
    match stream {
        Some(stream) => Some(stream@),
        None => None,
    }
}

/// The positions of each stream, as answers of seeks.
pub open spec fn stream_finders(streams: Seq<StreamModel>) -> Seq<Finder> {
    Seq::new(streams.len(), |i: int| list_finder(streams[i].positions()))
}

/// How many positions the streams hold.
pub open spec fn stream_sizes(streams: Seq<StreamModel>) -> nat
    decreases streams.len(),
{
    if streams.len() == 0 {
        0
    } else {
        stream_sizes(streams.drop_last()) + streams.last().positions().items.len()
    }
}

/// What the search over streams finds out with the given work.
pub open spec fn streams_witnessed(streams: Seq<StreamModel>, work: nat, result: Result<bool>) -> bool {
    match result {
        Ok(true) => phrase_stands(stream_finders(streams)),
        Ok(false) => phrase_fails(stream_finders(streams)),
        Err(error) => seek_fails(stream_finders(streams), error) || (error == work_limit() && work
            <= stream_sizes(streams)),
    }
}

/// Searches the phrase over the streams, the rarest word first.
#[verifier::loop_isolation(false)]
fn search(streams: &Vec<Stream<'_>>, work: usize) -> (result: Result<bool>)
    requires
        0 < streams@.len() <= 64,
        forall|i: int|
            0 <= i < streams@.len() ==> (#[trigger] streams@[i])@.tokens <= MAX_DOCUMENT_TOKENS,
    ensures
        streams_witnessed(streams@.map_values(|stream: Stream<'_>| stream@), work as nat, result),
{
    let mut cursors: Vec<Cursor<'_>> = Vec::new();
    let mut anchor: usize = 0;
    let mut index: usize = 0;
    let ghost models = streams@.map_values(|stream: Stream<'_>| stream@);
    assert(stream_finders(models).take(0) =~= finders::<(), usize, Cursor<'_>>(cursors@));
    while index < streams.len()
        invariant
            index <= streams@.len(),
            anchor < streams@.len(),
            cursors@.len() == index,
            forall|i: int|
                0 <= i < index ==> (#[trigger] cursors@[i]).valid() && cursors@[i].floor() <= 0,
            finders::<(), usize, Cursor<'_>>(cursors@) == stream_finders(models).take(index as int),
            all_unread::<(), usize, Cursor<'_>>(cursors@) == stream_sizes(models.take(index as int)),
        decreases streams@.len() - index,
    {
        let ghost before = cursors@;
        if streams[index].remaining < streams[anchor].remaining {
            anchor = index;
        }
        cursors.push(Cursor::new(streams[index]));
        proof {
            assert(cursors@.drop_last() =~= before);
            assert(models.take(index + 1).drop_last() =~= models.take(index as int));
            assert(finders::<(), usize, Cursor<'_>>(cursors@) =~= stream_finders(models).take(
                index + 1,
            ));
        }
        index += 1;
    }
    let mut left: usize = work;
    proof {
        assert(models.take(index as int) =~= models);
        assert(stream_finders(models).take(index as int) =~= stream_finders(models));
    }
    let mut source: () = ();
    witness(&mut cursors, &mut source, &mut left, anchor)
}

pub(crate) proof fn sizes_bounded(streams: Seq<StreamModel>, tokens: u32)
    requires
        streams.len() <= 64,
        forall|i: int| 0 <= i < streams.len() ==> (#[trigger] streams[i]).remaining <= tokens,
    ensures
        stream_sizes(streams) <= streams.len() * tokens,
    decreases streams.len(),
{
    if streams.len() > 0 {
        sizes_bounded(streams.drop_last(), tokens);
        assert(streams[streams.len() - 1].remaining <= tokens);
        positions_ascend(streams.last());
        assert((streams.len() - 1) * tokens + tokens == streams.len() * tokens) by (nonlinear_arith);
    }
}

/// A counted stream as it is stored.
pub open spec fn counted_stream(payload: Seq<u8>, tokens: u32) -> Result<StreamModel> {
    match extent(payload, 0, 4) {
        Err(error) => Err(Error::Codec(error)),
        Ok(_) => {
            let count = le_u32(payload, 0);
            if count == 0 || count > tokens || count > payload.len() - 4 {
                Err(Error::InvalidDocument)
            } else {
                Ok(
                    StreamModel {
                        source: payload,
                        at: 4,
                        remaining: count as nat,
                        previous: 0,
                        first: true,
                        tokens,
                        complete: true,
                    },
                )
            }
        },
    }
}

/// The streams that payloads hold, or the failure of the first that holds none.
pub open spec fn counted_streams(payloads: Seq<&[u8]>, tokens: u32) -> Result<Seq<StreamModel>>
    decreases payloads.len(),
{
    if payloads.len() == 0 {
        Ok(Seq::empty())
    } else {
        match counted_streams(payloads.drop_last(), tokens) {
            Err(error) => Err(error),
            Ok(streams) => match counted_stream(payloads.last()@, tokens) {
                Err(error) => Err(error),
                Ok(stream) => Ok(streams.push(stream)),
            },
        }
    }
}

proof fn streams_fail(payloads: Seq<&[u8]>, tokens: u32, index: int)
    requires
        0 <= index <= payloads.len(),
        counted_streams(payloads.take(index), tokens) is Err,
    ensures
        counted_streams(payloads, tokens) == counted_streams(payloads.take(index), tokens),
    decreases payloads.len() - index,
{
    if index < payloads.len() {
        assert(payloads.take(index + 1).drop_last() =~= payloads.take(index));
        streams_fail(payloads, tokens, index + 1);
    } else {
        assert(payloads.take(index) =~= payloads);
    }
}

/// Searches a phrase over complete counted streams.
///
/// # Errors
/// Rejects malformed counts, and deltas as far as they are read.
#[verifier::loop_isolation(false)]
pub fn matches_positions(payloads: &[&[u8]], tokens: u32) -> (result: Result<bool>)
    ensures
        if payloads@.len() == 0 || payloads@.len() > 64 || tokens > MAX_DOCUMENT_TOKENS {
            result == Err::<bool, Error>(Error::InvalidDocument)
        } else {
            match counted_streams(payloads@, tokens) {
                Err(error) => result == Err::<bool, Error>(error),
                Ok(streams) => match result {
                    Ok(true) => phrase_stands(stream_finders(streams)),
                    Ok(false) => phrase_fails(stream_finders(streams)),
                    Err(error) => seek_fails(stream_finders(streams), error),
                },
            }
        },
{
    if payloads.len() == 0 || payloads.len() > 64 || tokens > MAX_DOCUMENT_TOKENS {
        return Err(Error::InvalidDocument);
    }
    let mut streams: Vec<Stream<'_>> = Vec::new();
    let mut index: usize = 0;
    let ghost view = |stream: Stream<'_>| stream@;
    assert(payloads@.take(0) =~= Seq::<&[u8]>::empty());
    assert(streams@.map_values(view) =~= Seq::<StreamModel>::empty());
    while index < payloads.len()
        invariant
            index <= payloads@.len(),
            streams@.len() == index,
            forall|i: int|
                0 <= i < index ==> (#[trigger] streams@[i])@.tokens == tokens
                    && streams@[i].remaining <= tokens,
            counted_streams(payloads@.take(index as int), tokens) == Ok::<Seq<StreamModel>, Error>(
                streams@.map_values(view),
            ),
        decreases payloads@.len() - index,
    {
        let ghost before = streams@;
        proof {
            assert(payloads@.take(index + 1).drop_last() =~= payloads@.take(index as int));
            if counted_stream(payloads@[index as int]@, tokens) is Err {
                streams_fail(payloads@, tokens, index + 1);
            }
        }
        let mut reader: Reader<'_> = Reader::new(payloads[index]);
        let count: u32 = lift(reader.u32())?;
        if count == 0 || count > tokens || count as usize > reader.remaining() {
            return Err(Error::InvalidDocument);
        }
        streams.push(
            Stream { reader, remaining: count, previous: 0, first: true, tokens, complete: true },
        );
        assert(streams@.map_values(view) =~= before.map_values(view).push(
            counted_stream(payloads@[index as int]@, tokens)->Ok_0,
        ));
        index += 1;
    }
    assert(payloads@.take(index as int) =~= payloads@);
    let ghost models = streams@.map_values(view);
    proof {
        assert forall|i: int| 0 <= i < models.len() implies (#[trigger] models[i]).remaining
            <= tokens by {
            assert(streams@[i].remaining <= tokens);
        }
        sizes_bounded(models, tokens);
        assert(models.len() * tokens <= 64 * 262_144) by (nonlinear_arith)
            requires
                models.len() <= 64,
                tokens <= 262_144,
        ;
    }
    search(&streams, usize::MAX)
}

/// A term entry of a document prefix: where its positions stand, and how many.
#[verifier::ext_equal]
pub struct PrefixEntry {
    pub term: Seq<u8>,
    pub start: int,
    pub end: int,
    pub count: u32,
}

/// The term entry at `offset` of the first bytes of a document of `total` bytes.
pub open spec fn prefix_entry(
    bytes: Seq<u8>,
    total: int,
    tokens: u32,
    offset: int,
    previous: Seq<u8>,
    frequency: int,
) -> Result<PrefixEntry> {
    if offset > bytes.len() {
        Err(cut_short(offset))
    } else {
        let input = bytes.skip(offset);
        let len = le_u16(input, 0) as int;
        let size = le_u32(input, 4) as int;
        let term = input.subrange(8, 8 + len);
        let start = offset + 8 + len;
        let end = start + size;
        let count = le_u32(input, 8 + len);
        if extent(input, 0, 2) is Err {
            Err(Error::Codec(extent(input, 0, 2)->Err_0))
        } else if len == 0 || len > MAX_TERM_BYTES {
            Err(Error::InvalidDocument)
        } else if extent(input, 2, 2) is Err {
            Err(Error::Codec(extent(input, 2, 2)->Err_0))
        } else if le_u16(input, 2) != 0 {
            Err(Error::InvalidDocument)
        } else if extent(input, 4, 4) is Err {
            Err(Error::Codec(extent(input, 4, 4)->Err_0))
        } else if extent(input, 8, len) is Err {
            Err(Error::Codec(extent(input, 8, len)->Err_0))
        } else if !valid_utf8(term) || !precedes(previous, term) || size < 4 || end > total {
            Err(Error::InvalidDocument)
        } else if extent(input, 8 + len, 4) is Err {
            Err(Error::Codec(extent(input, 8 + len, 4)->Err_0))
        } else if count == 0 || count > tokens || count > size - 4 || frequency + count > tokens {
            Err(Error::InvalidDocument)
        } else {
            Ok(PrefixEntry { term, start, end, count })
        }
    }
}

/// The stream of an entry, as far as the prefix reaches.
pub open spec fn entry_stream(bytes: Seq<u8>, entry: PrefixEntry, tokens: u32) -> StreamModel {
    StreamModel {
        source: bytes.subrange(
            entry.start + 4,
            if entry.end <= bytes.len() {
                entry.end
            } else {
                bytes.len() as int
            },
        ),
        at: 0,
        remaining: entry.count as nat,
        previous: 0,
        first: true,
        tokens,
        complete: entry.end <= bytes.len(),
    }
}

/// The streams after an entry was met: those of its words are known.
pub open spec fn with_entry(
    streams: Seq<Option<StreamModel>>,
    wanted: Seq<Seq<u8>>,
    bytes: Seq<u8>,
    entry: PrefixEntry,
    tokens: u32,
) -> Seq<Option<StreamModel>> {
    Seq::new(
        streams.len(),
        |i: int|
            if wanted[i] == entry.term {
                Some(entry_stream(bytes, entry, tokens))
            } else {
                streams[i]
            },
    )
}

/// Whether the streams of all words are known.
pub open spec fn all_known(streams: Seq<Option<StreamModel>>) -> bool {
    forall|i: int| 0 <= i < streams.len() ==> (#[trigger] streams[i]) is Some
}

/// The known streams.
pub open spec fn known(streams: Seq<Option<StreamModel>>) -> Seq<StreamModel> {
    Seq::new(streams.len(), |i: int| streams[i]->Some_0)
}

/// The streams of the wanted words, gathered from the entries from `offset`
/// on; `None` where the document lacks a word.
pub open spec fn gathered(
    bytes: Seq<u8>,
    total: int,
    tokens: u32,
    remaining: nat,
    offset: int,
    previous: Seq<u8>,
    frequency: int,
    wanted: Seq<Seq<u8>>,
    streams: Seq<Option<StreamModel>>,
) -> Result<Option<Seq<StreamModel>>>
    decreases remaining,
{
    if remaining == 0 {
        if offset != total || frequency != tokens {
            Err(Error::InvalidDocument)
        } else {
            Ok(None)
        }
    } else {
        match prefix_entry(bytes, total, tokens, offset, previous, frequency) {
            Err(error) => Err(error),
            Ok(entry) => {
                let streams = with_entry(streams, wanted, bytes, entry, tokens);
                if all_known(streams) {
                    Ok(Some(known(streams)))
                } else {
                    gathered(
                        bytes,
                        total,
                        tokens,
                        (remaining - 1) as nat,
                        entry.end,
                        entry.term,
                        frequency + entry.count,
                        wanted,
                        streams,
                    )
                }
            },
        }
    }
}

/// Whether the header of a prefix announces the given tokens and terms.
pub open spec fn prefix_header(bytes: Seq<u8>, tokens: u32, terms: u32) -> Result<()> {
    if bytes.len() < 4 {
        Err(cut_short(0))
    } else if bytes.take(4) != document_magic() {
        Err(Error::InvalidProfile)
    } else if bytes.len() < 8 {
        Err(cut_short(4))
    } else if le_u32(bytes, 4) != PROFILE_ID {
        Err(Error::InvalidProfile)
    } else if bytes.len() < 12 {
        Err(cut_short(8))
    } else if le_u32(bytes, 8) != tokens {
        Err(Error::InvalidDocument)
    } else if bytes.len() < 16 {
        Err(cut_short(12))
    } else if le_u32(bytes, 12) != terms {
        Err(Error::InvalidDocument)
    } else {
        Ok(())
    }
}

/// The bytes of each wanted word.
pub open spec fn wanted_bytes(wanted: Seq<String>) -> Seq<Seq<u8>> {
    Seq::new(wanted.len(), |i: int| string_bytes(wanted[i]))
}

/// The streams of the wanted words in a document prefix.
pub open spec fn prefix_streams(
    bytes: Seq<u8>,
    total: int,
    tokens: u32,
    terms: u32,
    wanted: Seq<Seq<u8>>,
) -> Result<Option<Seq<StreamModel>>> {
    match prefix_header(bytes, tokens, terms) {
        Err(error) => Err(error),
        Ok(_) => gathered(
            bytes,
            total,
            tokens,
            terms as nat,
            16,
            Seq::empty(),
            0,
            wanted,
            Seq::new(wanted.len(), |i: int| None),
        ),
    }
}

/// How many positions may be read: without limit where the streams are
/// complete, else a probe.
pub open spec fn prefix_work(streams: Seq<StreamModel>) -> nat {
    if forall|i: int| 0 <= i < streams.len() ==> (#[trigger] streams[i]).complete {
        usize::MAX as nat
    } else {
        256
    }
}

/// Whether a failure may be due to the missing rest of the document.
pub open spec fn undecided(error: Error) -> bool {
    error is Limit || (error matches Error::Codec(error) && error.kind
        == ErrorKind::Truncated)
}

/// What a document prefix tells of a phrase.
pub open spec fn prefix_told(
    bytes: Seq<u8>,
    total: int,
    streams: Result<Option<Seq<StreamModel>>>,
    result: Result<Option<bool>>,
) -> bool {
    match streams {
        Err(error) => result == (if undecided(error) && bytes.len() < total {
            Ok(None)
        } else {
            Err::<Option<bool>, Error>(error)
        }),
        Ok(None) => result == Ok::<Option<bool>, Error>(Some(false)),
        Ok(Some(streams)) => match result {
            Ok(Some(found)) => streams_witnessed(streams, prefix_work(streams), Ok(found)),
            Ok(None) => bytes.len() < total && exists|error: Error| #[trigger]
                undecided(error) && streams_witnessed(streams, prefix_work(streams), Err(error)),
            Err(error) => !(undecided(error) && bytes.len() < total) && streams_witnessed(
                streams,
                prefix_work(streams),
                Err(error),
            ),
        },
    }
}

/// A term entry with its text.
struct Entry<'a> {
    term: &'a str,
    start: usize,
    end: usize,
    count: u32,
}

/// Reads the term entry at `offset`.
fn read_entry<'a>(
    bytes: &'a [u8],
    total: usize,
    tokens: u32,
    offset: usize,
    previous: &str,
    frequency: u32,
) -> (result: Result<Entry<'a>>)
    requires
        total <= MAX_DOCUMENT_BYTES,
        offset <= total,
        bytes@.len() <= total,
    ensures
        match prefix_entry(
            bytes@,
            total as int,
            tokens,
            offset as int,
            text_bytes(previous),
            frequency as int,
        ) {
            Err(error) => result matches Err(e) && e == error,
            Ok(model) => result matches Ok(entry) && text_bytes(entry.term) == model.term
                && entry.start == model.start && entry.end == model.end && entry.count
                == model.count && model.start + 4 <= bytes@.len() && model.start + 4 <= model.end
                && model.end <= total,
        },
{
    if offset > bytes.len() {
        return Err(Error::Codec(crate::codec::Error::new(offset, ErrorKind::Truncated)));
    }
    let input: &'a [u8] = &bytes[offset..bytes.len()];
    assert(input@ =~= bytes@.skip(offset as int));
    let mut entry: Reader<'a> = Reader::new(input);
    let len: usize = lift(entry.u16())? as usize;
    if len == 0 || len > MAX_TERM_BYTES {
        return Err(Error::InvalidDocument);
    }
    if lift(entry.u16())? != 0 {
        return Err(Error::InvalidDocument);
    }
    let size: usize = lift(entry.u32())? as usize;
    let name: &'a [u8] = lift(entry.take(len))?;
    let term: &'a str = match utf8(name) {
        Some(term) => term,
        None => {
            return Err(Error::InvalidDocument);
        },
    };
    if !bytes_precede(previous.as_bytes(), term.as_bytes()) || size < 4 {
        return Err(Error::InvalidDocument);
    }
    let start: usize = offset + entry.offset();
    if size > total || start > total - size {
        return Err(Error::InvalidDocument);
    }
    let end: usize = start + size;
    let count: u32 = lift(entry.u32())?;
    if count == 0 || count > tokens || count as usize > size - 4 {
        return Err(Error::InvalidDocument);
    }
    if count > u32::MAX - frequency || frequency + count > tokens {
        return Err(Error::InvalidDocument);
    }
    Ok(Entry { term, start, end, count })
}

/// The models of the streams met so far.
spec fn models(streams: Seq<Option<Stream<'_>>>) -> Seq<Option<StreamModel>> {
    Seq::new(streams.len(), |i: int| stream_of(streams[i]))
}

/// Notes the stream of an entry for each word that it names; whether all
/// streams are known now.
#[verifier::loop_isolation(false)]
fn note_entry<'a>(
    streams: &mut Vec<Option<Stream<'a>>>,
    wanted: &[String],
    bytes: &'a [u8],
    entry: &Entry<'a>,
    tokens: u32,
) -> (complete: bool)
    requires
        old(streams)@.len() == wanted@.len(),
        entry.start + 4 <= bytes@.len(),
        entry.start + 4 <= entry.end,
        forall|i: int|
            0 <= i < old(streams)@.len() ==> (#[trigger] old(streams)@[i] matches Some(stream)
                ==> stream.tokens == tokens),
    ensures
        final(streams)@.len() == wanted@.len(),
        forall|i: int|
            0 <= i < final(streams)@.len() ==> (#[trigger] final(streams)@[i] matches Some(stream)
                ==> stream.tokens == tokens),
        ({
            let model = PrefixEntry {
                term: text_bytes(entry.term),
                start: entry.start as int,
                end: entry.end as int,
                count: entry.count,
            };
            &&& models(final(streams)@) == with_entry(
                models(old(streams)@),
                wanted_bytes(wanted@),
                bytes@,
                model,
                tokens,
            )
            &&& complete == all_known(models(final(streams)@))
        }),
{
    let ghost model = PrefixEntry {
        term: text_bytes(entry.term),
        start: entry.start as int,
        end: entry.end as int,
        count: entry.count,
    };
    let ghost goal = with_entry(models(streams@), wanted_bytes(wanted@), bytes@, model, tokens);
    let ghost begun = streams@;
    let stop: usize = if entry.end <= bytes.len() {
        entry.end
    } else {
        bytes.len()
    };
    let payload: &'a [u8] = &bytes[entry.start + 4..stop];
    let mut complete: bool = true;
    let mut index: usize = 0;
    while index < wanted.len()
        invariant
            index <= wanted@.len(),
            streams@.len() == wanted@.len(),
            forall|i: int|
                0 <= i < streams@.len() ==> (#[trigger] streams@[i] matches Some(stream)
                    ==> stream.tokens == tokens),
            forall|i: int| 0 <= i < index ==> #[trigger] stream_of(streams@[i]) == goal[i],
            forall|i: int| index <= i < streams@.len() ==> #[trigger] streams@[i] == begun[i],
            complete == (forall|i: int| 0 <= i < index ==> (#[trigger] goal[i]) is Some),
        decreases wanted@.len() - index,
    {
        assert(wanted_bytes(wanted@)[index as int] == string_bytes(wanted@[index as int]));
        if same_bytes(wanted[index].as_str().as_bytes(), entry.term.as_bytes()) {
            streams.set(
                index,
                Some(
                    Stream {
                        reader: Reader::new(payload),
                        remaining: entry.count,
                        previous: 0,
                        first: true,
                        tokens,
                        complete: entry.end <= bytes.len(),
                    },
                ),
            );
            assert(stream_of(streams@[index as int]) == goal[index as int]);
        } else {
            assert(models(begun)[index as int] == stream_of(begun[index as int]));
            if streams[index].is_none() {
                assert(goal[index as int] is None);
                complete = false;
            }
        }
        index += 1;
    }
    assert(models(streams@) =~= goal);
    complete
}

/// Evaluates the phrase on a document prefix.
#[verifier::loop_isolation(false)]
fn evaluate(bytes: &[u8], total: usize, tokens: u32, terms: u32, wanted: &[String]) -> (result:
    Result<bool>)
    requires
        0 < wanted@.len() <= 64,
        total <= MAX_DOCUMENT_BYTES,
        bytes@.len() <= total,
        tokens <= MAX_DOCUMENT_TOKENS,
    ensures
        match prefix_streams(bytes@, total as int, tokens, terms, wanted_bytes(wanted@)) {
            Err(error) => result == Err::<bool, Error>(error),
            Ok(None) => result == Ok::<bool, Error>(false),
            Ok(Some(streams)) => streams_witnessed(streams, prefix_work(streams), result),
        },
{
    let magic: [u8; 4] = [0x50, 0x44, 0x30, 0x32];
    assert(magic@ =~= document_magic());
    let mut header: Reader<'_> = Reader::new(bytes);
    if !same_bytes(lift(header.take(4))?, &magic) {
        return Err(Error::InvalidProfile);
    }
    if lift(header.u32())? != PROFILE_ID {
        return Err(Error::InvalidProfile);
    }
    if lift(header.u32())? != tokens {
        return Err(Error::InvalidDocument);
    }
    if lift(header.u32())? != terms {
        return Err(Error::InvalidDocument);
    }
    let mut offset: usize = header.offset();
    let mut previous: &str = "";
    let mut frequency: u32 = 0;
    let mut streams: Vec<Option<Stream<'_>>> = Vec::new();
    let ghost words = wanted_bytes(wanted@);
    let mut index: usize = 0;
    while index < wanted.len()
        invariant
            index <= wanted@.len(),
            streams@.len() == index,
            forall|i: int| 0 <= i < index ==> (#[trigger] streams@[i]) is None,
        decreases wanted@.len() - index,
    {
        streams.push(None);
        index += 1;
    }
    let ghost total_streams = prefix_streams(bytes@, total as int, tokens, terms, words);
    proof {
        reveal_strlit("");
        assert(text_bytes(previous) =~= Seq::<u8>::empty());
        assert(models(streams@) =~= Seq::new(words.len(), |i: int| None::<StreamModel>));
    }
    let mut entry_index: u32 = 0;
    while entry_index < terms
        invariant
            entry_index <= terms,
            offset <= total,
            streams@.len() == wanted@.len(),
            forall|i: int|
                0 <= i < streams@.len() ==> (#[trigger] streams@[i] matches Some(stream)
                    ==> stream.tokens == tokens),
            total_streams == gathered(
                bytes@,
                total as int,
                tokens,
                (terms - entry_index) as nat,
                offset as int,
                text_bytes(previous),
                frequency as int,
                words,
                models(streams@),
            ),
        decreases terms - entry_index,
    {
        let entry: Entry<'_> = read_entry(bytes, total, tokens, offset, previous, frequency)?;
        previous = entry.term;
        frequency = frequency + entry.count;
        if note_entry(&mut streams, wanted, bytes, &entry, tokens) {
            return search_known(&streams, tokens);
        }
        offset = entry.end;
        entry_index += 1;
    }
    if offset != total || frequency != tokens {
        return Err(Error::InvalidDocument);
    }
    Ok(false)
}

/// Searches over streams that are all known.
#[verifier::loop_isolation(false)]
fn search_known(streams: &Vec<Option<Stream<'_>>>, tokens: u32) -> (result: Result<bool>)
    requires
        0 < streams@.len() <= 64,
        tokens <= MAX_DOCUMENT_TOKENS,
        all_known(models(streams@)),
        forall|i: int|
            0 <= i < streams@.len() ==> (#[trigger] streams@[i] matches Some(stream)
                ==> stream.tokens == tokens),
    ensures
        streams_witnessed(
            known(models(streams@)),
            prefix_work(known(models(streams@))),
            result,
        ),
{
    let mut all: Vec<Stream<'_>> = Vec::new();
    let mut complete: bool = true;
    let mut index: usize = 0;
    let ghost goal = known(models(streams@));
    while index < streams.len()
        invariant
            index <= streams@.len(),
            all@.len() == index,
            forall|i: int|
                0 <= i < index ==> (#[trigger] all@[i])@ == goal[i] && all@[i].tokens == tokens,
            complete == (forall|i: int| 0 <= i < index ==> (#[trigger] goal[i]).complete),
        decreases streams@.len() - index,
    {
        assert(models(streams@)[index as int] is Some);
        if let Some(stream) = streams[index] {
            assert(goal[index as int] == stream@);
            if !stream.complete {
                complete = false;
            }
            all.push(stream);
        }
        index += 1;
    }
    assert(all@.map_values(|stream: Stream<'_>| stream@) =~= goal);
    search(
        &all,
        if complete {
            usize::MAX
        } else {
            256
        },
    )
}

/// Returns unknown when the supplied prefix cannot decide the phrase.
/// Only consumed directory entries and deltas are validated; use the full
/// document validator for integrity checking, including unused tails.
///
/// # Errors
/// Rejects parameters out of range and damage in what was read.
pub fn matches(bytes: &[u8], total: usize, tokens: u32, terms: u32, wanted: &[String]) -> (result:
    Result<Option<bool>>)
    ensures
        if wanted@.len() == 0 || wanted@.len() > 64 || total > MAX_DOCUMENT_BYTES || bytes@.len()
            > total || tokens > MAX_DOCUMENT_TOKENS || terms > tokens {
            result == Err::<Option<bool>, Error>(Error::InvalidDocument)
        } else {
            prefix_told(
                bytes@,
                total as int,
                prefix_streams(bytes@, total as int, tokens, terms, wanted_bytes(wanted@)),
                result,
            )
        },
{
    if wanted.len() == 0 || wanted.len() > 64 || total > MAX_DOCUMENT_BYTES || bytes.len() > total
        || tokens > MAX_DOCUMENT_TOKENS || terms > tokens {
        return Err(Error::InvalidDocument);
    }
    match evaluate(bytes, total, tokens, terms, wanted) {
        Ok(found) => Ok(Some(found)),
        Err(error) => if bytes.len() < total && is_undecided(error) {
            Ok(None)
        } else {
            Err(error)
        },
    }
}

/// Whether a failure may be due to the missing rest of the document.
fn is_undecided(error: Error) -> (answer: bool)
    ensures
        answer == undecided(error),
{
    match error {
        Error::Codec(error) => match error.kind {
            ErrorKind::Truncated => true,
            _ => false,
        },
        Error::Limit(_) => true,
        _ => false,
    }
}

} // verus!
