//! Selected phrase witnesses over a bounded external byte reader, for documents
//! that may hold their positions in blocks.

use crate::analysis::PROFILE_ID;
use crate::codec::bytes::{group_bytes, le_inside, le_u16, le_u32, var_u32_at, Reader};
use crate::codec::position_blocks::{
    checked_blocks_chained, decoded_block, decoded_shape, directory_len, opened_directory,
    DirectoryView, selected_inside, PositionBlockRequest, PositionDirectory,
};
use crate::codec::positions::increasing;
use crate::codec::source::{undisturbed, ByteSource};
use crate::error::{lift, Error, Result};
use crate::mutable::document::{
    document_magic, string_bytes, MAX_DOCUMENT_BYTES, MAX_DOCUMENT_TOKENS, MAX_TERM_BYTES,
};
use crate::memory::Scratch;
use crate::mutable::phrase_prefix::{
    list_consistent, list_finder, passed, passed_bounds, passed_unique, sought_in, wanted_bytes,
};
use crate::mutable::walk::Walk;
use crate::mutable::witness::{
    all_unread, consistent, finders, phrase_fails, phrase_stands, seek_fails, witness, Finder,
    Seeker, POSITION_LIMIT,
};
use crate::text::{bytes_precede, precedes, same_bytes, utf8};
use core::mem::size_of;
use vstd::prelude::*;
use vstd::slice::slice_subrange;
use vstd::utf8::valid_utf8;

verus! {

broadcast use group_bytes;

/// The four bytes that start a document whose positions may stand in blocks.
pub open spec fn block_document_magic() -> Seq<u8> {
    seq![0x50u8, 0x44u8, 0x30u8, 0x33u8]
}

/// A list of deltas behind its count, as far as it was read.
#[verifier::ext_equal]
pub struct DeltaModel {
    pub bytes: Seq<u8>,
    pub at: int,
    pub remaining: nat,
    pub previous: Option<u32>,
    pub tokens: u32,
}

impl DeltaModel {
    /// The next position and the list behind it; the last delta ends the bytes.
    pub open spec fn step(self) -> Result<Option<(u32, DeltaModel)>> {
        if self.remaining == 0 {
            Ok(None)
        } else {
            match var_u32_at(self.bytes.skip(self.at), 0) {
                Err(error) => Err(Error::Codec(error)),
                Ok((delta, len)) => {
                    let position = match self.previous {
                        Some(previous) => previous + delta,
                        None => delta as int,
                    };
                    if (self.previous is Some && delta == 0) || position >= self.tokens || (
                    self.remaining == 1 && self.at + len != self.bytes.len()) {
                        Err(Error::InvalidDocument)
                    } else {
                        Ok(
                            Some(
                                (
                                    position as u32,
                                    DeltaModel {
                                        at: self.at + len,
                                        remaining: (self.remaining - 1) as nat,
                                        previous: Some(position as u32),
                                        ..self
                                    },
                                ),
                            ),
                        )
                    }
                },
            }
        }
    }

    /// The positions of the list, up to its end or its first failure.
    pub open spec fn positions(self) -> Walk<u32>
        decreases self.remaining,
    {
        match self.step() {
            Err(error) => Walk::failed(error),
            Ok(None) => Walk::nothing(),
            Ok(Some((position, rest))) => if rest.remaining < self.remaining {
                Walk::one(position).and(rest.positions())
            } else {
                Walk::nothing()
            },
        }
    }
}

/// The positions of a list ascend from the last one read and lie below the
/// number of tokens.
proof fn deltas_ascend(list: DeltaModel)
    ensures
        increasing(list.positions().items),
        forall|i: int|
            0 <= i < list.positions().items.len() ==> (#[trigger] list.positions().items[i])
                < list.tokens && (list.previous matches Some(previous)
                ==> list.positions().items[i] > previous),
    decreases list.remaining,
{
    if let Ok(Some((position, rest))) = list.step() {
        deltas_ascend(rest);
        let items = list.positions().items;
        let others = rest.positions().items;
        assert(items =~= seq![position] + others);
        assert forall|i: int, j: int| 0 <= i < j < items.len() implies items[i] < items[j] by {
            assert(items[j] == others[j - 1]);
            if i > 0 {
                assert(items[i] == others[i - 1]);
            }
        }
        assert forall|i: int| 0 <= i < items.len() implies (#[trigger] items[i]) < list.tokens && (
        list.previous matches Some(previous) ==> items[i] > previous) by {
            if i > 0 {
                assert(items[i] == others[i - 1]);
            }
        }
    }
}

/// Where the positions of a term stand: in deltas, or in blocks behind a directory.
pub enum ListModel {
    Deltas(DeltaModel),
    Blocks(DirectoryView, Seq<u8>),
}

/// The first position at or behind a target, found by reading one block.
pub open spec fn sought_in_blocks(
    directory: DirectoryView,
    payload: Seq<u8>,
    tokens: u32,
    target: int,
) -> Result<Option<u32>> {
    if target > u32::MAX {
        Ok(None)
    } else {
        let from = if target < 0 {
            0
        } else {
            target as u32
        };
        match directory.selected(from, 0) {
            None => Ok(None),
            Some(block) => match decoded_block(block, payload.subrange(block.start, block.end)) {
                Err(error) => Err(Error::Codec(error)),
                Ok(positions) => if positions.last() >= tokens {
                    Err(Error::InvalidDocument)
                } else {
                    Ok(Some(positions[passed(positions, target)]))
                },
            },
        }
    }
}

impl ListModel {
    /// The answers of seeks.
    pub open spec fn finder(self, tokens: u32) -> Finder {
        match self {
            ListModel::Deltas(list) => list_finder(list.positions()),
            ListModel::Blocks(directory, payload) => |target: int|
                sought_in_blocks(directory, payload, tokens, target),
        }
    }
}

/// The selected block serves every target from its own up to its last position.
proof fn selection_holds(directory: DirectoryView, target: u32, later: u32, index: int)
    requires
        0 <= index,
        target <= later,
    ensures
        directory.selected(target, index) matches Some(block) ==> block.last >= target && (later
            <= block.last ==> directory.selected(later, index) == Some(block)),
        directory.selected(target, index) is None ==> directory.selected(later, index) is None,
    decreases directory.blocks() - index,
{
    if index < directory.blocks() && directory.block(index).last < target {
        selection_holds(directory, target, later, index + 1);
    }
}

/// Whether every block has positions and lies inside the payload.
pub open spec fn blocks_ready(directory: DirectoryView, payload: Seq<u8>) -> bool {
    forall|i: int|
        0 <= i < directory.blocks() ==> {
            let block = #[trigger] directory.block(i);
            &&& 1 <= block.count <= 128
            &&& 0 <= block.start <= block.end <= payload.len()
        }
}

/// Checked blocks give answers that fit together.
proof fn blocks_consistent(directory: DirectoryView, payload: Seq<u8>, tokens: u32)
    requires
        blocks_ready(directory, payload),
        tokens <= MAX_DOCUMENT_TOKENS,
    ensures
        consistent(ListModel::Blocks(directory, payload).finder(tokens)),
{
    let finder = ListModel::Blocks(directory, payload).finder(tokens);
    assert forall|target: int| #![trigger finder(target)] true implies (finder(target) matches Ok(
        Some(position),
    ) ==> target <= position < POSITION_LIMIT) by {
        found_in_block(directory, payload, tokens, target);
    }
    assert forall|target: int, later: int|
        #![trigger finder(target), finder(later)]
        target <= later implies match finder(target) {
        Ok(Some(position)) => later <= position ==> finder(later) == finder(target),
        Ok(None) => finder(later) == finder(target),
        Err(_) => true,
    } by {
        found_in_block(directory, payload, tokens, target);
        let from = if target < 0 {
            0
        } else {
            target as u32
        };
        if later <= u32::MAX {
            let then = if later < 0 {
                0
            } else {
                later as u32
            };
            selection_holds(directory, from, then, 0);
            if let Ok(Some(position)) = finder(target) {
                if later <= position {
                    let block = directory.selected(from, 0)->Some_0;
                    let positions = decoded_block(
                        block,
                        payload.subrange(block.start, block.end),
                    )->Ok_0;
                    passed_bounds(positions, target);
                    passed_unique(positions, later, passed(positions, target));
                }
            }
        }
    }
}

/// A found position lies at or behind its target, inside the selected block.
proof fn found_in_block(directory: DirectoryView, payload: Seq<u8>, tokens: u32, target: int)
    requires
        blocks_ready(directory, payload),
        tokens <= MAX_DOCUMENT_TOKENS,
    ensures
        sought_in_blocks(directory, payload, tokens, target) matches Ok(Some(position)) ==> {
            let block = directory.selected(
                if target < 0 {
                    0
                } else {
                    target as u32
                },
                0,
            )->Some_0;
            let positions = decoded_block(block, payload.subrange(block.start, block.end))->Ok_0;
            &&& target <= u32::MAX
            &&& target <= position <= block.last
            &&& position < POSITION_LIMIT
            &&& 0 <= passed(positions, target) < positions.len()
            &&& position == positions[passed(positions, target)]
        },
{
    if let Ok(Some(position)) = sought_in_blocks(directory, payload, tokens, target) {
        let from = if target < 0 {
            0
        } else {
            target as u32
        };
        selected_inside(directory, from, 0);
        selection_holds(directory, from, from, 0);
        let block = directory.selected(from, 0)->Some_0;
        let index = choose|i: int|
            0 <= i < directory.blocks() && block == #[trigger] directory.block(i);
        let bytes = payload.subrange(block.start, block.end);
        let positions = decoded_block(block, bytes)->Ok_0;
        assert(directory.block(index).count >= 1);
        decoded_shape(block, bytes);
        passed_bounds(positions, target);
        let place = passed(positions, target);
        assert(positions[positions.len() - 1] == positions.last());
        assert(place < positions.len());
        if place < positions.len() - 1 {
            assert(positions[place] < positions[positions.len() - 1]);
        }
    }
}

/// Where the positions of a term stand: the bytes of deltas, or a directory and
/// the place of its payload in the document.
#[derive(Clone, Copy)]
enum ListView<'a> {
    Deltas(&'a [u8]),
    Blocks(PositionDirectory<'a>, usize),
}

/// A list of positions that is read on demand.
#[derive(Clone, Copy)]
struct Cursor<'a> {
    view: ListView<'a>,
    count: u32,
    tokens: u32,
    decoded: [u32; 128],
    length: usize,
    delta_offset: usize,
    consumed: u32,
    current: Option<u32>,
    /// The list from its beginning.
    list: Ghost<ListModel>,
    /// The deltas read so far.
    met: Ghost<Seq<u32>>,
    /// The last target.
    target: Ghost<int>,
}

/// Reads the next delta of a list: the position and where the rest starts.
fn next_delta(bytes: &[u8], at: usize, remaining: u32, previous: Option<u32>, tokens: u32) -> (result:
    Result<(u32, usize)>)
    requires
        at <= bytes@.len(),
        remaining > 0,
    ensures
        ({
            let list = DeltaModel {
                bytes: bytes@,
                at: at as int,
                remaining: remaining as nat,
                previous,
                tokens,
            };
            match list.step() {
                Err(error) => result == Err::<(u32, usize), Error>(error),
                Ok(step) => result matches Ok((position, end)) && end <= bytes@.len() && step
                    == Some(
                    (
                        position,
                        DeltaModel {
                            at: end as int,
                            remaining: (remaining - 1) as nat,
                            previous: Some(position),
                            ..list
                        },
                    ),
                ),
            }
        }),
{
    let input: &[u8] = &bytes[at..bytes.len()];
    assert(input@ =~= bytes@.skip(at as int));
    let mut reader: Reader<'_> = Reader::new(input);
    let delta: u32 = lift(reader.var_u32())?;
    let position: u32 = match previous {
        Some(previous) => {
            if delta == 0 || delta > u32::MAX - previous {
                return Err(Error::InvalidDocument);
            }
            previous + delta
        },
        None => delta,
    };
    if position >= tokens {
        return Err(Error::InvalidDocument);
    }
    let end: usize = at + reader.offset();
    if remaining == 1 && end != bytes.len() {
        return Err(Error::InvalidDocument);
    }
    Ok((position, end))
}

impl<'a> Cursor<'a> {
    /// What is left of a list of deltas.
    spec fn rest(self) -> DeltaModel {
        DeltaModel {
            bytes: self.view->Deltas_0@,
            at: self.delta_offset as int,
            remaining: (self.count - self.consumed) as nat,
            previous: self.current,
            tokens: self.tokens,
        }
    }

    spec fn deltas_valid(self, list: DeltaModel) -> bool {
        let total = list.positions();
        &&& self.view is Deltas
        &&& self.consumed <= self.count
        &&& self.met@.len() == self.consumed
        &&& self.delta_offset <= self.view->Deltas_0@.len()
        &&& total == self.rest().positions().after(self.met@)
        &&& increasing(total.items)
        &&& forall|i: int| 0 <= i < total.items.len() ==> (#[trigger] total.items[i])
            < POSITION_LIMIT
        &&& self.current == if self.met@.len() == 0 {
            None
        } else {
            Some(self.met@.last())
        }
        &&& self.met@.len() > 1 ==> self.met@[self.met@.len() - 2] < self.target@
    }

    spec fn blocks_valid(self, directory: DirectoryView, payload: Seq<u8>) -> bool {
        &&& self.view matches ListView::Blocks(view, at) && view@ == directory && at
            + payload.len() <= usize::MAX
        &&& blocks_ready(directory, payload)
        &&& self.length <= 128
        &&& self.length > 0 ==> {
            &&& self.target@ <= u32::MAX
            &&& directory.selected(self.target@ as u32, 0) matches Some(block) && decoded_block(
                block,
                payload.subrange(block.start, block.end),
            ) == Ok::<Seq<u32>, crate::codec::Error>(self.decoded@.take(self.length as int))
            &&& self.decoded@[self.length - 1] < self.tokens
        }
        &&& self.current matches Some(position) ==> sought_in_blocks(
            directory,
            payload,
            self.tokens,
            self.target@,
        ) == Ok::<Option<u32>, Error>(Some(position))
    }

    /// Seeks in a list of deltas.
    #[verifier::loop_isolation(false)]
    fn seek_deltas(&mut self, bytes: &'a [u8], target: u32) -> (result: Result<Option<u32>>)
        requires
            old(self).view == ListView::Deltas(bytes),
            old(self).list@ is Deltas,
            old(self).deltas_valid(old(self).list@->Deltas_0),
            old(self).target@ <= target,
            old(self).current matches Some(position) ==> position < target,
            old(self).tokens <= MAX_DOCUMENT_TOKENS,
        ensures
            final(self).view == old(self).view,
            final(self).list@ == old(self).list@,
            final(self).tokens == old(self).tokens,
            final(self).deltas_valid(final(self).list@->Deltas_0),
            old(self).target@ <= final(self).target@ <= target,
            result == sought_in(final(self).list@->Deltas_0.positions(), target as int),
    {
        let ghost list = self.list@->Deltas_0;
        let ghost total = list.positions();
        self.target = Ghost(target as int);
        assert forall|i: int| 0 <= i < self.met@.len() implies (#[trigger] total.items[i])
            < target by {
            let last = self.met@.len() - 1;
            assert(total.items[i] == self.met@[i]);
            assert(total.items[last] == self.met@[last]);
            assert(i < last ==> total.items[i] < total.items[last]);
        }
        while self.consumed < self.count
            invariant
                self.view == old(self).view,
                self.list == old(self).list,
                self.tokens == old(self).tokens,
                self.target@ == target,
                self.deltas_valid(list),
                forall|i: int| 0 <= i < self.met@.len() ==> (#[trigger] total.items[i]) < target,
            decreases self.count - self.consumed,
        {
            let ghost met = self.met@;
            let ghost rest = self.rest();
            proof {
                if rest.step() is Err {
                    assert(total.items =~= met);
                    passed_unique(total.items, target as int, met.len() as int);
                }
            }
            let (position, offset): (u32, usize) = next_delta(
                bytes,
                self.delta_offset,
                self.count - self.consumed,
                self.current,
                self.tokens,
            )?;
            self.delta_offset = offset;
            self.consumed = self.consumed + 1;
            self.current = Some(position);
            let ghost now = met.push(position);
            self.met = Ghost(now);
            proof {
                assert(rest.positions() == Walk::one(position).and(self.rest().positions()));
                assert(self.rest().positions().after(now) =~= total);
                assert(total.items[met.len() as int] == position);
                if now.len() > 1 {
                    assert(now[now.len() - 2] == total.items[now.len() - 2]);
                }
            }
            if position >= target {
                proof {
                    passed_unique(total.items, target as int, met.len() as int);
                }
                return Ok(self.current);
            }
        }
        proof {
            assert(total.items =~= self.met@);
            passed_unique(total.items, target as int, self.met@.len() as int);
        }
        Ok(None)
    }

    /// Seeks in blocks; reads at most one.
    #[verifier::loop_isolation(false)]
    #[verifier::spinoff_prover]
    #[verifier::rlimit(40)]
    fn seek_blocks<C, S: ByteSource<C>>(
        &mut self,
        directory: PositionDirectory<'a>,
        at: usize,
        source: &mut S,
    context: &mut C,
        target: u32,
    ) -> (result: Result<Option<u32>>)
        requires
            old(source).valid(*old(context)),
            old(self).view == ListView::Blocks(directory, at),
            old(self).list@ matches ListModel::Blocks(view, payload) && view == directory@ && old(self).blocks_valid(view, payload) && at + payload.len() <= old(source).content(*old(context)).len()
                && payload == old(source).content(*old(context)).subrange(at as int, at + payload.len()),
            0 <= old(self).target@ <= target,
            old(self).current matches Some(position) ==> position < target,
            old(self).tokens <= MAX_DOCUMENT_TOKENS,
        ensures
            undisturbed((*old(source), *old(context)), (*final(source), *final(context))),
            final(self).view == old(self).view,
            final(self).list@ == old(self).list@,
            final(self).tokens == old(self).tokens,
            final(self).blocks_valid(
                final(self).list@->Blocks_0,
                final(self).list@->Blocks_1,
            ),
            0 <= final(self).target@ <= target,
            result == sought_in_blocks(
                final(self).list@->Blocks_0,
                final(self).list@->Blocks_1,
                old(self).tokens,
                target as int,
            ) || (!old(source).reliable(*old(context)) && result is Err),
    {
        let ghost view = directory@;
        let ghost payload = self.list@->Blocks_1;
        proof {
            selection_holds(view, self.target@ as u32, target, 0);
            selected_inside(view, target, 0);
            selected_inside(view, self.target@ as u32, 0);
            selection_holds(view, target, target, 0);
        }
        if self.length == 0 || self.decoded[self.length - 1] < target {
            let block: PositionBlockRequest = match directory.select(target) {
                Some(block) => block,
                None => {
                    return Ok(None);
                },
            };
            let range: core::ops::Range<usize> = block.byte_range();
            let len: usize = range.end - range.start;
            let mut scratch: Vec<u8> = Vec::new();
            scratch.resize(len, 0);
            if len != 0 {
                source.fetch(context, at + range.start, scratch.as_mut_slice())?;
            }
            assert(scratch@ =~= payload.subrange(block@.start, block@.end));
            let mut decoded: [u32; 128] = self.decoded;
            let length: usize = lift(block.decode_into(scratch.as_slice(), &mut decoded))?;
            proof {
                decoded_shape(block@, scratch@);
            }
            assert(decoded@.take(length as int)[length - 1] == decoded@[length - 1]);
            if decoded[length - 1] >= self.tokens {
                return Err(Error::InvalidDocument);
            }
            self.decoded = decoded;
            self.length = length;
            self.current = None;
        } else {
            proof {
                let block = view.selected(self.target@ as u32, 0)->Some_0;
                let index = choose|i: int|
                    0 <= i < view.blocks() && block == #[trigger] view.block(i);
                assert(view.block(index).count >= 1);
                decoded_shape(block, payload.subrange(block.start, block.end));
                assert(self.decoded@.take(self.length as int)[self.length - 1]
                    == self.decoded@[self.length - 1]);
            }
        }
        self.target = Ghost(target as int);
        let ghost positions = self.decoded@.take(self.length as int);
        let mut index: usize = 0;
        while index < self.length && self.decoded[index] < target
            invariant
                index <= self.length,
                forall|i: int| 0 <= i < index ==> (#[trigger] positions[i]) < target,
            decreases self.length - index,
        {
            assert(positions[index as int] == self.decoded@[index as int]);
            index += 1;
        }
        assert(positions[self.length - 1] == self.decoded@[self.length - 1]);
        assert(index < self.length);
        assert(positions[index as int] == self.decoded@[index as int]);
        proof {
            passed_unique(positions, target as int, index as int);
        }
        self.current = Some(self.decoded[index]);
        Ok(self.current)
    }

    /// A list of deltas that was not read yet.
    fn deltas(bytes: &'a [u8], count: u32, tokens: u32) -> (cursor: Self)
        requires
            bytes@.len() >= 4,
            tokens <= MAX_DOCUMENT_TOKENS,
        ensures
            cursor.ready(),
            cursor.view == ListView::Deltas(bytes),
            cursor.tokens == tokens,
            cursor.list@ == ListModel::Deltas(
                DeltaModel {
                    bytes: bytes@,
                    at: 4,
                    remaining: count as nat,
                    previous: None,
                    tokens,
                },
            ),
    {
        let ghost list = DeltaModel {
            bytes: bytes@,
            at: 4,
            remaining: count as nat,
            previous: None,
            tokens,
        };
        proof {
            deltas_ascend(list);
            assert(list.positions().after(Seq::empty()) =~= list.positions());
        }
        Cursor {
            view: ListView::Deltas(bytes),
            count,
            tokens,
            decoded: [0u32; 128],
            length: 0,
            delta_offset: 4,
            consumed: 0,
            current: None,
            list: Ghost(ListModel::Deltas(list)),
            met: Ghost(Seq::empty()),
            target: Ghost(0),
        }
    }

    /// Blocks that were not read yet.
    fn blocks(
        directory: PositionDirectory<'a>,
        at: usize,
        count: u32,
        tokens: u32,
        payload: Ghost<Seq<u8>>,
    ) -> (cursor: Self)
        requires
            blocks_ready(directory@, payload@),
            at + payload@.len() <= usize::MAX,
            tokens <= MAX_DOCUMENT_TOKENS,
        ensures
            cursor.ready(),
            cursor.view == ListView::Blocks(directory, at),
            cursor.tokens == tokens,
            cursor.list@ == ListModel::Blocks(directory@, payload@),
    {
        Cursor {
            view: ListView::Blocks(directory, at),
            count,
            tokens,
            decoded: [0u32; 128],
            length: 0,
            delta_offset: 4,
            consumed: 0,
            current: None,
            list: Ghost(ListModel::Blocks(directory@, payload@)),
            met: Ghost(Seq::empty()),
            target: Ghost(0),
        }
    }

    /// Whether the list can be sought from its beginning.
    spec fn ready(self) -> bool {
        self.sound() && self.target@ == 0
    }

    spec fn sound(self) -> bool {
        &&& self.tokens <= MAX_DOCUMENT_TOKENS
        &&& 0 <= self.target@
        &&& match self.list@ {
            ListModel::Deltas(list) => self.deltas_valid(list),
            ListModel::Blocks(directory, payload) => self.blocks_valid(directory, payload),
        }
    }
}

impl<'a, C, S: ByteSource<C>> Seeker<S, C> for Cursor<'a> {
    closed spec fn finder(&self) -> Finder {
        self.list@.finder(self.tokens)
    }

    closed spec fn floor(&self) -> int {
        self.target@
    }

    closed spec fn valid(&self) -> bool {
        self.sound()
    }

    open spec fn unread(&self) -> nat {
        0
    }

    open spec fn steps(context: (S, C)) -> nat {
        1
    }

    open spec fn exhausted() -> Error {
        Error::InvalidState
    }

    open spec fn dependable(context: (S, C)) -> bool {
        context.0.reliable(context.1)
    }

    closed spec fn serves(&self, context: (S, C)) -> bool {
        context.0.valid(context.1) && (self.view matches ListView::Blocks(_, at) ==> {
            let payload = self.list@->Blocks_1;
            &&& self.list@ is Blocks
            &&& at + payload.len() <= context.0.content(context.1).len()
            &&& payload == context.0.content(context.1).subrange(at as int, at + payload.len())
        })
    }

    open spec fn same_context(context: (S, C), other: (S, C)) -> bool {
        context == other || undisturbed(context, other)
    }

    proof fn finder_consistent(&self) {
        match self.list@ {
            ListModel::Deltas(list) => {
                list_consistent(list.positions());
            },
            ListModel::Blocks(directory, payload) => {
                blocks_consistent(directory, payload, self.tokens);
            },
        }
    }

    proof fn served(&self, context: (S, C), other: (S, C)) {
    }

    proof fn same_transitive(first: (S, C), second: (S, C), third: (S, C)) {
    }

    fn seek(&mut self, source: &mut S, context: &mut C, target: u32) -> (result: Result<Option<u32>>) {
        proof {
            Seeker::<S, C>::finder_consistent(self);
        }
        let ghost finder = Seeker::<S, C>::finder(self);
        if let Some(position) = self.current {
            if position >= target {
                proof {
                    assert(finder(target as int) == Ok::<Option<u32>, Error>(Some(position))) by {
                        match self.list@ {
                            ListModel::Deltas(list) => {
                                let total = list.positions();
                                let last = self.met@.len() - 1;
                                assert(total.items[last] == self.met@[last]);
                                assert forall|i: int| 0 <= i < last implies (
                                #[trigger] total.items[i]) < self.target@ by {
                                    assert(total.items[last - 1] == self.met@[last - 1]);
                                    assert(i < last - 1 ==> total.items[i] < total.items[last - 1]);
                                }
                                passed_unique(total.items, target as int, last);
                            },
                            ListModel::Blocks(directory, payload) => {
                                assert(finder(self.target@) == Ok::<Option<u32>, Error>(
                                    Some(position),
                                ));
                            },
                        }
                    }
                }
                return Ok(self.current);
            }
        }
        match self.view {
            ListView::Deltas(bytes) => self.seek_deltas(bytes, target),
            ListView::Blocks(directory, at) => self.seek_blocks(
                directory,
                at,
                source,
                context,
                target,
            ),
        }
    }
}

/// The scratch of a search that does not depend on the document: descriptors,
/// cursors, views and places of 64 words, two names, one block and the headers.
pub closed spec fn fixed_scratch() -> nat {
    vstd::layout::size_of::<[Descriptor; 64]>() + vstd::layout::size_of::<[Cursor<'_>; 64]>()
        + vstd::layout::size_of::<[Option<ListView<'_>>; 64]>() + vstd::layout::size_of::<
        [usize; 64],
    >() + (2 * MAX_TERM_BYTES + 635 + 32) as nat
}

/// The scratch that does not depend on the document, where a machine word holds it.
fn fixed_bytes() -> (fixed: Option<usize>)
    ensures
        match fixed {
            Some(fixed) => fixed == fixed_scratch(),
            None => fixed_scratch() > usize::MAX,
        },
{
    let descriptors: usize = size_of::<[Descriptor; 64]>();
    let cursors: usize = size_of::<[Cursor<'_>; 64]>();
    let views: usize = size_of::<[Option<ListView<'_>>; 64]>();
    let places: usize = size_of::<[usize; 64]>();
    let listed: usize = descriptors.checked_add(cursors)?;
    let seen: usize = listed.checked_add(views)?;
    let placed: usize = seen.checked_add(places)?;
    placed.checked_add(2 * MAX_TERM_BYTES + 635 + 32)
}

/// A term entry of a document: where its positions stand, how many bytes of
/// them are kept at hand, and how many positions there are.
#[verifier::ext_equal]
pub struct BlockEntry {
    pub term: Seq<u8>,
    pub start: int,
    pub size: int,
    pub length: int,
    pub count: u32,
    pub blocked: bool,
}

/// The term entry at `offset`; blocks are met only where the document may hold them.
pub open spec fn block_entry(
    document: Seq<u8>,
    blocks: bool,
    tokens: u32,
    offset: int,
    previous: Seq<u8>,
    frequency: int,
) -> Result<BlockEntry> {
    let len = le_u16(document, offset) as int;
    let encoding = le_u16(document, offset + 2);
    let size = le_u32(document, offset + 4) as int;
    let term = document.subrange(offset + 8, offset + 8 + len);
    let start = offset + 8 + len;
    let prefix = document.subrange(start, start + 8);
    if offset + 8 > document.len() || len == 0 || len > MAX_TERM_BYTES || encoding > 1 || (encoding
        == 1 && !blocks) {
        Err(Error::InvalidDocument)
    } else if start > document.len() || !valid_utf8(term) || !precedes(previous, term) || start
        + size > document.len() || size < if encoding == 1 {
        8int
    } else {
        4int
    } {
        Err(Error::InvalidDocument)
    } else if encoding == 1 {
        match directory_len(prefix, tokens) {
            Err(error) => Err(Error::Codec(error)),
            Ok(length) => checked_entry(
                BlockEntry {
                    term,
                    start,
                    size,
                    length,
                    count: le_u32(prefix, 4),
                    blocked: true,
                },
                tokens,
                frequency,
            ),
        }
    } else {
        checked_entry(
            BlockEntry {
                term,
                start,
                size,
                length: size,
                count: le_u32(document, start),
                blocked: false,
            },
            tokens,
            frequency,
        )
    }
}

/// An entry whose counts fit its size and its document.
pub open spec fn checked_entry(entry: BlockEntry, tokens: u32, frequency: int) -> Result<BlockEntry> {
    if entry.count == 0 || entry.count > tokens || entry.length > entry.size || (!entry.blocked
        && entry.count > entry.size - 4) || frequency + entry.count > tokens {
        Err(Error::InvalidDocument)
    } else {
        Ok(entry)
    }
}

/// The positions of an entry.
pub open spec fn entry_list(document: Seq<u8>, entry: BlockEntry, tokens: u32) -> Result<ListModel> {
    if entry.blocked {
        match opened_directory(
            document.subrange(entry.start, entry.start + entry.length),
            entry.size - entry.length,
            tokens,
        ) {
            Err(error) => Err(Error::Codec(error)),
            Ok(directory) => Ok(
                ListModel::Blocks(
                    directory,
                    document.subrange(entry.start + entry.length, entry.start + entry.size),
                ),
            ),
        }
    } else {
        Ok(
            ListModel::Deltas(
                DeltaModel {
                    bytes: document.subrange(entry.start, entry.start + entry.size),
                    at: 4,
                    remaining: entry.count as nat,
                    previous: None,
                    tokens,
                },
            ),
        )
    }
}

/// The entries of the words after an entry was met.
pub open spec fn with_block_entry(
    entries: Seq<Option<BlockEntry>>,
    wanted: Seq<Seq<u8>>,
    entry: BlockEntry,
) -> Seq<Option<BlockEntry>> {
    Seq::new(
        entries.len(),
        |i: int|
            if wanted[i] == entry.term {
                Some(entry)
            } else {
                entries[i]
            },
    )
}

/// Whether the entries of all words are known.
pub open spec fn all_met(entries: Seq<Option<BlockEntry>>) -> bool {
    forall|i: int| 0 <= i < entries.len() ==> (#[trigger] entries[i]) is Some
}

/// The entries of the wanted words among those from `offset` on; `None` where
/// the document lacks a word.
pub open spec fn gathered_entries(
    document: Seq<u8>,
    blocks: bool,
    tokens: u32,
    remaining: nat,
    offset: int,
    previous: Seq<u8>,
    frequency: int,
    wanted: Seq<Seq<u8>>,
    entries: Seq<Option<BlockEntry>>,
) -> Result<Option<Seq<BlockEntry>>>
    decreases remaining,
{
    if remaining == 0 {
        if offset != document.len() || frequency != tokens {
            Err(Error::InvalidDocument)
        } else {
            Ok(None)
        }
    } else {
        match block_entry(document, blocks, tokens, offset, previous, frequency) {
            Err(error) => Err(error),
            Ok(entry) => {
                let entries = with_block_entry(entries, wanted, entry);
                if all_met(entries) {
                    Ok(Some(Seq::new(entries.len(), |i: int| entries[i]->Some_0)))
                } else {
                    gathered_entries(
                        document,
                        blocks,
                        tokens,
                        (remaining - 1) as nat,
                        entry.start + entry.size,
                        entry.term,
                        frequency + entry.count,
                        wanted,
                        entries,
                    )
                }
            },
        }
    }
}

/// How many bytes are kept of the wanted words among the entries from `offset` on.
pub open spec fn kept_bytes(
    document: Seq<u8>,
    blocks: bool,
    tokens: u32,
    remaining: nat,
    offset: int,
    previous: Seq<u8>,
    frequency: int,
    wanted: Seq<Seq<u8>>,
    entries: Seq<Option<BlockEntry>>,
) -> int
    decreases remaining,
{
    if remaining == 0 {
        0
    } else {
        match block_entry(document, blocks, tokens, offset, previous, frequency) {
            Err(_) => 0,
            Ok(entry) => {
                let kept = if wanted.contains(entry.term) {
                    entry.length
                } else {
                    0
                };
                let entries = with_block_entry(entries, wanted, entry);
                if all_met(entries) {
                    kept
                } else {
                    kept + kept_bytes(
                        document,
                        blocks,
                        tokens,
                        (remaining - 1) as nat,
                        entry.start + entry.size,
                        entry.term,
                        frequency + entry.count,
                        wanted,
                        entries,
                    )
                }
            },
        }
    }
}

/// How many bytes a search for wanted words keeps of a document.
pub open spec fn wanted_bytes_kept(
    document: Seq<u8>,
    blocks: bool,
    tokens: u32,
    terms: u32,
    wanted: Seq<Seq<u8>>,
) -> int {
    if !block_header(document, blocks, tokens, terms) {
        0
    } else {
        kept_bytes(
            document,
            blocks,
            tokens,
            terms as nat,
            16,
            Seq::empty(),
            0,
            wanted,
            Seq::new(wanted.len(), |i: int| None),
        )
    }
}

pub(crate) proof fn kept_positive(
    document: Seq<u8>,
    blocks: bool,
    tokens: u32,
    remaining: nat,
    offset: int,
    previous: Seq<u8>,
    frequency: int,
    wanted: Seq<Seq<u8>>,
    entries: Seq<Option<BlockEntry>>,
)
    ensures
        kept_bytes(
            document,
            blocks,
            tokens,
            remaining,
            offset,
            previous,
            frequency,
            wanted,
            entries,
        ) >= 0,
    decreases remaining,
{
    if remaining > 0 {
        if let Ok(entry) = block_entry(document, blocks, tokens, offset, previous, frequency) {
            kept_positive(
                document,
                blocks,
                tokens,
                (remaining - 1) as nat,
                entry.start + entry.size,
                entry.term,
                frequency + entry.count,
                wanted,
                with_block_entry(entries, wanted, entry),
            );
            let prefix = document.subrange(entry.start, entry.start + 8);
            assert(entry.length >= 0);
        }
    }
}

/// Whether the header announces the given tokens and terms.
pub open spec fn block_header(document: Seq<u8>, blocks: bool, tokens: u32, terms: u32) -> bool {
    &&& document.len() >= 16
    &&& document.take(4) == if blocks {
        block_document_magic()
    } else {
        document_magic()
    }
    &&& le_u32(document, 4) == PROFILE_ID
    &&& le_u32(document, 8) == tokens
    &&& le_u32(document, 12) == terms
}

/// The entries of the wanted words in a document.
pub open spec fn wanted_entries(
    document: Seq<u8>,
    blocks: bool,
    tokens: u32,
    terms: u32,
    wanted: Seq<Seq<u8>>,
) -> Result<Option<Seq<BlockEntry>>> {
    if !block_header(document, blocks, tokens, terms) {
        Err(Error::InvalidDocument)
    } else {
        gathered_entries(
            document,
            blocks,
            tokens,
            terms as nat,
            16,
            Seq::empty(),
            0,
            wanted,
            Seq::new(wanted.len(), |i: int| None),
        )
    }
}

/// Whether all lists can be opened.
pub open spec fn lists_open(document: Seq<u8>, entries: Seq<BlockEntry>, tokens: u32) -> bool {
    forall|i: int|
        0 <= i < entries.len() ==> entry_list(document, #[trigger] entries[i], tokens) is Ok
}

/// Whether a failure is that of opening some list.
pub open spec fn opening_fails(
    document: Seq<u8>,
    entries: Seq<BlockEntry>,
    tokens: u32,
    error: Error,
) -> bool {
    exists|i: int|
        0 <= i < entries.len() && entry_list(document, #[trigger] entries[i], tokens) == Err::<
            ListModel,
            Error,
        >(error)
}

/// The answers of seeks in each list.
pub open spec fn entry_finders(document: Seq<u8>, entries: Seq<BlockEntry>, tokens: u32) -> Seq<
    Finder,
> {
    Seq::new(
        entries.len(),
        |i: int| entry_list(document, entries[i], tokens)->Ok_0.finder(tokens),
    )
}

/// What a document tells of a phrase.
pub open spec fn document_told(
    document: Seq<u8>,
    tokens: u32,
    entries: Result<Option<Seq<BlockEntry>>>,
    result: Result<bool>,
) -> bool {
    match entries {
        Err(error) => result == Err::<bool, Error>(error),
        Ok(None) => result == Ok::<bool, Error>(false),
        Ok(Some(entries)) => match result {
            Ok(found) => lists_open(document, entries, tokens) && if found {
                phrase_stands(entry_finders(document, entries, tokens))
            } else {
                phrase_fails(entry_finders(document, entries, tokens))
            },
            Err(error) => opening_fails(document, entries, tokens, error) || (lists_open(
                document,
                entries,
                tokens,
            ) && seek_fails(entry_finders(document, entries, tokens), error)),
        },
    }
}

/// Fetches bytes that must lie inside the document.
pub(crate) fn fetch_piece<C, S: ByteSource<C>>(source: &mut S,
    context: &mut C, total: usize, offset: usize, len: usize) -> (result:
    Result<Vec<u8>>)
    requires
        old(source).valid(*old(context)),
        total == old(source).content(*old(context)).len(),
    ensures
        undisturbed((*old(source), *old(context)), (*final(source), *final(context))),
        match result {
            Ok(bytes) => offset + len <= total && bytes@ == old(source).content(*old(context)).subrange(
                offset as int,
                offset + len,
            ),
            Err(error) => !old(source).reliable(*old(context)) || (offset + len > total && error
                == Error::InvalidDocument),
        },
{
    if len > total || offset > total - len {
        return Err(Error::InvalidDocument);
    }
    let mut bytes: Vec<u8> = Vec::new();
    bytes.resize(len, 0);
    source.fetch(context, offset, bytes.as_mut_slice())?;
    Ok(bytes)
}

/// Where the positions of a wanted word stand, and where they are kept.
#[derive(Clone, Copy)]
pub(crate) struct Descriptor {
    pub(crate) start: usize,
    pub(crate) size: usize,
    pub(crate) retained: usize,
    pub(crate) length: usize,
    pub(crate) count: u32,
    pub(crate) blocked: bool,
}

/// A term entry with its name.
pub(crate) struct Entry {
    pub(crate) name: Vec<u8>,
    pub(crate) start: usize,
    pub(crate) size: usize,
    pub(crate) length: usize,
    pub(crate) count: u32,
    pub(crate) blocked: bool,
}

impl Entry {
    pub(crate) open spec fn model(self) -> BlockEntry {
        BlockEntry {
            term: self.name@,
            start: self.start as int,
            size: self.size as int,
            length: self.length as int,
            count: self.count,
            blocked: self.blocked,
        }
    }
}

/// Reads the term entry at `offset`.
pub(crate) fn read_entry<C, S: ByteSource<C>>(
    source: &mut S,
    context: &mut C,
    total: usize,
    blocks: bool,
    tokens: u32,
    offset: usize,
    previous: &[u8],
    frequency: u32,
) -> (result: Result<Entry>)
    requires
        old(source).valid(*old(context)),
        total == old(source).content(*old(context)).len(),
        total <= MAX_DOCUMENT_BYTES,
        offset <= total,
        frequency <= tokens,
    ensures
        undisturbed((*old(source), *old(context)), (*final(source), *final(context))),
        match result {
            Ok(entry) => block_entry(
                old(source).content(*old(context)),
                blocks,
                tokens,
                offset as int,
                previous@,
                frequency as int,
            ) == Ok::<BlockEntry, Error>(entry.model()) && entry.start + entry.size <= total
                && 4 <= entry.length <= entry.size && (!entry.blocked ==> entry.length
                == entry.size) && frequency + entry.count <= tokens,
            Err(error) => !old(source).reliable(*old(context)) || block_entry(
                old(source).content(*old(context)),
                blocks,
                tokens,
                offset as int,
                previous@,
                frequency as int,
            ) == Err::<BlockEntry, Error>(error),
        },
{
    let ghost document = source.content(*context);
    let head: Vec<u8> = fetch_piece(source, context, total, offset, 8)?;
    proof {
        le_inside(document, offset as int, 8, 0);
        le_inside(document, offset as int, 8, 2);
        le_inside(document, offset as int, 8, 4);
    }
    let mut input: Reader<'_> = Reader::new(head.as_slice());
    let len: usize = lift(input.u16())? as usize;
    let encoding: u16 = lift(input.u16())?;
    let size: usize = lift(input.u32())? as usize;
    if len == 0 || len > MAX_TERM_BYTES || encoding > 1 || (encoding == 1 && !blocks) {
        return Err(Error::InvalidDocument);
    }
    let name: Vec<u8> = fetch_piece(source, context, total, offset + 8, len)?;
    if utf8(name.as_slice()).is_none() {
        return Err(Error::InvalidDocument);
    }
    if !bytes_precede(previous, name.as_slice()) {
        return Err(Error::InvalidDocument);
    }
    let start: usize = offset + 8 + len;
    let blocked: bool = encoding == 1;
    let prefix: usize = if blocked {
        8
    } else {
        4
    };
    if size > total || start > total - size || size < prefix {
        return Err(Error::InvalidDocument);
    }
    let bytes: Vec<u8> = fetch_piece(source, context, total, start, prefix)?;
    let (count, length): (u32, usize) = if blocked {
        let length: usize = lift(PositionDirectory::encoded_len(bytes.as_slice(), tokens))?;
        (crate::codec::bytes::get_u32(bytes.as_slice(), 4), length)
    } else {
        proof {
            le_inside(document, start as int, 4, 0);
        }
        (crate::codec::bytes::get_u32(bytes.as_slice(), 0), size)
    };
    if count == 0 || count > tokens || length > size || (!blocked && count as usize > size - 4) {
        return Err(Error::InvalidDocument);
    }
    if count > tokens - frequency {
        return Err(Error::InvalidDocument);
    }
    Ok(Entry { name, start, size, length, count, blocked })
}

/// Whether a descriptor is that of an entry whose bytes are kept.
pub(crate) open spec fn describes(
    descriptor: Descriptor,
    entry: BlockEntry,
    document: Seq<u8>,
    retained: Seq<u8>,
) -> bool {
    &&& descriptor.start == entry.start
    &&& descriptor.size == entry.size
    &&& descriptor.length == entry.length
    &&& descriptor.count == entry.count
    &&& descriptor.blocked == entry.blocked
    &&& 4 <= entry.length <= entry.size
    &&& !entry.blocked ==> entry.length == entry.size
    &&& entry.start + entry.size <= document.len()
    &&& descriptor.retained + descriptor.length <= retained.len()
    &&& retained.subrange(
        descriptor.retained as int,
        descriptor.retained + descriptor.length,
    ) == document.subrange(entry.start, entry.start + entry.length)
}

/// What was selected so far: descriptors, and for each word the place of its own.
pub(crate) struct Selection {
    pub(crate) descriptors: Vec<Descriptor>,
    pub(crate) mapping: Vec<Option<usize>>,
    /// The entries that the descriptors stand for.
    pub(crate) entries: Ghost<Seq<BlockEntry>>,
}

impl Selection {
    /// The entries of the words.
    pub(crate) open spec fn words(self) -> Seq<Option<BlockEntry>> {
        Seq::new(
            self.mapping@.len(),
            |i: int|
                match self.mapping@[i] {
                    Some(place) => Some(self.entries@[place as int]),
                    None => None,
                },
        )
    }

    pub(crate) open spec fn wf(self, document: Seq<u8>, retained: Seq<u8>) -> bool {
        &&& self.entries@.len() == self.descriptors@.len()
        &&& forall|i: int|
            0 <= i < self.mapping@.len() ==> (#[trigger] self.mapping@[i] matches Some(place)
                ==> place < self.descriptors@.len())
        &&& forall|i: int|
            0 <= i < self.descriptors@.len() ==> describes(
                #[trigger] self.descriptors@[i],
                self.entries@[i],
                document,
                retained,
            )
    }

    /// No word has an entry yet.
    #[verifier::loop_isolation(false)]
    pub(crate) fn new(count: usize) -> (selection: Self)
        ensures
            selection.words() == Seq::new(count as nat, |i: int| None::<BlockEntry>),
            selection.mapping@.len() == count,
            selection.descriptors@.len() == 0,
            selection.entries@.len() == 0,
            forall|document: Seq<u8>, retained: Seq<u8>| selection.wf(document, retained),
    {
        let mut mapping: Vec<Option<usize>> = Vec::new();
        let mut index: usize = 0;
        while index < count
            invariant
                index <= count,
                mapping@.len() == index,
                forall|i: int| 0 <= i < index ==> (#[trigger] mapping@[i]) is None,
            decreases count - index,
        {
            mapping.push(None);
            index += 1;
        }
        let selection: Selection = Selection {
            descriptors: Vec::new(),
            mapping,
            entries: Ghost(Seq::empty()),
        };
        assert(selection.words() =~= Seq::new(count as nat, |i: int| None::<BlockEntry>));
        selection
    }

    /// Whether an entry is wanted.
    #[verifier::loop_isolation(false)]
    pub(crate) fn wants(wanted: &[String], name: &[u8]) -> (wants: bool)
        ensures
            wants == exists|i: int| 0 <= i < wanted@.len() && #[trigger] wanted_bytes(wanted@)[i]
                == name@,
    {
        let mut index: usize = 0;
        while index < wanted.len()
            invariant
                index <= wanted@.len(),
                forall|i: int| 0 <= i < index ==> #[trigger] wanted_bytes(wanted@)[i] != name@,
            decreases wanted@.len() - index,
        {
            if same_bytes(wanted[index].as_str().as_bytes(), name) {
                assert(wanted_bytes(wanted@)[index as int] == name@);
                return true;
            }
            index += 1;
        }
        false
    }

    /// Assigns an entry to its words; whether all words have one now.
    #[verifier::loop_isolation(false)]
    pub(crate) fn assign(&mut self, wanted: &[String], entry: &Entry, descriptor: Option<Descriptor>, document: Ghost<Seq<u8>>, retained: Ghost<Seq<u8>>) -> (complete: bool)
        requires
            old(self).wf(document@, retained@),
            old(self).mapping@.len() == wanted@.len(),
            descriptor matches Some(descriptor) ==> describes(
                descriptor,
                entry.model(),
                document@,
                retained@,
            ),
            descriptor is None ==> forall|i: int|
                0 <= i < wanted@.len() ==> #[trigger] wanted_bytes(wanted@)[i] != entry.name@,
        ensures
            final(self).wf(document@, retained@),
            final(self).mapping@.len() == wanted@.len(),
            final(self).words() == with_block_entry(
                old(self).words(),
                wanted_bytes(wanted@),
                entry.model(),
            ),
            complete == all_met(final(self).words()),
            final(self).descriptors@ == match descriptor {
                Some(descriptor) => old(self).descriptors@.push(descriptor),
                None => old(self).descriptors@,
            },
    {
        let place: usize = self.descriptors.len();
        let ghost before = self.words();
        let ghost words = wanted_bytes(wanted@);
        let ghost goal = with_block_entry(before, words, entry.model());
        let ghost kept = self.descriptors@;
        let ghost known = self.entries@;
        let ghost mapped = self.mapping@;
        if let Some(descriptor) = descriptor {
            self.descriptors.push(descriptor);
            self.entries = Ghost(known.push(entry.model()));
        }
        assert forall|i: int| 0 <= i < self.descriptors@.len() implies describes(
            #[trigger] self.descriptors@[i],
            self.entries@[i],
            document@,
            retained@,
        ) by {
            if i < kept.len() {
                assert(self.descriptors@[i] == kept[i]);
            }
        }
        let mut complete: bool = true;
        let ghost mut missing: int = 0;
        let mut index: usize = 0;
        while index < wanted.len()
            invariant
                index <= wanted@.len(),
                self.mapping@.len() == wanted@.len(),
                self.wf(document@, retained@),
                self.entries@.len() >= known.len(),
                self.entries@.take(known.len() as int) == known,
                descriptor is Some ==> self.entries@ == known.push(entry.model()),
                self.descriptors@ == match descriptor {
                    Some(descriptor) => kept.push(descriptor),
                    None => kept,
                },
                forall|i: int|
                    0 <= i < index ==> #[trigger] self.mapping@[i] == if words[i] == entry.name@ {
                        Some(place)
                    } else {
                        mapped[i]
                    },
                forall|i: int| index <= i < wanted@.len() ==> #[trigger] self.mapping@[i]
                    == mapped[i],
                complete ==> forall|i: int|
                    0 <= i < index ==> (#[trigger] self.mapping@[i]) is Some,
                !complete ==> 0 <= missing < index && self.mapping@[missing] is None,
            decreases wanted@.len() - index,
        {
            let ghost early = self.mapping@;
            assert(words[index as int] == string_bytes(wanted@[index as int]));
            if same_bytes(wanted[index].as_str().as_bytes(), entry.name.as_slice()) {
                assert(descriptor is Some);
                self.mapping.set(index, Some(place));
            } else if self.mapping[index].is_none() {
                complete = false;
                proof {
                    missing = index as int;
                }
            }
            assert(forall|i: int| 0 <= i < index ==> #[trigger] self.mapping@[i] == early[i]);
            index += 1;
        }
        assert(self.words() =~= goal) by {
            assert forall|i: int| 0 <= i < wanted@.len() implies self.words()[i] == goal[i] by {
                assert(self.mapping@[i] == if words[i] == entry.name@ {
                    Some(place)
                } else {
                    mapped[i]
                });
                if words[i] != entry.name@ {
                    assert(mapped[i] matches Some(old_place) ==> old_place < known.len());
                    if let Some(old_place) = mapped[i] {
                        assert(self.entries@.take(known.len() as int)[old_place as int]
                            == self.entries@[old_place as int]);
                    }
                } else {
                    assert(descriptor is Some);
                }
            }
        }
        assert(complete == all_met(self.words())) by {
            assert forall|i: int| 0 <= i < wanted@.len() implies (self.words()[i] is Some
                <==> #[trigger] self.mapping@[i] is Some) by {}
            if all_met(self.words()) {
                assert(self.words()[missing] is Some || complete);
            }
        }
        complete
    }
}

/// What the entries of a document hold of the wanted words.
enum Choice {
    /// Bounded scratch is insufficient.
    Insufficient,
    /// The document lacks a word.
    Absent,
    Selected(Selection),
}

/// Keeps the bytes of an entry at hand; `None` where memory is insufficient.
fn retain<C, S: ByteSource<C>>(
    source: &mut S,
    context: &mut C,
    total: usize,
    entry: &Entry,
    budget: usize,
    retained: &mut Scratch,
) -> (result: Result<Option<Descriptor>>)
    requires
        old(source).valid(*old(context)),
        total == old(source).content(*old(context)).len(),
        entry.start + entry.size <= total,
        4 <= entry.length <= entry.size,
        !entry.blocked ==> entry.length == entry.size,
        total <= MAX_DOCUMENT_BYTES,
        old(retained)@.held <= budget,
    ensures
        undisturbed((*old(source), *old(context)), (*final(source), *final(context))),
        final(retained)@.held <= budget,
        match result {
            Ok(Some(descriptor)) => {
                &&& describes(
                    descriptor,
                    entry.model(),
                    old(source).content(*old(context)),
                    final(retained)@.bytes,
                )
                &&& old(retained)@.bytes.len() + entry.length == final(retained)@.bytes.len()
                &&& final(retained)@.bytes.take(old(retained)@.bytes.len() as int) == old(retained)@.bytes
                &&& final(retained)@.held >= old(retained)@.held
            },
            Ok(None) => old(retained)@.bytes.len() + entry.length > old(retained)@.held,
            Err(_) => !old(source).reliable(*old(context)),
        },
{
    let at: usize = retained.bytes().len();
    let ghost before = retained@.bytes;
    if !retained.grow(entry.length, budget) {
        return Ok(None);
    }
    let bytes: Vec<u8> = fetch_piece(source, context, total, entry.start, entry.length)?;
    let ghost kept = bytes@;
    let room: usize = retained.held();
    retained.append(bytes.as_slice());
    assert(retained@.bytes =~= before + kept);
    assert(retained@.bytes.take(at as int) =~= before);
    assert(retained@.bytes.subrange(at as int, at + entry.length) =~= kept);
    Ok(
        Some(
            Descriptor {
                start: entry.start,
                size: entry.size,
                retained: at,
                length: entry.length,
                count: entry.count,
                blocked: entry.blocked,
            },
        ),
    )
}

/// Bytes that are kept stay kept when more are appended.
pub(crate) proof fn still_described(
    descriptors: Seq<Descriptor>,
    entries: Seq<BlockEntry>,
    document: Seq<u8>,
    before: Seq<u8>,
    after: Seq<u8>,
)
    requires
        entries.len() == descriptors.len(),
        before.len() <= after.len(),
        after.take(before.len() as int) == before,
        forall|i: int|
            0 <= i < descriptors.len() ==> describes(
                #[trigger] descriptors[i],
                entries[i],
                document,
                before,
            ),
    ensures
        forall|i: int|
            0 <= i < descriptors.len() ==> describes(
                #[trigger] descriptors[i],
                entries[i],
                document,
                after,
            ),
{
    assert forall|i: int| 0 <= i < descriptors.len() implies describes(
        #[trigger] descriptors[i],
        entries[i],
        document,
        after,
    ) by {
        let d = descriptors[i];
        assert(describes(d, entries[i], document, before));
        assert(after.subrange(d.retained as int, d.retained + d.length) =~= before.subrange(
            d.retained as int,
            d.retained + d.length,
        ));
    }
}

/// Checks that the header announces the given tokens and terms.
pub(crate) fn check_header<C, S: ByteSource<C>>(
    source: &mut S,
    context: &mut C,
    total: usize,
    blocks: bool,
    tokens: u32,
    terms: u32,
) -> (result: Result<()>)
    requires
        old(source).valid(*old(context)),
        total == old(source).content(*old(context)).len(),
    ensures
        undisturbed((*old(source), *old(context)), (*final(source), *final(context))),
        match result {
            Ok(_) => block_header(old(source).content(*old(context)), blocks, tokens, terms),
            Err(error) => !old(source).reliable(*old(context)) || (error == Error::InvalidDocument
                && !block_header(old(source).content(*old(context)), blocks, tokens, terms)),
        },
{
    let ghost document = source.content(*context);
    let header: Vec<u8> = fetch_piece(source, context, total, 0, 16)?;
    let magic: [u8; 4] = if blocks {
        [0x50, 0x44, 0x30, 0x33]
    } else {
        [0x50, 0x44, 0x30, 0x32]
    };
    assert(magic@ =~= if blocks {
        block_document_magic()
    } else {
        document_magic()
    });
    proof {
        le_inside(document, 0, 16, 4);
        le_inside(document, 0, 16, 8);
        le_inside(document, 0, 16, 12);
        assert(header@.subrange(0, 4) =~= document.take(4));
    }
    let mut input: Reader<'_> = Reader::new(header.as_slice());
    if !same_bytes(lift(input.take(4))?, &magic) {
        return Err(Error::InvalidDocument);
    }
    if lift(input.u32())? != PROFILE_ID {
        return Err(Error::InvalidDocument);
    }
    if lift(input.u32())? != tokens {
        return Err(Error::InvalidDocument);
    }
    if lift(input.u32())? != terms {
        return Err(Error::InvalidDocument);
    }
    Ok(())
}

/// Selects the entries of the wanted words and keeps their bytes at hand.
#[verifier::loop_isolation(false)]
fn select_words<C, S: ByteSource<C>>(
    source: &mut S,
    context: &mut C,
    total: usize,
    tokens: u32,
    terms: u32,
    wanted: &[String],
    budget: usize,
    retained: &mut Scratch,
) -> (result: Result<Choice>)
    requires
        old(source).valid(*old(context)),
        total == old(source).content(*old(context)).len(),
        total <= MAX_DOCUMENT_BYTES,
        0 < wanted@.len(),
        old(retained)@.held <= budget,
    ensures
        undisturbed((*old(source), *old(context)), (*final(source), *final(context))),
        final(retained)@.held <= budget,
        ({
            let entries = wanted_entries(
                old(source).content(*old(context)),
                true,
                tokens,
                terms,
                wanted_bytes(wanted@),
            );
            let kept = wanted_bytes_kept(
                old(source).content(*old(context)),
                true,
                tokens,
                terms,
                wanted_bytes(wanted@),
            );
            match result {
                Ok(Choice::Selected(selection)) => {
                    &&& selection.wf(old(source).content(*old(context)), final(retained)@.bytes)
                    &&& kept <= budget
                    &&& final(retained)@.bytes.len() == kept
                    &&& selection.mapping@.len() == wanted@.len()
                    &&& all_met(selection.words())
                    &&& entries == Ok::<Option<Seq<BlockEntry>>, Error>(
                        Some(Seq::new(wanted@.len(), |i: int| selection.words()[i]->Some_0)),
                    )
                },
                Ok(Choice::Absent) => kept <= budget && final(retained)@.bytes.len() == kept && entries == Ok::<
                    Option<Seq<BlockEntry>>,
                    Error,
                >(None),
                Ok(Choice::Insufficient) => kept > old(retained)@.held,
                Err(error) => !old(source).reliable(*old(context)) || entries == Err::<
                    Option<Seq<BlockEntry>>,
                    Error,
                >(error),
            }
        }),
{
    let ghost document = source.content(*context);
    let ghost words = wanted_bytes(wanted@);
    let ghost goal = wanted_entries(document, true, tokens, terms, words);
    let ghost kept = wanted_bytes_kept(document, true, tokens, terms, words);
    let ghost held = retained@.held;
    check_header(source, context, total, true, tokens, terms)?;
    let mut selection: Selection = Selection::new(wanted.len());
    assert(selection.words() =~= Seq::new(words.len(), |i: int| None::<BlockEntry>));
    retained.clear();
    let room: usize = retained.held();
    let mut offset: usize = 16;
    let mut frequency: u32 = 0;
    let mut previous: Vec<u8> = Vec::new();
    assert(previous@ =~= Seq::<u8>::empty());
    let mut term: u32 = 0;
    while term < terms
        invariant
            term <= terms,
            offset <= total,
            frequency <= tokens,
            source.content(*context) == document,
            undisturbed((*old(source), *old(context)), (*source, *context)),
            selection.mapping@.len() == wanted@.len(),
            selection.wf(document, retained@.bytes),
            held <= retained@.held <= budget,
            retained@.bytes.len() <= retained@.held,
            kept == retained@.bytes.len() + kept_bytes(
                document,
                true,
                tokens,
                (terms - term) as nat,
                offset as int,
                previous@,
                frequency as int,
                words,
                selection.words(),
            ),
            goal == gathered_entries(
                document,
                true,
                tokens,
                (terms - term) as nat,
                offset as int,
                previous@,
                frequency as int,
                words,
                selection.words(),
            ),
        decreases terms - term,
    {
        let entry: Entry = read_entry(
            source,
            context,
            total,
            true,
            tokens,
            offset,
            previous.as_slice(),
            frequency,
        )?;
        let ghost next = with_block_entry(selection.words(), words, entry.model());
        proof {
            kept_positive(
                document,
                true,
                tokens,
                (terms - term - 1) as nat,
                entry.start + entry.size,
                entry.name@,
                frequency + entry.count,
                words,
                next,
            );
        }
        let wants: bool = Selection::wants(wanted, entry.name.as_slice());
        proof {
            if wants {
                let i = choose|i: int|
                    0 <= i < wanted@.len() && #[trigger] wanted_bytes(wanted@)[i] == entry.name@;
                assert(words[i] == entry.name@);
            }
            assert(words.contains(entry.name@) == wants);
        }
        let descriptor: Option<Descriptor> = if wants {
            let ghost before = retained@.bytes;
            match retain(source, context, total, &entry, budget, retained)? {
                Some(descriptor) => {
                    proof {
                        still_described(
                            selection.descriptors@,
                            selection.entries@,
                            document,
                            before,
                            retained@.bytes,
                        );
                    }
                    let room: usize = retained.held();
                    Some(descriptor)
                },
                None => {
                    return Ok(Choice::Insufficient);
                },
            }
        } else {
            None
        };
        if selection.assign(wanted, &entry, descriptor, Ghost(document), Ghost(retained@.bytes)) {
            return Ok(Choice::Selected(selection));
        }
        offset = entry.start + entry.size;
        frequency = frequency + entry.count;
        previous = entry.name;
        term += 1;
    }
    if offset != total || frequency != tokens {
        return Err(Error::InvalidDocument);
    }
    Ok(Choice::Absent)
}

/// A directory that was opened describes blocks inside its payload.
proof fn opened_ready(bytes: Seq<u8>, payload: Seq<u8>, tokens: u32)
    requires
        opened_directory(bytes, payload.len() as int, tokens) is Ok,
    ensures
        blocks_ready(opened_directory(bytes, payload.len() as int, tokens)->Ok_0, payload),
{
    let view = opened_directory(bytes, payload.len() as int, tokens)->Ok_0;
    checked_blocks_chained(view, payload.len() as int, 0, 0, None);
    assert forall|i: int| 0 <= i < view.blocks() implies {
        let block = #[trigger] view.block(i);
        &&& 1 <= block.count <= 128
        &&& 0 <= block.start <= block.end <= payload.len()
    } by {}
}

/// Opens the lists of the selected words.
#[verifier::loop_isolation(false)]
fn open_lists<'a>(
    selection: &Selection,
    retained: &'a [u8],
    tokens: u32,
    document: Ghost<Seq<u8>>,
) -> (result: Result<Vec<Cursor<'a>>>)
    requires
        selection.wf(document@, retained@),
        all_met(selection.words()),
        tokens <= MAX_DOCUMENT_TOKENS,
        document@.len() <= MAX_DOCUMENT_BYTES,
    ensures
        ({
            let entries = Seq::new(
                selection.mapping@.len(),
                |i: int| selection.words()[i]->Some_0,
            );
            match result {
                Ok(cursors) => {
                    &&& cursors@.len() == entries.len()
                    &&& lists_open(document@, entries, tokens)
                    &&& forall|i: int|
                        0 <= i < cursors@.len() ==> (#[trigger] cursors@[i]).ready()
                            && cursors@[i].tokens == tokens && cursors@[i].list@ == entry_list(
                            document@,
                            entries[i],
                            tokens,
                        )->Ok_0 && (cursors@[i].view matches ListView::Blocks(_, at) ==> {
                            let payload = cursors@[i].list@->Blocks_1;
                            &&& cursors@[i].list@ is Blocks
                            &&& at + payload.len() <= document@.len()
                            &&& payload == document@.subrange(at as int, at + payload.len())
                        })
                },
                Err(error) => opening_fails(document@, entries, tokens, error),
            }
        }),
{
    let ghost entries = Seq::new(selection.mapping@.len(), |i: int| selection.words()[i]->Some_0);
    let ghost document = document@;
    let mut cursors: Vec<Cursor<'a>> = Vec::new();
    let mut index: usize = 0;
    while index < selection.mapping.len()
        invariant
            index <= selection.mapping@.len(),
            cursors@.len() == index,
            forall|i: int|
                0 <= i < index ==> entry_list(document, #[trigger] entries[i], tokens) is Ok,
            forall|i: int|
                0 <= i < cursors@.len() ==> (#[trigger] cursors@[i]).ready() && cursors@[i].tokens
                    == tokens && cursors@[i].list@ == entry_list(
                    document,
                    entries[i],
                    tokens,
                )->Ok_0 && (cursors@[i].view matches ListView::Blocks(_, at) ==> {
                    let payload = cursors@[i].list@->Blocks_1;
                    &&& cursors@[i].list@ is Blocks
                    &&& at + payload.len() <= document.len()
                    &&& payload == document.subrange(at as int, at + payload.len())
                }),
        decreases selection.mapping@.len() - index,
    {
        assert(selection.words()[index as int] is Some);
        let place: usize = match selection.mapping[index] {
            Some(place) => place,
            None => {
                return Err(Error::InvalidState);
            },
        };
        let descriptor: Descriptor = selection.descriptors[place];
        let ghost entry = entries[index as int];
        assert(describes(descriptor, entry, document, retained@));
        let room: usize = retained.len();
        let bytes: &'a [u8] = slice_subrange(
            retained,
            descriptor.retained,
            descriptor.retained + descriptor.length,
        );
        if descriptor.blocked {
            let ghost payload = document.subrange(
                entry.start + entry.length,
                entry.start + entry.size,
            );
            let directory: PositionDirectory<'a> = match PositionDirectory::open(
                bytes,
                descriptor.size - descriptor.length,
                tokens,
            ) {
                Ok(directory) => directory,
                Err(error) => {
                    assert(entry_list(document, entries[index as int], tokens) == Err::<
                        ListModel,
                        Error,
                    >(Error::Codec(error)));
                    return Err(Error::Codec(error));
                },
            };
            proof {
                opened_ready(bytes@, payload, tokens);
            }
            cursors.push(
                Cursor::blocks(
                    directory,
                    descriptor.start + descriptor.length,
                    descriptor.count,
                    tokens,
                    Ghost(payload),
                ),
            );
            assert(payload == document.subrange(
                descriptor.start + descriptor.length,
                descriptor.start + descriptor.length + payload.len(),
            ));
        } else {
            cursors.push(Cursor::deltas(bytes, descriptor.count, tokens));
        }
        index += 1;
    }
    Ok(cursors)
}

proof fn nothing_unread<C, S: ByteSource<C>>(cursors: Seq<Cursor<'_>>)
    ensures
        all_unread::<S, C, Cursor<'_>>(cursors) == 0,
    decreases cursors.len(),
{
    if cursors.len() > 0 {
        nothing_unread::<C, S>(cursors.drop_last());
    }
}

/// The word whose list is the shortest.
#[verifier::loop_isolation(false)]
fn rarest(cursors: &Vec<Cursor<'_>>) -> (anchor: usize)
    requires
        cursors@.len() > 0,
    ensures
        anchor < cursors@.len(),
{
    let mut anchor: usize = 0;
    let mut index: usize = 1;
    while index < cursors.len()
        invariant
            anchor < cursors@.len(),
        decreases cursors@.len() - index,
    {
        if cursors[index].count < cursors[anchor].count {
            anchor = index;
        }
        index += 1;
    }
    anchor
}

/// `None` means bounded scratch is insufficient: the budget does not cover the
/// fixed part and the capacity at hand, or more bytes of wanted words have to be
/// kept than that capacity holds. No partial query result is emitted. Read offsets refer to one immutable document and are filled exactly.
///
/// # Errors
/// Rejects parameters out of range, damage in what was read, and reader failures.
pub fn matches<C, S: ByteSource<C>>(
    total: usize,
    tokens: u32,
    terms: u32,
    wanted: &[String],
    memory_bytes: usize,
    retained: &mut Scratch,
    source: &mut S,
    context: &mut C,
) -> (result: Result<Option<bool>>)
    requires
        old(source).valid(*old(context)),
        total == old(source).content(*old(context)).len(),
    ensures
        undisturbed((*old(source), *old(context)), (*final(source), *final(context))),
        if total > MAX_DOCUMENT_BYTES || tokens > MAX_DOCUMENT_TOKENS || terms > tokens
            || wanted@.len() == 0 || wanted@.len() > 64 || memory_bytes < fixed_scratch() + old(retained)@.held {
            final(retained)@ == old(retained)@
        } else {
            fixed_scratch() + final(retained)@.held <= memory_bytes
        },
        if total > MAX_DOCUMENT_BYTES || tokens > MAX_DOCUMENT_TOKENS || terms > tokens
            || wanted@.len() == 0 || wanted@.len() > 64 {
            result == Err::<Option<bool>, Error>(Error::InvalidDocument)
        } else {
            let entries = wanted_entries(
                old(source).content(*old(context)),
                true,
                tokens,
                terms,
                wanted_bytes(wanted@),
            );
            let kept = wanted_bytes_kept(
                old(source).content(*old(context)),
                true,
                tokens,
                terms,
                wanted_bytes(wanted@),
            );
            match result {
                Ok(Some(found)) => document_told(
                    old(source).content(*old(context)),
                    tokens,
                    entries,
                    Ok(found),
                ) && fixed_scratch() + kept <= memory_bytes && fixed_scratch() + old(retained)@.held
                    <= memory_bytes && final(retained)@.bytes.len() == kept,
                Ok(None) => memory_bytes < fixed_scratch() + old(retained)@.held || kept > old(retained)@.held,
                Err(error) => !old(source).reliable(*old(context)) || document_told(
                    old(source).content(*old(context)),
                    tokens,
                    entries,
                    Err(error),
                ),
            }
        },
{
    if total > MAX_DOCUMENT_BYTES || tokens > MAX_DOCUMENT_TOKENS || terms > tokens
        || wanted.len() == 0 || wanted.len() > 64 {
        return Err(Error::InvalidDocument);
    }
    let fixed: usize = match fixed_bytes() {
        Some(fixed) => fixed,
        None => {
            return Ok(None);
        },
    };
    if memory_bytes < fixed {
        return Ok(None);
    }
    let budget: usize = memory_bytes - fixed;
    if retained.held() > budget {
        return Ok(None);
    }
    let ghost document = source.content(*context);
    let ghost reliable = source.reliable(*context);
    let selection: Selection = match select_words(
        source,
        context,
        total,
        tokens,
        terms,
        wanted,
        budget,
        retained,
    )? {
        Choice::Selected(selection) => selection,
        Choice::Absent => {
            return Ok(Some(false));
        },
        Choice::Insufficient => {
            return Ok(None);
        },
    };
    let ghost entries = Seq::new(wanted@.len(), |i: int| selection.words()[i]->Some_0);
    let mut cursors: Vec<Cursor<'_>> = open_lists(
        &selection,
        retained.bytes(),
        tokens,
        Ghost(document),
    )?;
    assert(finders::<S, C, Cursor<'_>>(cursors@) =~= entry_finders(document, entries, tokens));
    let anchor: usize = rarest(&cursors);
    proof {
        nothing_unread::<C, S>(cursors@);
    }
    let found: bool = witness(&mut cursors, source, context, anchor)?;
    Ok(Some(found))
}

} // verus!
