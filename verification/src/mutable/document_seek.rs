//! Selected position streams fetched through a checked physical extent map.

use crate::codec::bytes::group_bytes;
use crate::codec::source::{undisturbed, ByteSource};
use crate::error::{Error, Result};
use crate::identity::group_identity;
use crate::memory::Scratch;
use crate::mutable::block_phrase::{
    fixed_scratch, kept_bytes, wanted_bytes_kept,
    self, all_met, block_document_magic, check_header, describes, document_told, fetch_piece,
    gathered_entries, read_entry, still_described, wanted_entries, BlockEntry, Descriptor, Entry,
    Selection,
};
use crate::mutable::document::{MAX_DOCUMENT_BYTES, MAX_DOCUMENT_TOKENS};
use crate::mutable::page::directory::{fragment_count, DirectoryModel};
use crate::mutable::page::model::Image;
use crate::mutable::page::{
    DocumentDirectory, Owner, OwnerModel, Page, PageKind, FRAGMENT_BYTES, NO_BLOCK,
};
use crate::mutable::phrase_prefix::{
    counted_stream, counted_streams, matches_positions, stream_finders, wanted_bytes, StreamModel,
};
use crate::mutable::store::{load, Host, PageStore, StoreModel};
use crate::mutable::witness::{phrase_fails, phrase_stands, seek_fails};
use crate::text::same_bytes;
use core::mem::size_of;
use vstd::prelude::*;
use vstd::slice::slice_subrange;

verus! {

broadcast use {group_bytes, group_identity};

/// Whether an extent map has the shape of a stored one.
pub open spec fn shaped(directory: DirectoryModel) -> bool {
    &&& directory.prefix.len() == 3072
    &&& 3072 < directory.total <= MAX_DOCUMENT_BYTES
    &&& directory.entries.len() == 4 * fragment_count(directory.total)
}

/// Where the fragment at `index` starts.
pub open spec fn fragment_start(index: int) -> int {
    3072 + index * 8132
}

/// How many bytes the fragment at `index` holds.
pub open spec fn fragment_size(directory: DirectoryModel, index: int) -> int {
    if directory.total - fragment_start(index) < 8132 {
        directory.total - fragment_start(index)
    } else {
        8132
    }
}

/// The bytes of the fragment at `index`, from the page image that holds it.
pub open spec fn fragment_of(directory: DirectoryModel, index: int, image: Image) -> Result<
    Seq<u8>,
> {
    match image.fragment_data() {
        Err(error) => Err(error),
        Ok((owner, start, payload)) => {
            let next = if index + 1 < directory.fragments() {
                directory.block(index + 1)
            } else {
                Ok(NO_BLOCK)
            };
            match next {
                Err(error) => Err(error),
                Ok(next) => if owner != directory.owner || start != fragment_start(index)
                    || payload.len() != fragment_size(directory, index) {
                    Err(Error::InvalidState)
                } else {
                    match image.next() {
                        Err(error) => Err(error),
                        Ok(found) => if found != next {
                            Err(Error::InvalidState)
                        } else {
                            Ok(payload)
                        },
                    }
                },
            }
        },
    }
}

impl StoreModel {
    /// The bytes of the fragment at `index` of a document.
    pub open spec fn fragment(self, directory: DirectoryModel, index: int) -> Result<Seq<u8>> {
        match directory.block(index) {
            Err(error) => Err(error),
            Ok(block) => match self.load(block, PageKind::Fragment) {
                Err(error) => Err(error),
                Ok(image) => fragment_of(directory, index, image),
            },
        }
    }

    /// The bytes of a document; those of damaged fragments are arbitrary.
    pub open spec fn document(self, directory: DirectoryModel) -> Seq<u8> {
        Seq::new(
            directory.total as nat,
            |i: int|
                if i < 3072 {
                    directory.prefix[i]
                } else {
                    self.fragment(directory, (i - 3072) / 8132)->Ok_0[(i - 3072) % 8132]
                },
        )
    }

    /// Whether every fragment of a document is sound.
    pub open spec fn whole(self, directory: DirectoryModel) -> bool {
        forall|i: int|
            0 <= i < directory.fragments() ==> (#[trigger] self.fragment(directory, i)) is Ok
    }
}

/// Whether a cached fragment page is the checked image of its block.
pub open spec fn cached_fragment(cache: Option<Page>, model: StoreModel) -> bool {
    match cache {
        Some(page) => model.load(page@.block, PageKind::Fragment) == Ok::<Image, Error>(page@),
        None => true,
    }
}

/// The bytes of a document behind its extent map, with the fragment read last.
pub struct Input<'a> {
    directory: DocumentDirectory<'a>,
    cache: Option<Page>,
    asked: Ghost<Seq<(int, int)>>,
    refusal: Ghost<Option<Error>>,
}

impl<'a> Input<'a> {
    pub closed spec fn extents_asked(self) -> Seq<(int, int)> {
        self.asked@
    }

    pub closed spec fn last_refusal(self) -> Option<Error> {
        self.refusal@
    }

    pub closed spec fn extents(self) -> DirectoryModel {
        self.directory@
    }

    pub closed spec fn cached(self) -> Option<Page> {
        self.cache
    }

    pub fn new(directory: DocumentDirectory<'a>, cache: Option<Page>) -> (input: Self)
        ensures
            input.extents() == directory@,
            input.cached() == cache,
            input.extents_asked().len() == 0,
    {
        Input { directory, cache, asked: Ghost(Seq::empty()), refusal: Ghost(None) }
    }

    /// Hands the cached fragment back.
    pub fn into_cache(self) -> (cache: Option<Page>)
        ensures
            cache == self.cached(),
    {
        self.cache
    }

    /// Makes sure that the fragment at `index` is cached.
    fn load_fragment<S: PageStore>(&mut self, store: &mut S, index: usize) -> (result: Result<()>)
        requires
            shaped(old(self).extents()),
            cached_fragment(old(self).cached(), old(store).host().model),
            index < old(self).extents().fragments(),
        ensures
            final(store).host() == old(store).host(),
            final(self).extents() == old(self).extents(),
            final(self).extents_asked() == old(self).extents_asked(),
            cached_fragment(final(self).cached(), old(store).host().model),
            match old(store).host().model.fragment(old(self).extents(), index as int) {
                Ok(payload) => (result is Ok || !old(store).host().reliable),
                Err(_) => result is Err,
            },
            result is Ok ==> final(self).cached() is Some && final(self).cached()->Some_0@.fragment_data() is Ok && old(store).host().model.fragment(
                old(self).extents(),
                index as int,
            ) == Ok::<Seq<u8>, Error>(final(self).cached()->Some_0@.fragment_data()->Ok_0.2),
    {
        let block: u32 = self.directory.block(index)?;
        let hit: bool = match &self.cache {
            Some(page) => page.block() == block,
            None => false,
        };
        if !hit {
            self.cache = Some(load(store, block, PageKind::Fragment)?);
        }
        match &self.cache {
            None => Err(Error::InvalidState),
            Some(page) => {
                let start: usize = self.directory.prefix.len() + index * FRAGMENT_BYTES;
                let (owner, current, payload): (
                    crate::mutable::page::OwnerRef,
                    u32,
                    &[u8],
                ) = page.fragment_data()?;
                let next: u32 = if index + 1 < self.directory.fragments() {
                    self.directory.block(index + 1)?
                } else {
                    NO_BLOCK
                };
                let rest: usize = self.directory.total - start;
                let size: usize = if rest < FRAGMENT_BYTES {
                    rest
                } else {
                    FRAGMENT_BYTES
                };
                if owner != self.directory.owner || current as usize != start || payload.len()
                    != size {
                    return Err(Error::InvalidState);
                }
                if page.next()? != next {
                    return Err(Error::InvalidState);
                }
                Ok(())
            },
        }
    }
}

/// Copies bytes into a place of the output.
#[verifier::loop_isolation(false)]
fn copy_into(output: &mut [u8], at: usize, source: &[u8], from: usize, length: usize)
    requires
        at + length <= old(output)@.len(),
        from + length <= source@.len(),
    ensures
        final(output)@.len() == old(output)@.len(),
        forall|i: int|
            0 <= i < old(output)@.len() ==> #[trigger] final(output)@[i] == if at <= i < at
                + length {
                source@[from + i - at]
            } else {
                old(output)@[i]
            },
{
    let size: usize = output.len();
    let room: usize = source.len();
    let mut i: usize = 0;
    while i < length
        invariant
            i <= length,
            output@.len() == size,
            size == old(output)@.len(),
            room == source@.len(),
            forall|j: int|
                0 <= j < size ==> #[trigger] output@[j] == if at <= j < at + i {
                    source@[from + j - at]
                } else {
                    old(output)@[j]
                },
        decreases length - i,
    {
        output[at + i] = source[from + i];
        i += 1;
    }
}

impl<'a> Input<'a> {
    /// Fills `output` with the bytes from `offset` on.
    #[verifier::loop_isolation(false)]
    fn fill<S: PageStore>(&mut self, context: &mut S, offset: usize, output: &mut [u8]) -> (result:
        Result<()>)
        requires
            shaped(old(self).extents()),
            cached_fragment(old(self).cached(), old(context).host().model),
        ensures
            final(context).host() == old(context).host(),
            final(self).extents() == old(self).extents(),
            final(self).extents_asked() == old(self).extents_asked(),
            cached_fragment(final(self).cached(), old(context).host().model),
            final(output)@.len() == old(output)@.len(),
            ({
                let document = old(context).host().model.document(old(self).extents());
                &&& result is Ok ==> offset + old(output)@.len() <= document.len()
                    && final(output)@ == document.subrange(
                    offset as int,
                    offset + old(output)@.len(),
                )
                &&& old(context).host().reliable && old(context).host().model.whole(
                    old(self).extents(),
                ) && offset + old(output)@.len() <= document.len() ==> result is Ok
            }),
    {
        let ghost model = context.host().model;
        let ghost extents = self.extents();
        let ghost document = model.document(extents);
        let length: usize = output.len();
        let total: usize = self.directory.total;
        if length > total || offset > total - length {
            return Err(Error::InvalidDocument);
        }
        let mut done: usize = 0;
        while done < length
            invariant
                done <= length,
                output@.len() == length,
                length == old(output)@.len(),
                context.host() == old(context).host(),
                self.extents() == extents,
                self.extents_asked() == old(self).extents_asked(),
                cached_fragment(self.cached(), model),
                forall|i: int|
                    0 <= i < done ==> #[trigger] output@[i] == document[offset + i],
            decreases length - done,
        {
            let place: usize = offset + done;
            let ghost before = output@;
            if place < self.directory.prefix.len() {
                let room: usize = self.directory.prefix.len() - place;
                let count: usize = if length - done < room {
                    length - done
                } else {
                    room
                };
                copy_into(output, done, self.directory.prefix, place, count);
                assert forall|i: int| 0 <= i < done + count implies #[trigger] output@[i]
                    == document[offset + i] by {
                    if i < done {
                        assert(output@[i] == before[i]);
                    } else {
                        assert(output@[i] == extents.prefix[offset + i]);
                    }
                }
                done = done + count;
            } else {
                let index: usize = (place - self.directory.prefix.len()) / FRAGMENT_BYTES;
                let start: usize = self.directory.prefix.len() + index * FRAGMENT_BYTES;
                self.load_fragment(context, index)?;
                match &self.cache {
                    None => {
                        return Err(Error::InvalidState);
                    },
                    Some(page) => {
                        let (_, _, payload): (
                            crate::mutable::page::OwnerRef,
                            u32,
                            &[u8],
                        ) = page.fragment_data()?;
                        let within: usize = place - start;
                        assert(payload@.len() == fragment_size(extents, index as int));
                        let room: usize = payload.len() - within;
                        let count: usize = if length - done < room {
                            length - done
                        } else {
                            room
                        };
                        copy_into(output, done, payload, within, count);
                        assert forall|i: int| 0 <= i < done + count implies #[trigger] output@[i]
                            == document[offset + i] by {
                            if i < done {
                                assert(output@[i] == before[i]);
                            } else {
                                let inside = within + i - done;
                                assert(output@[i] == payload@[inside]);
                                assert(offset + i - 3072 == index * 8132 + inside);
                                assert((offset + i - 3072) / 8132 == index && (offset + i - 3072)
                                    % 8132 == inside) by (nonlinear_arith)
                                    requires
                                        offset + i - 3072 == index * 8132 + inside,
                                        0 <= inside < 8132,
                                ;
                            }
                        }
                        done = done + count;
                    },
                }
            }
        }
        assert(output@ =~= document.subrange(offset as int, offset + length));
        Ok(())
    }
}

impl<'a, S: PageStore> ByteSource<S> for Input<'a> {
    type Origin = Host;

    open spec fn origin(context: S) -> Host {
        context.host()
    }

    open spec fn valid(&self, context: S) -> bool {
        shaped(self.extents()) && cached_fragment(self.cached(), context.host().model)
    }

    open spec fn content(&self, context: S) -> Seq<u8> {
        context.host().model.document(self.extents())
    }

    open spec fn reliable(&self, context: S) -> bool {
        context.host().reliable && context.host().model.whole(self.extents())
    }

    open spec fn asked(&self, context: S) -> Seq<(int, int)> {
        self.extents_asked()
    }

    open spec fn refusal(&self, context: S) -> Option<Error> {
        self.last_refusal()
    }

    fn fetch(&mut self, context: &mut S, offset: usize, output: &mut [u8]) -> (result: Result<()>) {
        let result: Result<()> = self.fill(context, offset, output);
        self.asked = Ghost(self.asked@.push((offset as int, output@.len() as int)));
        self.refusal = Ghost(result.err());
        result
    }
}

/// Fills the output with all bytes of a document.
///
/// # Errors
/// Rejects extents that are not those of the owner, and damaged fragments.
pub fn copy_all<S: PageStore>(store: &mut S, head: &Page, owner: &Owner<'_>, output: &mut [u8]) -> (
result: Result<()>)
    ensures
        final(store).host() == old(store).host(),
        final(output)@.len() == old(output)@.len(),
        match head@.document_directory_data() {
            Err(error) => result == Err::<(), Error>(error),
            Ok(directory) => if directory.owner != owner.reference || directory.total
                != owner.data_bytes || old(output)@.len() != directory.total {
                result == Err::<(), Error>(Error::InvalidDocument)
            } else {
                &&& result is Ok ==> final(output)@ == old(store).host().model.document(directory)
                &&& old(store).host().reliable && old(store).host().model.whole(directory)
                    ==> result is Ok
            },
        },
{
    let directory: DocumentDirectory<'_> = head.document_directory_data()?;
    if directory.owner != owner.reference || directory.total != owner.data_bytes as usize
        || output.len() != directory.total {
        return Err(Error::InvalidDocument);
    }
    let mut input: Input<'_> = Input::new(directory, None);
    let result: Result<()> = input.fetch(store, 0, output);
    assert(result is Ok ==> output@ =~= old(store).host().model.document(directory@));
    result
}

/// The stream of an entry.
pub open spec fn entry_stream(document: Seq<u8>, entry: BlockEntry, tokens: u32) -> StreamModel {
    StreamModel {
        source: document.subrange(entry.start, entry.start + entry.size),
        at: 4,
        remaining: entry.count as nat,
        previous: 0,
        first: true,
        tokens,
        complete: true,
    }
}

/// What a document without blocks tells of a phrase.
pub open spec fn streams_told(
    document: Seq<u8>,
    tokens: u32,
    entries: Result<Option<Seq<BlockEntry>>>,
    result: Result<bool>,
) -> bool {
    match entries {
        Err(error) => result == Err::<bool, Error>(error),
        Ok(None) => result == Ok::<bool, Error>(false),
        Ok(Some(entries)) => if tokens > MAX_DOCUMENT_TOKENS {
            result == Err::<bool, Error>(Error::InvalidDocument)
        } else {
            let streams = Seq::new(
                entries.len(),
                |i: int| entry_stream(document, entries[i], tokens),
            );
            match result {
                Ok(true) => phrase_stands(stream_finders(streams)),
                Ok(false) => phrase_fails(stream_finders(streams)),
                Err(error) => seek_fails(stream_finders(streams), error),
            }
        },
    }
}

/// What was selected, and where each selected range will be buffered.
struct Ranges {
    selection: Selection,
    size: usize,
    /// The selected ranges one after the other.
    buffer: Ghost<Seq<u8>>,
}

/// Whether a buffered range ends where the next one starts.
spec fn adjacent(descriptors: Seq<Descriptor>, i: int, size: usize) -> bool {
    descriptors[i].retained + descriptors[i].length == if i + 1 < descriptors.len() {
        descriptors[i + 1].retained as int
    } else {
        size as int
    }
}

impl Ranges {
    spec fn wf(self, document: Seq<u8>) -> bool {
        &&& self.selection.wf(document, self.buffer@)
        &&& self.size == self.buffer@.len()
        &&& forall|i: int|
            0 <= i < self.selection.descriptors@.len() ==> !(
            #[trigger] self.selection.descriptors@[i]).blocked
        &&& forall|i: int|
            0 <= i < self.selection.descriptors@.len() ==> #[trigger] adjacent(
                self.selection.descriptors@,
                i,
                self.size,
            )
        &&& self.selection.descriptors@.len() > 0 ==> self.selection.descriptors@[0].retained == 0
        &&& self.selection.descriptors@.len() == 0 ==> self.size == 0
    }
}

/// Selects the ranges of the wanted words; `None` where the document lacks one.
#[verifier::loop_isolation(false)]
fn select_ranges<C, S: ByteSource<C>>(
    source: &mut S,
    context: &mut C,
    total: usize,
    tokens: u32,
    terms: u32,
    wanted: &[String],
) -> (result: Result<Option<Ranges>>)
    requires
        old(source).valid(*old(context)),
        total == old(source).content(*old(context)).len(),
        total <= MAX_DOCUMENT_BYTES,
        0 < wanted@.len(),
    ensures
        undisturbed((*old(source), *old(context)), (*final(source), *final(context))),
        ({
            let document = old(source).content(*old(context));
            let entries = wanted_entries(document, false, tokens, terms, wanted_bytes(wanted@));
            let kept = wanted_bytes_kept(document, false, tokens, terms, wanted_bytes(wanted@));
            match result {
                Ok(Some(ranges)) => {
                    &&& ranges.wf(document)
                    &&& ranges.size == kept
                    &&& ranges.selection.mapping@.len() == wanted@.len()
                    &&& all_met(ranges.selection.words())
                    &&& entries == Ok::<Option<Seq<BlockEntry>>, Error>(
                        Some(
                            Seq::new(
                                wanted@.len(),
                                |i: int| ranges.selection.words()[i]->Some_0,
                            ),
                        ),
                    )
                },
                Ok(None) => entries == Ok::<Option<Seq<BlockEntry>>, Error>(None),
                Err(error) => !old(source).reliable(*old(context)) || entries == Err::<
                    Option<Seq<BlockEntry>>,
                    Error,
                >(error),
            }
        }),
{
    let ghost document = source.content(*context);
    let ghost words = wanted_bytes(wanted@);
    let ghost goal = wanted_entries(document, false, tokens, terms, words);
    let ghost needed = wanted_bytes_kept(document, false, tokens, terms, words);
    check_header(source, context, total, false, tokens, terms)?;
    let mut ranges: Ranges = Ranges {
        selection: Selection::new(wanted.len()),
        size: 0,
        buffer: Ghost(Seq::empty()),
    };
    assert(ranges.selection.words() =~= Seq::new(words.len(), |i: int| None::<BlockEntry>));
    let mut offset: usize = 16;
    let mut frequency: u32 = 0;
    let mut previous: Vec<u8> = Vec::new();
    assert(previous@ =~= Seq::<u8>::empty());
    let mut term: u32 = 0;
    while term < terms
        invariant
            term <= terms,
            offset <= total,
            frequency <= tokens,
            ranges.size <= offset,
            source.content(*context) == document,
            undisturbed((*old(source), *old(context)), (*source, *context)),
            ranges.selection.mapping@.len() == wanted@.len(),
            ranges.wf(document),
            needed == ranges.size + kept_bytes(
                document,
                false,
                tokens,
                (terms - term) as nat,
                offset as int,
                previous@,
                frequency as int,
                words,
                ranges.selection.words(),
            ),
            goal == gathered_entries(
                document,
                false,
                tokens,
                (terms - term) as nat,
                offset as int,
                previous@,
                frequency as int,
                words,
                ranges.selection.words(),
            ),
        decreases terms - term,
    {
        let entry: Entry = read_entry(
            source,
            context,
            total,
            false,
            tokens,
            offset,
            previous.as_slice(),
            frequency,
        )?;
        let ghost kept = ranges.selection.descriptors@;
        let ghost buffer = ranges.buffer@;
        let size: usize = ranges.size;
        let used: bool = Selection::wants(wanted, entry.name.as_slice());
        proof {
            if used {
                let i = choose|i: int|
                    0 <= i < wanted@.len() && #[trigger] wanted_bytes(wanted@)[i] == entry.name@;
                assert(words[i] == entry.name@);
            }
            assert(words.contains(entry.name@) == used);
        }
        let descriptor: Option<Descriptor> = if used {
            let ghost piece = document.subrange(entry.start as int, entry.start + entry.size);
            proof {
                assert((buffer + piece).take(buffer.len() as int) =~= buffer);
                assert((buffer + piece).subrange(size as int, size + entry.size) =~= piece);
                still_described(kept, ranges.selection.entries@, document, buffer, buffer + piece);
            }
            ranges.buffer = Ghost(buffer + piece);
            ranges.size = size + entry.size;
            Some(
                Descriptor {
                    start: entry.start,
                    size: entry.size,
                    retained: size,
                    length: entry.length,
                    count: entry.count,
                    blocked: false,
                },
            )
        } else {
            None
        };
        let ghost now = ranges.buffer@;
        let complete: bool = ranges.selection.assign(
            wanted,
            &entry,
            descriptor,
            Ghost(document),
            Ghost(now),
        );
        proof {
            let all = ranges.selection.descriptors@;
            assert(all == match descriptor {
                Some(descriptor) => kept.push(descriptor),
                None => kept,
            });
            assert forall|i: int| 0 <= i < all.len() implies #[trigger] adjacent(
                all,
                i,
                ranges.size,
            ) by {
                if i < kept.len() {
                    assert(adjacent(kept, i, size));
                    assert(all[i] == kept[i]);
                    if i + 1 < kept.len() {
                        assert(all[i + 1] == kept[i + 1]);
                    }
                }
            }
        }
        if complete {
            return Ok(Some(ranges));
        }
        offset = entry.start + entry.size;
        frequency = frequency + entry.count;
        previous = entry.name;
        term += 1;
    }
    if offset != total || frequency != tokens {
        return Err(Error::InvalidDocument);
    }
    Ok(None)
}

/// Reads the selected ranges one after the other.
#[verifier::loop_isolation(false)]
fn read_ranges<C, S: ByteSource<C>>(
    source: &mut S,
    context: &mut C,
    total: usize,
    ranges: &Ranges,
    bytes: &mut Scratch,
) -> (result: Result<()>)
    requires
        old(source).valid(*old(context)),
        total == old(source).content(*old(context)).len(),
        ranges.wf(old(source).content(*old(context))),
        old(bytes)@.bytes.len() == 0,
        ranges.size <= old(bytes)@.held,
    ensures
        undisturbed((*old(source), *old(context)), (*final(source), *final(context))),
        match result {
            Ok(_) => final(bytes)@.bytes == ranges.buffer@,
            Err(_) => !old(source).reliable(*old(context)),
        },
{
    let ghost document = source.content(*context);
    let ghost all = ranges.selection.descriptors@;
    let mut index: usize = 0;
    assert(bytes@.bytes =~= ranges.buffer@.take(0));
    while index < ranges.selection.descriptors.len()
        invariant
            index <= all.len(),
            bytes@.held == old(bytes)@.held,
            source.content(*context) == document,
            undisturbed((*old(source), *old(context)), (*source, *context)),
            bytes@.bytes.len() <= ranges.buffer@.len(),
            bytes@.bytes.len() == if index < all.len() {
                all[index as int].retained as int
            } else {
                ranges.size as int
            },
            bytes@.bytes == ranges.buffer@.take(bytes@.bytes.len() as int),
        decreases all.len() - index,
    {
        let descriptor: Descriptor = ranges.selection.descriptors[index];
        let ghost before = bytes@.bytes;
        assert(adjacent(all, index as int, ranges.size));
        assert(describes(
            descriptor,
            ranges.selection.entries@[index as int],
            document,
            ranges.buffer@,
        ));
        let piece: Vec<u8> = fetch_piece(
            source,
            context,
            total,
            descriptor.start,
            descriptor.length,
        )?;
        let ghost read = piece@;
        bytes.append(piece.as_slice());
        proof {
            assert(bytes@.bytes =~= before + read);
            assert(bytes@.bytes =~= ranges.buffer@.take(bytes@.bytes.len() as int)) by {
                assert forall|i: int| 0 <= i < bytes@.bytes.len() implies bytes@.bytes[i]
                    == ranges.buffer@[i] by {
                    if i < before.len() {
                        assert(before[i] == ranges.buffer@.take(before.len() as int)[i]);
                    } else {
                        assert(read[i - before.len()] == ranges.buffer@.subrange(
                            descriptor.retained as int,
                            descriptor.retained + descriptor.length,
                        )[i - before.len()]);
                    }
                }
            }
        }
        index += 1;
    }
    assert(bytes@.bytes =~= ranges.buffer@);
    Ok(())
}

/// The buffered streams of the words.
#[verifier::loop_isolation(false)]
fn word_streams<'a>(
    selection: &Selection,
    bytes: &'a [u8],
    tokens: u32,
    document: Ghost<Seq<u8>>,
) -> (result: Result<Vec<&'a [u8]>>)
    requires
        selection.wf(document@, bytes@),
        all_met(selection.words()),
        forall|i: int|
            0 <= i < selection.descriptors@.len() ==> !(
            #[trigger] selection.descriptors@[i]).blocked,
    ensures
        result matches Ok(streams) && streams@.len() == selection.mapping@.len() && (forall|i: int|
            0 <= i < streams@.len() ==> (#[trigger] streams@[i])@ == document@.subrange(
                selection.words()[i]->Some_0.start,
                selection.words()[i]->Some_0.start + selection.words()[i]->Some_0.size,
            )),
{
    let ghost document = document@;
    let mut streams: Vec<&'a [u8]> = Vec::new();
    let room: usize = bytes.len();
    let mut index: usize = 0;
    while index < selection.mapping.len()
        invariant
            index <= selection.mapping@.len(),
            streams@.len() == index,
            room == bytes@.len(),
            forall|i: int|
                0 <= i < index ==> (#[trigger] streams@[i])@ == document.subrange(
                    selection.words()[i]->Some_0.start,
                    selection.words()[i]->Some_0.start + selection.words()[i]->Some_0.size,
                ),
        decreases selection.mapping@.len() - index,
    {
        assert(selection.words()[index as int] is Some);
        let place: usize = match selection.mapping[index] {
            Some(place) => place,
            None => {
                return Err(Error::InvalidState);
            },
        };
        let descriptor: Descriptor = selection.descriptors[place];
        assert(describes(descriptor, selection.entries@[place as int], document, bytes@));
        let stream: &'a [u8] = slice_subrange(
            bytes,
            descriptor.retained,
            descriptor.retained + descriptor.length,
        );
        streams.push(stream);
        index += 1;
    }
    Ok(streams)
}

/// What a document behind an extent map tells of a phrase.
pub open spec fn directory_told(
    model: StoreModel,
    directory: DirectoryModel,
    tokens: u32,
    terms: u32,
    wanted: Seq<Seq<u8>>,
    result: Result<bool>,
) -> bool {
    let document = model.document(directory);
    if directory.prefix.take(4) == block_document_magic() {
        if tokens > MAX_DOCUMENT_TOKENS || terms > tokens {
            result == Err::<bool, Error>(Error::InvalidDocument)
        } else {
            document_told(
                document,
                tokens,
                wanted_entries(document, true, tokens, terms, wanted),
                result,
            )
        }
    } else {
        streams_told(
            document,
            tokens,
            wanted_entries(document, false, tokens, terms, wanted),
            result,
        )
    }
}

/// Whether an extent map belongs to the owner and the phrase can be searched.
pub open spec fn searchable(directory: DirectoryModel, owner: OwnerModel, words: int) -> bool {
    &&& directory.owner == owner.reference
    &&& directory.total == owner.data_bytes
    &&& 0 < words <= 64
}

/// Searches the phrase in a document without blocks.
#[verifier::loop_isolation(false)]
fn matches_streams<C, S: ByteSource<C>>(
    source: &mut S,
    context: &mut C,
    total: usize,
    tokens: u32,
    terms: u32,
    wanted: &[String],
    budget: usize,
    bytes: &mut Scratch,
) -> (result: Result<Option<bool>>)
    requires
        old(bytes)@.held <= budget,
        old(source).valid(*old(context)),
        total == old(source).content(*old(context)).len(),
        total <= MAX_DOCUMENT_BYTES,
        0 < wanted@.len() <= 64,
    ensures
        undisturbed((*old(source), *old(context)), (*final(source), *final(context))),
        ({
            let document = old(source).content(*old(context));
            let entries = wanted_entries(document, false, tokens, terms, wanted_bytes(wanted@));
            let kept = wanted_bytes_kept(document, false, tokens, terms, wanted_bytes(wanted@));
            match result {
                Ok(Some(found)) => streams_told(document, tokens, entries, Ok(found)) && (
                entries matches Ok(Some(_)) ==> kept <= budget),
                Ok(None) => kept > old(bytes)@.held,
                Err(error) => !old(source).reliable(*old(context)) || streams_told(
                    document,
                    tokens,
                    entries,
                    Err(error),
                ),
            }
        }),
{
    let ghost document = source.content(*context);
    let ranges: Ranges = match select_ranges(source, context, total, tokens, terms, wanted)? {
        Some(ranges) => ranges,
        None => {
            return Ok(Some(false));
        },
    };
    bytes.clear();
    if !bytes.grow(ranges.size, budget) {
        return Ok(None);
    }
    read_ranges(source, context, total, &ranges, bytes)?;
    let streams: Vec<&[u8]> = word_streams(
        &ranges.selection,
        bytes.bytes(),
        tokens,
        Ghost(document),
    )?;
    let ghost entries = Seq::new(
        wanted@.len(),
        |i: int| ranges.selection.words()[i]->Some_0,
    );
    proof {
        if tokens <= MAX_DOCUMENT_TOKENS {
            let models = Seq::new(
                entries.len(),
                |i: int| entry_stream(document, entries[i], tokens),
            );
            assert forall|i: int| 0 <= i < streams@.len() implies counted_stream(
                (#[trigger] streams@[i])@,
                tokens,
            ) == Ok::<StreamModel, Error>(models[i]) by {
                wanted_counted(document, tokens, terms, wanted_bytes(wanted@), i);
            }
            streams_counted(streams@, tokens, models);
        }
    }
    let found: bool = matches_positions(streams.as_slice(), tokens)?;
    Ok(Some(found))
}

/// Streams that can each be read can all be read.
proof fn streams_counted(payloads: Seq<&[u8]>, tokens: u32, models: Seq<StreamModel>)
    requires
        payloads.len() == models.len(),
        forall|i: int|
            0 <= i < payloads.len() ==> counted_stream((#[trigger] payloads[i])@, tokens) == Ok::<
                StreamModel,
                Error,
            >(models[i]),
    ensures
        counted_streams(payloads, tokens) == Ok::<Seq<StreamModel>, Error>(models),
    decreases payloads.len(),
{
    if payloads.len() == 0 {
        assert(models =~= Seq::empty());
    } else {
        assert forall|i: int| 0 <= i < payloads.len() - 1 implies counted_stream(
            (#[trigger] payloads.drop_last()[i])@,
            tokens,
        ) == Ok::<StreamModel, Error>(models.drop_last()[i]) by {
            assert(payloads[i] == payloads.drop_last()[i]);
        }
        streams_counted(payloads.drop_last(), tokens, models.drop_last());
        assert(models =~= models.drop_last().push(models.last()));
        assert(payloads[payloads.len() - 1] == payloads.last());
    }
}

/// Whether an entry's stream can be read.
spec fn entry_counted(document: Seq<u8>, entry: BlockEntry, tokens: u32) -> bool {
    counted_stream(document.subrange(entry.start, entry.start + entry.size), tokens) == Ok::<
        StreamModel,
        Error,
    >(entry_stream(document, entry, tokens))
}

/// The stream of each gathered entry can be read.
proof fn gathered_counted(
    document: Seq<u8>,
    tokens: u32,
    remaining: nat,
    offset: int,
    previous: Seq<u8>,
    frequency: int,
    wanted: Seq<Seq<u8>>,
    entries: Seq<Option<BlockEntry>>,
)
    requires
        0 <= offset,
        document.len() <= MAX_DOCUMENT_BYTES,
        entries.len() == wanted.len(),
        forall|i: int|
            0 <= i < entries.len() ==> (#[trigger] entries[i] matches Some(entry) ==> entry_counted(
                document,
                entry,
                tokens,
            )),
    ensures
        gathered_entries(
            document,
            false,
            tokens,
            remaining,
            offset,
            previous,
            frequency,
            wanted,
            entries,
        ) matches Ok(Some(found)) ==> found.len() == wanted.len() && forall|i: int|
            0 <= i < found.len() ==> entry_counted(document, #[trigger] found[i], tokens),
    decreases remaining,
{
    if remaining > 0 {
        if let Ok(entry) = block_phrase::block_entry(
            document,
            false,
            tokens,
            offset,
            previous,
            frequency,
        ) {
            crate::codec::bytes::le_inside(document, entry.start, entry.size, 0);
            assert(entry_counted(document, entry, tokens));
            let next = block_phrase::with_block_entry(entries, wanted, entry);
            assert forall|i: int| 0 <= i < next.len() implies (#[trigger] next[i] matches Some(e)
                ==> entry_counted(document, e, tokens)) by {
                assert(entries[i] matches Some(e) ==> entry_counted(document, e, tokens));
            }
            if !all_met(next) {
                gathered_counted(
                    document,
                    tokens,
                    (remaining - 1) as nat,
                    entry.start + entry.size,
                    entry.term,
                    frequency + entry.count,
                    wanted,
                    next,
                );
            } else {
                let found = Seq::new(next.len(), |i: int| next[i]->Some_0);
                assert forall|i: int| 0 <= i < found.len() implies entry_counted(
                    document,
                    #[trigger] found[i],
                    tokens,
                ) by {
                    assert(next[i] is Some);
                }
            }
        }
    }
}

/// The stream of each wanted entry can be read.
proof fn wanted_counted(
    document: Seq<u8>,
    tokens: u32,
    terms: u32,
    wanted: Seq<Seq<u8>>,
    index: int,
)
    requires
        document.len() <= MAX_DOCUMENT_BYTES,
        wanted_entries(document, false, tokens, terms, wanted) matches Ok(Some(_)),
        0 <= index < wanted.len(),
    ensures
        entry_counted(
            document,
            wanted_entries(document, false, tokens, terms, wanted)->Ok_0->Some_0[index],
            tokens,
        ),
{
    gathered_counted(
        document,
        tokens,
        terms as nat,
        16,
        Seq::empty(),
        0,
        wanted,
        Seq::new(wanted.len(), |i: int| None),
    );
}

/// The scratch of a search over streams that does not depend on the document:
/// ranges and places of 64 words and two names.
pub const STREAM_SCRATCH: usize = 4096;

/// What a fragment page costs that is not cached yet.
pub open spec fn page_cost(cache: Option<Page>) -> int {
    match cache {
        Some(_) => 0,
        None => vstd::layout::size_of::<Page>() as int,
    }
}

/// Whether scratch does not suffice for a search: the budget does not cover the
/// fixed part and the capacity at hand, or more bytes have to be kept than that
/// capacity holds.
pub open spec fn short_of_scratch(
    document: Seq<u8>,
    directory: DirectoryModel,
    owner: OwnerModel,
    wanted: Seq<Seq<u8>>,
    memory: int,
    page: int,
    held: int,
) -> bool {
    let blocks = directory.prefix.take(4) == block_document_magic();
    let fixed = page + if blocks {
        fixed_scratch() as int
    } else {
        STREAM_SCRATCH as int
    };
    memory < fixed + held || wanted_bytes_kept(document, blocks, owner.tokens, owner.terms, wanted)
        > held
}

/// Searches a phrase in a document behind an extent map. `None` means bounded
/// scratch is insufficient.
///
/// # Errors
/// Rejects extents that are not those of the owner, damage in what was read
/// and host failures.
pub(crate) fn matches<S: PageStore>(
    store: &mut S,
    head: &Page,
    owner: &Owner<'_>,
    wanted: &[String],
    memory_bytes: usize,
    bytes: &mut Scratch,
    cache: &mut Option<Page>,
) -> (result: Result<Option<bool>>)
    requires
        cached_fragment(*old(cache), old(store).host().model),
    ensures
        final(store).host() == old(store).host(),
        cached_fragment(*final(cache), old(store).host().model),
        match head@.document_directory_data() {
            Err(error) => result == Err::<Option<bool>, Error>(error),
            Ok(directory) => if !searchable(directory, owner@, wanted@.len() as int) {
                result == Err::<Option<bool>, Error>(Error::InvalidDocument)
            } else {
                match result {
                    Ok(Some(found)) => directory_told(
                        old(store).host().model,
                        directory,
                        owner.tokens,
                        owner.terms,
                        wanted_bytes(wanted@),
                        Ok(found),
                    ),
                    Ok(None) => short_of_scratch(
                        old(store).host().model.document(directory),
                        directory,
                        owner@,
                        wanted_bytes(wanted@),
                        memory_bytes as int,
                        page_cost(*old(cache)),
                        old(bytes)@.held as int,
                    ),
                    Err(error) => !old(store).host().reliable || !old(store).host().model.whole(
                        directory,
                    ) || directory_told(
                        old(store).host().model,
                        directory,
                        owner.tokens,
                        owner.terms,
                        wanted_bytes(wanted@),
                        Err(error),
                    ),
                }
            },
        },
{
    let directory: DocumentDirectory<'_> = head.document_directory_data()?;
    if directory.owner != owner.reference || directory.total != owner.data_bytes as usize
        || wanted.len() == 0 || wanted.len() > 64 || directory.total > MAX_DOCUMENT_BYTES {
        return Err(Error::InvalidDocument);
    }
    let page_cost: usize = match cache {
        Some(_) => 0,
        None => size_of::<Page>(),
    };
    let held: usize = bytes.held();
    let magic: [u8; 4] = [0x50, 0x44, 0x30, 0x33];
    assert(magic@ =~= block_document_magic());
    let start: &[u8] = slice_subrange(directory.prefix, 0, 4);
    assert(start@ =~= directory.prefix@.take(4));
    let blocks: bool = same_bytes(start, &magic);
    let fixed: usize = if blocks {
        page_cost
    } else {
        page_cost.saturating_add(STREAM_SCRATCH)
    };
    if memory_bytes < fixed {
        return Ok(None);
    }
    let budget: usize = memory_bytes - fixed;
    let total: usize = directory.total;
    let mut input: Input<'_> = Input::new(directory, cache.take());
    let result: Result<Option<bool>> = if blocks {
        block_phrase::matches(
            total,
            owner.tokens,
            owner.terms,
            wanted,
            budget,
            bytes,
            &mut input,
            store,
        )
    } else if held > budget {
        Ok(None)
    } else {
        matches_streams(
            &mut input,
            store,
            total,
            owner.tokens,
            owner.terms,
            wanted,
            budget,
            bytes,
        )
    };
    *cache = input.into_cache();
    result
}

} // verus!
