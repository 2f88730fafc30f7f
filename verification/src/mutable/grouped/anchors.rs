//! Snapshot-time canonical suffix anchors in the grouped allocation journal.
//! Source pointers are valid only until the first canonical chain rewrite.

use crate::codec::bytes::{
    get_u32, get_u64, group_bytes, le_u32, le_u32_of_bytes, le_u64, le_u64_of_bytes, splice,
    u32_bytes, u64_array, u64_bytes, Writer,
};
use crate::error::{Error, Result};
use crate::identity::group_identity;
use crate::mutable::page::grouped_model::{EntryModel, GroupModel};
use crate::mutable::page::model::Image;
use crate::mutable::page::{
    CatalogEntry, GroupSnapshot, GroupState, Page, TermRef, CAPACITY, NO_BLOCK,
};
use crate::mutable::grouped::catalog::{Cursor, CursorModel};
use crate::mutable::grouped::records::same_key;
use crate::mutable::store::{answers, commit_one, performs, Change, PageStore, Stage, StoreModel};
use crate::mutable::writer::has_meta;
use crate::text::same_bytes;
use vstd::prelude::*;

verus! {

broadcast use {group_bytes, group_identity};

/// Four big-endian words that a sorter orders by their bytes.
#[derive(Clone, Copy, Debug, Eq, PartialEq)]
pub struct SortRecord(pub [u8; 32]);

impl Default for SortRecord {
    fn default() -> (record: Self)
        ensures
            record.0@ == Seq::new(32, |i: int| 0u8),
    {
        let record: SortRecord = SortRecord([0u8; 32]);
        assert(record.0@ =~= Seq::new(32, |i: int| 0u8));
        record
    }
}

/// A word with its high byte first.
pub open spec fn word_code(word: u64) -> Seq<u8> {
    u64_bytes(word).reverse()
}

/// The word at `index` of a record.
pub open spec fn word_at(record: Seq<u8>, index: int) -> u64 {
    le_u64(record.subrange(index * 8, index * 8 + 8).reverse(), 0)
}

/// The stored form of four words.
pub open spec fn record_code(words: Seq<u64>) -> Seq<u8> {
    word_code(words[0]) + word_code(words[1]) + word_code(words[2]) + word_code(words[3])
}

/// A word reads back from a record as it was stored.
pub proof fn record_word(words: Seq<u64>, index: int)
    requires
        words.len() == 4,
        0 <= index < 4,
    ensures
        word_at(record_code(words), index) == words[index],
        record_code(words).len() == 32,
{
    let code = record_code(words);
    let bytes = u64_bytes(words[index]);
    assert(bytes.len() == 8);
    assert(code.subrange(index * 8, index * 8 + 8).reverse() =~= bytes);
    assert(bytes.subrange(0, 8) =~= bytes);
    le_u64_of_bytes(bytes, 0, words[index]);
}

impl SortRecord {
    /// A record of four words.
    #[verifier::loop_isolation(false)]
    pub fn of_words(words: [u64; 4]) -> (record: Self)
        ensures
            record.0@ == record_code(words@),
    {
        let mut bytes: [u8; 32] = [0u8; 32];
        let mut index: usize = 0;
        let ghost code = record_code(words@);
        while index < 4
            invariant
                index <= 4,
                forall|i: int| 0 <= i < index * 8 ==> #[trigger] bytes@[i] == code[i],
            decreases 4 - index,
        {
            let word: [u8; 8] = u64_array(words[index]);
            let ghost early = bytes@;
            let mut i: usize = 0;
            while i < 8
                invariant
                    i <= 8,
                    forall|j: int| 0 <= j < index * 8 ==> #[trigger] bytes@[j] == early[j],
                    forall|j: int|
                        index * 8 <= j < index * 8 + i ==> #[trigger] bytes@[j] == word@[7 - (j
                            - index * 8)],
                decreases 8 - i,
            {
                bytes[index * 8 + i] = word[7 - i];
                i += 1;
            }
            assert forall|j: int| 0 <= j < index * 8 + 8 implies #[trigger] bytes@[j] == code[j] by {
                if j >= index * 8 {
                    assert(code[j] == word_code(words@[index as int])[j - index * 8]);
                }
            }
            index += 1;
        }
        assert(bytes@ =~= code);
        SortRecord(bytes)
    }

    /// The word at `index`.
    #[verifier::loop_isolation(false)]
    pub fn word(&self, index: usize) -> (word: u64)
        requires
            index < 4,
        ensures
            word == word_at(self.0@, index as int),
    {
        let mut bytes: [u8; 8] = [0u8; 8];
        let mut i: usize = 0;
        while i < 8
            invariant
                i <= 8,
                forall|j: int| 0 <= j < i ==> #[trigger] bytes@[j] == self.0@[index * 8 + 7 - j],
            decreases 8 - i,
        {
            bytes[i] = self.0[index * 8 + (7 - i)];
            i += 1;
        }
        assert(bytes@ =~= self.0@.subrange(index * 8, index * 8 + 8).reverse());
        get_u64(&bytes, 0)
    }
}

/// Where a term's postings stood when a snapshot was taken: its chain and the
/// incarnation of its last owner.
#[derive(Clone, Copy, Debug, Eq, PartialEq, Structural)]
pub struct Anchor {
    pub head: u32,
    pub tail: u32,
    pub last: u64,
}

/// A term reference as a sortable number.
pub open spec fn term_number(reference: TermRef) -> u64 {
    (reference.page * 0x1_0000 + reference.offset) as u64
}

/// Whether a number is that of a term.
pub open spec fn is_term_number(key: u64) -> bool {
    &&& 0 < key / 0x1_0000 < NO_BLOCK
    &&& 16 <= key % 0x1_0000 < CAPACITY
}

pub fn term_key(reference: TermRef) -> (key: u64)
    ensures
        key == term_number(reference),
{
    reference.page as u64 * 0x1_0000 + reference.offset as u64
}

pub fn valid_term(key: u64) -> (valid: bool)
    ensures
        valid == is_term_number(key),
{
    let page: u64 = key / 0x1_0000;
    let offset: u64 = key % 0x1_0000;
    page > 0 && page < NO_BLOCK as u64 && offset >= 16 && offset < CAPACITY as u64
}

/// The four bytes that mark an anchor in a catalog.
pub open spec fn anchor_magic() -> Seq<u8> {
    seq![0x46u8, 0x53u8, 0x41u8, 0x31u8]
}

/// The stored form of an anchor.
pub open spec fn anchor_code(anchor: Anchor) -> Seq<u8> {
    anchor_magic() + u32_bytes(anchor.head) + u32_bytes(anchor.tail) + u64_bytes(anchor.last)
        + Seq::new(44, |i: int| 0u8)
}

/// The anchor that an entry holds.
pub open spec fn anchor_at(entry: EntryModel) -> Result<Anchor> {
    let anchor = Anchor {
        head: le_u32(entry.value, 4),
        tail: le_u32(entry.value, 8),
        last: le_u64(entry.value, 12),
    };
    if !is_term_number(entry.key[0]) || entry.key[1] != 0 || entry.value.take(4) != anchor_magic()
        || !anchor.valid() || entry.value.subrange(20, 64) != Seq::new(44, |i: int| 0u8) {
        Err(Error::InvalidState)
    } else {
        Ok(anchor)
    }
}

impl Anchor {
    pub open spec fn valid(self) -> bool {
        &&& self.last != 0
        &&& self.head != 0
        &&& self.tail != 0
        &&& (self.head == NO_BLOCK) == (self.tail == NO_BLOCK)
    }

    /// # Errors
    /// Rejects a zero block, a chain with one end, and a missing incarnation.
    pub fn new(head: u32, tail: u32, last: u64) -> (result: Result<Self>)
        ensures
            result == if (Anchor { head, tail, last }).valid() {
                Ok(Anchor { head, tail, last })
            } else {
                Err::<Anchor, Error>(Error::InvalidState)
            },
    {
        if last == 0 || head == 0 || tail == 0 || (head == NO_BLOCK) != (tail == NO_BLOCK) {
            return Err(Error::InvalidState);
        }
        Ok(Anchor { head, tail, last })
    }

    /// The words of the anchor of a term. Zero is not a valid coordinate and
    /// sorts before every posting of the term.
    pub open spec fn words(self, term: u64) -> Seq<u64> {
        seq![term, 0u64, (self.head * 0x1_0000_0000 + self.tail) as u64, self.last]
    }

    pub fn sort_record(self, term: u64) -> (record: SortRecord)
        ensures
            record.0@ == record_code(self.words(term)),
    {
        let chain: u64 = self.head as u64 * 0x1_0000_0000 + self.tail as u64;
        let words: [u64; 4] = [term, 0, chain, self.last];
        assert(words@ =~= self.words(term));
        SortRecord::of_words(words)
    }

    /// The anchor of a record; `None` for the record of a posting.
    ///
    /// # Errors
    /// Rejects an anchor of no term and an invalid chain.
    pub fn from_sort(record: SortRecord) -> (result: Result<Option<(u64, Self)>>)
        ensures
            ({
                let term = word_at(record.0@, 0);
                let chain = word_at(record.0@, 2);
                let anchor = Anchor {
                    head: (chain / 0x1_0000_0000) as u32,
                    tail: (chain % 0x1_0000_0000) as u32,
                    last: word_at(record.0@, 3),
                };
                result == if word_at(record.0@, 1) != 0 {
                    Ok(None)
                } else if !is_term_number(term) || !anchor.valid() {
                    Err::<Option<(u64, Anchor)>, Error>(Error::InvalidState)
                } else {
                    Ok(Some((term, anchor)))
                }
            }),
    {
        if record.word(1) != 0 {
            return Ok(None);
        }
        let term: u64 = record.word(0);
        if !valid_term(term) {
            return Err(Error::InvalidState);
        }
        let chain: u64 = record.word(2);
        let anchor: Anchor = Anchor::new(
            (chain / 0x1_0000_0000) as u32,
            (chain % 0x1_0000_0000) as u32,
            record.word(3),
        )?;
        Ok(Some((term, anchor)))
    }

    /// The catalog entry of the anchor of a term.
    pub fn entry(self, term: u64) -> (entry: CatalogEntry)
        ensures
            entry.key@ == seq![term, 0u64],
            entry.value@ == anchor_code(self),
    {
        let mut value: [u8; 64] = [0u8; 64];
        let magic: [u8; 4] = [0x46, 0x53, 0x41, 0x31];
        assert(magic@ =~= anchor_magic());
        let ghost before = value@;
        assert(before =~= splice(before, 0, Seq::empty()));
        assert(Seq::<u8>::empty() + magic@ =~= magic@);
        let mut writer: Writer<'_> = Writer::new(&mut value);
        let first: crate::codec::Result<()> = writer.put(&magic);
        let second: crate::codec::Result<()> = writer.u32(self.head);
        let third: crate::codec::Result<()> = writer.u32(self.tail);
        let fourth: crate::codec::Result<()> = writer.u64(self.last);
        assert(first is Ok && second is Ok && third is Ok && fourth is Ok);
        assert(value@ =~= anchor_code(self));
        let key: [u64; 2] = [term, 0];
        assert(key@ =~= seq![term, 0u64]);
        CatalogEntry { key, value }
    }

    /// Whether an entry is marked as an anchor.
    pub fn is_entry(entry: &CatalogEntry) -> (marked: bool)
        ensures
            marked == (entry.value@.take(4) == anchor_magic()),
    {
        let magic: [u8; 4] = [0x46, 0x53, 0x41, 0x31];
        assert(magic@ =~= anchor_magic());
        let start: &[u8] = &entry.value[0..4];
        assert(start@ =~= entry.value@.take(4));
        same_bytes(start, &magic)
    }

    /// # Errors
    /// Rejects an entry of no term, without the mark, with an invalid chain or
    /// with bytes behind the anchor.
    pub fn read(entry: &CatalogEntry) -> (result: Result<Self>)
        ensures
            result == anchor_at(entry@),
    {
        if !valid_term(entry.key[0]) || entry.key[1] != 0 {
            return Err(Error::InvalidState);
        }
        if !Anchor::is_entry(entry) {
            return Err(Error::InvalidState);
        }
        let anchor: Anchor = Anchor::new(
            get_u32(&entry.value, 4),
            get_u32(&entry.value, 8),
            get_u64(&entry.value, 12),
        )?;
        let zeros: [u8; 44] = [0u8; 44];
        assert(zeros@ =~= Seq::new(44, |i: int| 0u8));
        if !same_bytes(&entry.value[20..64], &zeros) {
            return Err(Error::InvalidState);
        }
        Ok(anchor)
    }
}

/// An anchor reads back from its catalog entry and from its sort record.
pub proof fn anchor_round_trip(anchor: Anchor, term: u64)
    requires
        anchor.valid(),
        is_term_number(term),
    ensures
        anchor_at(EntryModel { key: seq![term, 0u64], value: anchor_code(anchor) }) == Ok::<
            Anchor,
            Error,
        >(anchor),
        ({
            let record = record_code(anchor.words(term));
            let chain = word_at(record, 2);
            &&& word_at(record, 0) == term
            &&& word_at(record, 1) == 0
            &&& (chain / 0x1_0000_0000) as u32 == anchor.head
            &&& (chain % 0x1_0000_0000) as u32 == anchor.tail
            &&& word_at(record, 3) == anchor.last
        }),
{
    let code = anchor_code(anchor);
    assert(code.take(4) =~= anchor_magic());
    assert(code.subrange(4, 8) =~= u32_bytes(anchor.head));
    assert(code.subrange(8, 12) =~= u32_bytes(anchor.tail));
    assert(code.subrange(12, 20) =~= u64_bytes(anchor.last));
    assert(code.subrange(20, 64) =~= Seq::new(44, |i: int| 0u8));
    le_u32_of_bytes(code, 4, anchor.head);
    le_u32_of_bytes(code, 8, anchor.tail);
    le_u64_of_bytes(code, 12, anchor.last);
    let words = anchor.words(term);
    record_word(words, 0);
    record_word(words, 1);
    record_word(words, 2);
    record_word(words, 3);
}

impl Image {
    /// The metadata with another grouped state.
    pub open spec fn with_group_state(self, state: GroupModel) -> Result<Image> {
        match self.stored_state(state) {
            Err(error) => Err(error),
            Ok(code) => Ok(Image { bytes: self.bytes.take(4160) + code, ..self }),
        }
    }
}

/// The state whose active snapshot no longer vouches for source chains.
pub open spec fn without_frontier(state: GroupModel) -> GroupModel {
    GroupModel {
        active: match state.active {
            Some(active) => Some(GroupSnapshot { frontier_valid: false, ..active }),
            None => None,
        },
        ..state
    }
}

/// Withdrawing the frontier of the active snapshot: the metadata then.
pub open spec fn frontier_withdrawn(model: StoreModel, meta: Image) -> Change<Image> {
    match meta.grouped_state() {
        Err(error) => Change::refused(model, error),
        Ok(state) => if state.active matches Some(active) && active.frontier_valid {
            match meta.with_group_state(without_frontier(state)) {
                Err(error) => Change::refused(model, error),
                Ok(meta) => Change::made(model.put(meta), meta),
            }
        } else {
            Change::made(model, meta)
        },
    }
}

/// Stores another grouped state in a metadata image.
pub(crate) fn store_state(meta: &mut Page, state: GroupState) -> (result: Result<()>)
    requires
        old(meta)@.bytes.len() >= 4160,
    ensures
        match old(meta)@.with_group_state(state@) {
            Ok(image) => result is Ok && final(meta)@ == image,
            Err(error) => result == Err::<(), Error>(error) && final(meta)@ == old(meta)@,
        },
{
    let ghost before = meta@;
    meta.set_grouped_state(state)?;
    assert(meta@.bytes =~= before.bytes.take(4160) + before.stored_state(state@)->Ok_0);
    Ok(())
}

/// Withdraws the frontier of the active snapshot. The host holds the exclusive
/// structural barrier, then the writer interlock; this bit is durable before any
/// source page can be replaced or recycled.
pub(crate) fn invalidate<S: PageStore>(store: &mut S, meta: &mut Page) -> (result: Result<()>)
    requires
        has_meta(old(store).host().model, old(meta)@),
    ensures
        result is Ok ==> has_meta(final(store).host().model, final(meta)@),
        performs(
            old(store).host(),
            final(store).host(),
            match result {
                Ok(_) => Ok(final(meta)@),
                Err(error) => Err(error),
            },
            frontier_withdrawn(old(store).host().model, old(meta)@),
        ),
{
    let state: GroupState = meta.grouped_state()?;
    if let Some(active) = state.active {
        if active.frontier_valid {
            let withdrawn: GroupState = GroupState {
                active: Some(GroupSnapshot { frontier_valid: false, ..active }),
                ..state
            };
            assert(withdrawn@ =~= without_frontier(state@));
            store_state(meta, withdrawn)?;
            commit_one(store, meta)?;
            store.event(Stage::FrontierInvalidated)?;
        }
    }
    Ok(())
}

/// The anchor of a term in the frontier of a snapshot.
pub open spec fn anchor_found(model: StoreModel, snapshot: GroupSnapshot, term: TermRef) -> Result<
    Anchor,
> {
    match snapshot.frontier_root {
        None => Err(Error::InvalidState),
        Some(root) => {
            let key = seq![term_number(term), 0u64];
            let start = CursorModel { leaf: None, slot: 0, parents: Seq::empty() };
            match start.sought(model, GroupSnapshot { root, ..snapshot }, key) {
                Err(error) => Err(error),
                Ok(met) => match met.entry {
                    None => Err(Error::InvalidState),
                    Some(entry) => if entry.key != key {
                        Err(Error::InvalidState)
                    } else {
                        match anchor_at(entry) {
                            Err(error) => Err(error),
                            Ok(anchor) => if anchor.last >= snapshot.id.get() {
                                Err(Error::InvalidState)
                            } else {
                                Ok(anchor)
                            },
                        }
                    },
                },
            }
        },
    }
}

/// Looks up the anchor of a term.
///
/// # Errors
/// Rejects a missing anchor and one newer than the snapshot.
pub(crate) fn lookup<S: PageStore>(store: &mut S, snapshot: &GroupSnapshot, term: TermRef) -> (result:
    Result<Anchor>)
    ensures
        answers(
            old(store).host(),
            final(store).host(),
            result,
            anchor_found(old(store).host().model, *snapshot, term),
        ),
{
    let root: u32 = match snapshot.frontier_root {
        Some(root) => root,
        None => {
            return Err(Error::InvalidState);
        },
    };
    let key: [u64; 2] = [term_key(term), 0];
    assert(key@ =~= seq![term_number(term), 0u64]);
    let frontier: GroupSnapshot = GroupSnapshot { root, ..*snapshot };
    let mut cursor: Cursor = Cursor::new();
    let entry: CatalogEntry = match cursor.seek(store, &frontier, key)? {
        Some(entry) => entry,
        None => {
            return Err(Error::InvalidState);
        },
    };
    if !same_key(&entry.key, &key) {
        return Err(Error::InvalidState);
    }
    let anchor: Anchor = Anchor::read(&entry)?;
    if anchor.last >= snapshot.id.get() {
        return Err(Error::InvalidState);
    }
    Ok(anchor)
}

} // verus!
