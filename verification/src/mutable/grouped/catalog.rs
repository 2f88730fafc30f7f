//! A bounded immutable catalog: built bottom-up, searched with one leaf image
//! and a bounded scalar path.

use crate::codec::bytes::{get_u32, group_bytes, le_u32};
use crate::error::{Error, Result};
use crate::identity::{group_identity, SegmentId};
use crate::mutable::grouped::records::same_key;
use crate::mutable::page::grouped::key_less;
use crate::mutable::page::grouped_model::{entry_at, entry_key, key_before, zeros, EntryModel};
use crate::mutable::page::model::{is_block, Image};
use crate::mutable::page::{
    CatalogEntry, GroupNode, GroupPageKind, GroupSnapshot, Page, PageKind, NO_BLOCK,
};
use crate::mutable::store::{answers, load, PageStore, StoreModel};
use vstd::prelude::*;

verus! {

broadcast use {group_bytes, group_identity};

/// The number of levels that a catalog can have.
pub const LEVELS: usize = 8;

/// The page that a branch entry names.
pub open spec fn child_of(entry: EntryModel) -> Result<u32> {
    let block = le_u32(entry.value, 0);
    if !is_block(block) || entry.value.skip(4) != zeros(60) {
        Err(Error::InvalidState)
    } else {
        Ok(block)
    }
}

pub(crate) fn child(entry: &CatalogEntry) -> (result: Result<u32>)
    ensures
        result == child_of(entry@),
{
    let block: u32 = get_u32(&entry.value, 0);
    if block == 0 || block == NO_BLOCK {
        return Err(Error::InvalidState);
    }
    let mut i: usize = 4;
    while i < 64
        invariant
            4 <= i <= 64,
            forall|j: int| 4 <= j < i ==> (#[trigger] entry.value@[j]) == 0,
        decreases 64 - i,
    {
        if entry.value[i] != 0 {
            assert(entry@.value.skip(4)[i - 4] != 0);
            assert(zeros(60)[i - 4] == 0);
            return Err(Error::InvalidState);
        }
        i += 1;
    }
    assert(entry@.value.skip(4) =~= zeros(60));
    Ok(block)
}

/// How many leading entries of a node sort before a key.
pub open spec fn lower(entries: Seq<u8>, count: int, key: Seq<u64>, index: int) -> int
    decreases count - index,
{
    if index >= count || !key_before(entry_key(entries, index), key) {
        if index > count {
            count
        } else {
            index
        }
    } else {
        lower(entries, count, key, index + 1)
    }
}

/// Whether the keys of a node ascend.
pub open spec fn keys_ascend(entries: Seq<u8>, count: int) -> bool {
    forall|i: int, j: int|
        0 <= i < j < count ==> #[trigger] key_before(entry_key(entries, i), entry_key(entries, j))
}

proof fn checked_keys_ascend(image: Image, level: u8, count: u16, high: int)
    requires
        image.node_entries_valid(level, count),
        0 <= high < count,
    ensures
        forall|i: int|
            0 <= i < high ==> key_before(
                #[trigger] entry_key(image.node_entries(), i),
                entry_key(image.node_entries(), high),
            ),
    decreases high,
{
    if high > 0 {
        checked_keys_ascend(image, level, count, high - 1);
        assert(image.node_entry_valid(level, high));
    }
}

/// The keys of a checked node ascend.
proof fn node_ascends(image: Image)
    requires
        image.check_group_node() is Ok,
    ensures
        keys_ascend(image.node_entries(), image.group_node_info()->Ok_0.1 as int),
{
    let (level, count) = image.group_node_info()->Ok_0;
    assert forall|i: int, j: int| 0 <= i < j < count implies #[trigger] key_before(
        entry_key(image.node_entries(), i),
        entry_key(image.node_entries(), j),
    ) by {
        checked_keys_ascend(image, level, count, j);
    }
}

proof fn lower_is(entries: Seq<u8>, count: int, key: Seq<u64>, index: int, place: int)
    requires
        0 <= index <= place <= count,
        forall|i: int| index <= i < place ==> key_before(#[trigger] entry_key(entries, i), key),
        place < count ==> !key_before(entry_key(entries, place), key),
    ensures
        lower(entries, count, key, index) == place,
    decreases place - index,
{
    if index < place {
        assert(key_before(entry_key(entries, index), key));
        lower_is(entries, count, key, index + 1, place);
    }
}

/// Finds how many leading entries of a node sort before a key.
#[verifier::loop_isolation(false)]
fn find_lower(node: &GroupNode<'_>, key: &[u64; 2]) -> (result: Result<u16>)
    requires
        node.wf(),
        node.count <= 101,
        keys_ascend(node.entries(), node.count as int),
    ensures
        result == Ok::<u16, Error>(
            lower(node.entries(), node.count as int, key@, 0) as u16,
        ),
        0 <= lower(node.entries(), node.count as int, key@, 0) <= node.count,
{
    let ghost entries = node.entries();
    let mut low: u16 = 0;
    let mut high: u16 = node.count;
    while low < high
        invariant
            low <= high <= node.count,
            forall|i: int| 0 <= i < low ==> key_before(#[trigger] entry_key(entries, i), key@),
            forall|i: int|
                high <= i < node.count ==> !key_before(#[trigger] entry_key(entries, i), key@),
        decreases high - low,
    {
        let middle: u16 = low + (high - low) / 2;
        let current: [u64; 2] = node.key(middle)?;
        if key_less(current, *key) {
            assert forall|i: int| 0 <= i <= middle implies key_before(
                #[trigger] entry_key(entries, i),
                key@,
            ) by {
                if i < middle {
                    assert(key_before(entry_key(entries, i), entry_key(entries, middle as int)));
                }
            }
            low = middle + 1;
        } else {
            assert forall|i: int| middle <= i < node.count implies !key_before(
                #[trigger] entry_key(entries, i),
                key@,
            ) by {
                if i > middle {
                    assert(key_before(entry_key(entries, middle as int), entry_key(entries, i)));
                }
            }
            high = middle;
        }
    }
    proof {
        lower_is(entries, node.count as int, key@, 0, low as int);
    }
    Ok(low)
}

/// One leaf image and a bounded scalar path; no leaf-sized per-level cache.
pub struct Cursor {
    leaf: Option<Page>,
    slot: u16,
    parents: Vec<(u32, u16)>,
}

/// A place in a catalog: the leaf, the entry in it, and the path to it.
#[verifier::ext_equal]
pub struct CursorModel {
    pub leaf: Option<Image>,
    pub slot: u16,
    pub parents: Seq<(u32, u16)>,
}

impl View for Cursor {
    type V = CursorModel;

    closed spec fn view(&self) -> CursorModel {
        CursorModel {
            leaf: match self.leaf {
                Some(page) => Some(page@),
                None => None,
            },
            slot: self.slot,
            parents: self.parents@,
        }
    }
}

/// An entry that was met, if any, and the place then.
pub struct Met {
    pub entry: Option<EntryModel>,
    pub place: CursorModel,
}

impl CursorModel {
    pub open spec fn wf(self) -> bool {
        &&& self.parents.len() <= 8
        &&& self.leaf matches Some(leaf) ==> leaf.check_group_node() is Ok && self.slot <= 102
        &&& forall|i: int| 0 <= i < self.parents.len() ==> (#[trigger] self.parents[i]).1 <= 101
    }

    /// Whether the place is one that a search or a step left.
    pub open spec fn settled(self) -> bool {
        self.wf() && (self.leaf is Some ==> self.slot <= 101)
    }

    /// Going down to the first leaf below an entry of a node of the given level;
    /// its last key stays below `bound`.
    pub open spec fn down(
        self,
        model: StoreModel,
        id: SegmentId,
        entry: EntryModel,
        level: int,
        bound: Option<Seq<u64>>,
    ) -> Result<Met>
        decreases 8 - self.parents.len(),
    {
        match child_of(entry) {
            Err(error) => Err(error),
            Ok(block) => match model.load(block, PageKind::Grouped) {
                Err(error) => Err(error),
                Ok(page) => match page.group_node_info() {
                    Err(error) => Err(error),
                    Ok((next_level, count)) => {
                        let first = entry_at(page.node_entries(), 0);
                        let last = entry_key(page.node_entries(), count - 1);
                        if page.group_identity()->Ok_0.0 != id || next_level + 1 != level
                            || first.key != entry.key || (bound matches Some(bound) && !key_before(
                            last,
                            bound,
                        )) {
                            Err(Error::InvalidState)
                        } else if next_level == 0 {
                            Ok(
                                Met {
                                    entry: Some(first),
                                    place: CursorModel { leaf: Some(page), slot: 0, ..self },
                                },
                            )
                        } else if self.parents.len() >= 8 {
                            Err(Error::InvalidState)
                        } else {
                            (CursorModel { parents: self.parents.push((block, 0)), ..self }).down(
                                model,
                                id,
                                first,
                                next_level as int,
                                bound,
                            )
                        }
                    },
                },
            },
        }
    }

    /// Climbing to the next branch entry, then down to its first leaf.
    pub open spec fn climbed(self, model: StoreModel, id: SegmentId) -> Result<Met>
        decreases self.parents.len(),
    {
        if self.parents.len() == 0 {
            Ok(Met { entry: None, place: CursorModel { leaf: None, ..self } })
        } else {
            let (block, slot) = self.parents.last();
            match model.load(block, PageKind::Grouped) {
                Err(error) => Err(error),
                Ok(page) => match page.group_node_info() {
                    Err(error) => Err(error),
                    Ok((level, count)) => if page.group_identity()->Ok_0.0 != id || level == 0 {
                        Err(Error::InvalidState)
                    } else if slot + 1 >= count {
                        (CursorModel { parents: self.parents.drop_last(), ..self }).climbed(
                            model,
                            id,
                        )
                    } else {
                        (CursorModel {
                            parents: self.parents.drop_last().push((block, (slot + 1) as u16)),
                            ..self
                        }).down(
                            model,
                            id,
                            entry_at(page.node_entries(), slot + 1),
                            level as int,
                            if slot + 2 < count {
                                Some(entry_key(page.node_entries(), slot + 2))
                            } else {
                                None
                            },
                        )
                    },
                },
            }
        }
    }

    /// The entry at the place; behind the last one of a leaf, the first of the next.
    pub open spec fn current(self, model: StoreModel, id: SegmentId) -> Result<Met> {
        match self.leaf {
            None => Ok(Met { entry: None, place: self }),
            Some(page) => match page.group_node_info() {
                Err(error) => Err(error),
                Ok((_, count)) => if self.slot < count {
                    Ok(
                        Met {
                            entry: Some(entry_at(page.node_entries(), self.slot as int)),
                            place: self,
                        },
                    )
                } else {
                    self.climbed(model, id)
                },
            },
        }
    }

    /// Going down from a node to the leaf that may hold a key. Below a branch
    /// entry the first key is that of the entry, and all keys stay below the
    /// next one.
    pub open spec fn descended(
        self,
        model: StoreModel,
        id: SegmentId,
        key: Seq<u64>,
        block: u32,
        expected: Option<u8>,
        least: Option<Seq<u64>>,
        bound: Option<Seq<u64>>,
    ) -> Result<Met>
        decreases 8 - self.parents.len(),
    {
        match model.load(block, PageKind::Grouped) {
            Err(error) => Err(error),
            Ok(page) => match page.group_node_info() {
                Err(error) => Err(error),
                Ok((level, count)) => {
                    let entries = page.node_entries();
                    let place = lower(entries, count as int, key, 0);
                    let slot = if place < count && entry_key(entries, place) == key {
                        place
                    } else if place > 0 {
                        place - 1
                    } else {
                        0
                    };
                    if page.group_identity()->Ok_0.0 != id || (expected matches Some(expected)
                        && level != expected) || (least matches Some(least) && entry_key(
                        entries,
                        0,
                    ) != least) || (bound matches Some(bound) && !key_before(
                        entry_key(entries, count - 1),
                        bound,
                    )) {
                        Err(Error::InvalidState)
                    } else if level == 0 {
                        (CursorModel { leaf: Some(page), slot: place as u16, ..self }).current(
                            model,
                            id,
                        )
                    } else if self.parents.len() >= 8 {
                        Err(Error::InvalidState)
                    } else {
                        match child_of(entry_at(entries, slot)) {
                            Err(error) => Err(error),
                            Ok(next) => (CursorModel {
                                parents: self.parents.push((block, slot as u16)),
                                ..self
                            }).descended(
                                model,
                                id,
                                key,
                                next,
                                Some((level - 1) as u8),
                                Some(entry_key(entries, slot)),
                                if slot + 1 < count {
                                    Some(entry_key(entries, slot + 1))
                                } else {
                                    bound
                                },
                            ),
                        }
                    }
                },
            },
        }
    }

    /// Whether the leaf at hand spans a key.
    pub open spec fn spans(self, key: Seq<u64>) -> bool {
        self.leaf matches Some(page) && (page.group_node_info() matches Ok((_, count))
            && !key_before(key, entry_key(page.node_entries(), 0)) && !key_before(
            entry_key(page.node_entries(), count - 1),
            key,
        ))
    }

    /// The first entry at or behind a key, and its place.
    pub open spec fn sought(self, model: StoreModel, snapshot: GroupSnapshot, key: Seq<u64>) -> Result<
        Met,
    > {
        if self.leaf matches Some(page) && page.group_node_info() is Err {
            Err(self.leaf->Some_0.group_node_info()->Err_0)
        } else if self.spans(key) {
            let page = self.leaf->Some_0;
            let count = page.group_node_info()->Ok_0.1;
            (CursorModel {
                slot: lower(page.node_entries(), count as int, key, 0) as u16,
                ..self
            }).current(model, snapshot.id)
        } else {
            let start = CursorModel { leaf: None, slot: self.slot, parents: Seq::empty() };
            if snapshot.root == NO_BLOCK {
                Ok(Met { entry: None, place: start })
            } else {
                start.descended(model, snapshot.id, key, snapshot.root, None, None, None)
            }
        }
    }

    /// The entry behind the place.
    pub open spec fn advanced(self, model: StoreModel, id: SegmentId) -> Result<Met> {
        if self.leaf is None {
            Ok(Met { entry: None, place: self })
        } else {
            (CursorModel { slot: (self.slot + 1) as u16, ..self }).current(model, id)
        }
    }
}

/// What a met entry and a cursor amount to.
pub open spec fn met_of(result: Result<Option<CatalogEntry>>, place: CursorModel) -> Result<Met> {
    match result {
        Ok(Some(entry)) => Ok(Met { entry: Some(entry@), place }),
        Ok(None) => Ok(Met { entry: None, place }),
        Err(error) => Err(error),
    }
}

impl Cursor {
    pub fn new() -> (cursor: Self)
        ensures
            cursor@ == (CursorModel { leaf: None, slot: 0, parents: Seq::empty() }),
            cursor@.settled(),
    {
        let cursor: Cursor = Cursor { leaf: None, slot: 0, parents: Vec::new() };
        assert(cursor@.parents =~= Seq::empty());
        cursor
    }

    /// Goes down to the first leaf below an entry.
    #[verifier::loop_isolation(false)]
    fn descend_first<S: PageStore>(
        &mut self,
        store: &mut S,
        snapshot: &GroupSnapshot,
        begun: CatalogEntry,
        top: u8,
        bound: Option<[u64; 2]>,
    ) -> (result: Result<Option<CatalogEntry>>)
        requires
            old(self)@.wf(),
            top <= 7,
        ensures
            result is Ok ==> final(self)@.settled(),
            answers(
                old(store).host(),
                final(store).host(),
                met_of(result, final(self)@),
                old(self)@.down(
                    old(store).host().model,
                    snapshot.id,
                    begun@,
                    top as int,
                    match bound {
                        Some(key) => Some(key@),
                        None => None,
                    },
                ),
            ),
    {
        let ghost model = store.host().model;
        let ghost limit = match bound {
            Some(key) => Some(key@),
            None => None,
        };
        let ghost total = self@.down(model, snapshot.id, begun@, top as int, limit);
        let mut entry: CatalogEntry = begun;
        let mut level: u8 = top;
        loop
            invariant
                self@.wf(),
                level <= 7,
                store.host() == old(store).host(),
                total == self@.down(model, snapshot.id, entry@, level as int, limit),
            decreases 8 - self@.parents.len(),
        {
            let block: u32 = child(&entry)?;
            let next: Page = load(store, block, PageKind::Grouped)?;
            let (next_level, count): (u8, u16) = next.group_node_info()?;
            let (id, _): (SegmentId, GroupPageKind) = next.group_identity()?;
            let first: CatalogEntry = next.group_entry(0)?;
            let last: CatalogEntry = next.group_entry(count - 1)?;
            let beyond: bool = match bound {
                Some(bound) => !key_less(last.key, bound),
                None => false,
            };
            if id != snapshot.id || next_level + 1 != level || !same_key(&first.key, &entry.key)
                || beyond {
                return Err(Error::InvalidState);
            }
            if next_level == 0 {
                proof {
                    loaded_node_checked(model, block);
                }
                self.leaf = Some(next);
                self.slot = 0;
                return Ok(Some(first));
            }
            if self.parents.len() >= LEVELS {
                return Err(Error::InvalidState);
            }
            let ghost early = self@;
            self.parents.push((block, 0));
            assert(self@ =~= CursorModel { parents: early.parents.push((block, 0)), ..early });
            level = next_level;
            entry = first;
        }
    }

    /// The entry at the place of the cursor.
    ///
    /// # Errors
    /// Rejects nodes of other segments, levels out of step and keys out of range.
    #[verifier::loop_isolation(false)]
    pub fn current<S: PageStore>(&mut self, store: &mut S, snapshot: &GroupSnapshot) -> (result:
        Result<Option<CatalogEntry>>)
        requires
            old(self)@.wf(),
        ensures
            result is Ok ==> final(self)@.settled(),
            answers(
                old(store).host(),
                final(store).host(),
                met_of(result, final(self)@),
                old(self)@.current(old(store).host().model, snapshot.id),
            ),
    {
        let ghost model = store.host().model;
        match &self.leaf {
            None => {
                return Ok(None);
            },
            Some(page) => {
                let (_, count): (u8, u16) = page.group_node_info()?;
                if self.slot < count {
                    let entry: CatalogEntry = page.group_entry(self.slot)?;
                    return Ok(Some(entry));
                }
            },
        }
        let ghost total = self@.climbed(model, snapshot.id);
        while self.parents.len() != 0
            invariant
                self@.wf(),
                store.host() == old(store).host(),
                total == self@.climbed(model, snapshot.id),
            decreases self.parents@.len(),
        {
            let ghost early = self@;
            let depth: usize = self.parents.len();
            let (block, slot): (u32, u16) = self.parents[depth - 1];
            assert(early.parents[depth - 1] == (block, slot));
            let page: Page = load(store, block, PageKind::Grouped)?;
            let (level, count): (u8, u16) = page.group_node_info()?;
            let (id, _): (SegmentId, GroupPageKind) = page.group_identity()?;
            if id != snapshot.id || level == 0 {
                return Err(Error::InvalidState);
            }
            self.parents.pop();
            assert(self@ =~= CursorModel { parents: early.parents.drop_last(), ..early });
            if slot + 1 >= count {
                continue;
            }
            self.parents.push((block, slot + 1));
            assert(self@ =~= CursorModel {
                parents: early.parents.drop_last().push((block, (slot + 1) as u16)),
                ..early
            });
            let entry: CatalogEntry = page.group_entry(slot + 1)?;
            let bound: Option<[u64; 2]> = if slot + 2 < count {
                Some(page.group_entry(slot + 2)?.key)
            } else {
                None
            };
            return self.descend_first(store, snapshot, entry, level, bound);
        }
        self.leaf = None;
        Ok(None)
    }

    /// The entry behind the place of the cursor.
    pub fn advance<S: PageStore>(&mut self, store: &mut S, snapshot: &GroupSnapshot) -> (result:
        Result<Option<CatalogEntry>>)
        requires
            old(self)@.settled(),
        ensures
            result is Ok ==> final(self)@.settled(),
            answers(
                old(store).host(),
                final(store).host(),
                met_of(result, final(self)@),
                old(self)@.advanced(old(store).host().model, snapshot.id),
            ),
    {
        if self.leaf.is_none() {
            return Ok(None);
        }
        let ghost early = self@;
        self.slot = self.slot + 1;
        assert(self@ =~= CursorModel { slot: (early.slot + 1) as u16, ..early });
        self.current(store, snapshot)
    }
}

impl Cursor {
    /// Goes down from the root to the leaf that may hold a key.
    #[verifier::loop_isolation(false)]
    fn descend<S: PageStore>(&mut self, store: &mut S, snapshot: &GroupSnapshot, key: &[u64; 2]) -> (result:
        Result<Option<CatalogEntry>>)
        requires
            old(self)@.wf(),
            old(self)@.leaf is None,
            old(self)@.parents.len() == 0,
        ensures
            result is Ok ==> final(self)@.settled(),
            answers(
                old(store).host(),
                final(store).host(),
                met_of(result, final(self)@),
                old(self)@.descended(
                    old(store).host().model,
                    snapshot.id,
                    key@,
                    snapshot.root,
                    None,
                    None,
                    None,
                ),
            ),
    {
        let ghost model = store.host().model;
        let ghost total = self@.descended(
            model,
            snapshot.id,
            key@,
            snapshot.root,
            None,
            None,
            None,
        );
        let mut block: u32 = snapshot.root;
        let mut expected: Option<u8> = None;
        let mut least: Option<[u64; 2]> = None;
        let mut bound: Option<[u64; 2]> = None;
        loop
            invariant
                self@.wf(),
                self@.leaf is None,
                store.host() == old(store).host(),
                total == self@.descended(
                    model,
                    snapshot.id,
                    key@,
                    block,
                    expected,
                    match least {
                        Some(key) => Some(key@),
                        None => None,
                    },
                    match bound {
                        Some(key) => Some(key@),
                        None => None,
                    },
                ),
            decreases 8 - self@.parents.len(),
        {
            let page: Page = load(store, block, PageKind::Grouped)?;
            let node: GroupNode<'_> = page.group_node_view()?;
            let level: u8 = node.level;
            let count: u16 = node.count;
            proof {
                loaded_node_checked(model, block);
                node_ascends(page@);
            }
            if !fits(&page, &node, snapshot.id, expected, least, bound)? {
                return Err(Error::InvalidState);
            }
            let place: u16 = find_lower(&node, key)?;
            let ghost early = self@;
            if level == 0 {
                self.slot = place;
                self.leaf = Some(page);
                assert(self@ =~= CursorModel { leaf: Some(page@), slot: place, ..early });
                return self.current(store, snapshot);
            }
            let hit: bool = if place < count {
                let found: [u64; 2] = node.key(place)?;
                same_key(&found, key)
            } else {
                false
            };
            let slot: u16 = if hit {
                place
            } else if place > 0 {
                place - 1
            } else {
                0
            };
            if self.parents.len() >= LEVELS {
                return Err(Error::InvalidState);
            }
            let entry: CatalogEntry = node.entry(slot)?;
            let next: u32 = child(&entry)?;
            self.parents.push((block, slot));
            assert(self@ =~= CursorModel { parents: early.parents.push((block, slot)), ..early });
            least = Some(entry.key);
            if slot + 1 < count {
                bound = Some(node.key(slot + 1)?);
            }
            expected = Some(level - 1);
            block = next;
        }
    }

    /// Finds the first entry at or behind a key.
    ///
    /// # Errors
    /// Rejects nodes of other segments, levels out of step and keys out of range.
    pub fn seek<S: PageStore>(&mut self, store: &mut S, snapshot: &GroupSnapshot, key: [u64; 2]) -> (result:
        Result<Option<CatalogEntry>>)
        requires
            old(self)@.settled(),
        ensures
            result is Ok ==> final(self)@.settled(),
            answers(
                old(store).host(),
                final(store).host(),
                met_of(result, final(self)@),
                old(self)@.sought(old(store).host().model, *snapshot, key@),
            ),
    {
        let ghost before = self@;
        let mut found: Option<u16> = None;
        if let Some(page) = &self.leaf {
            let node: GroupNode<'_> = page.group_node_view()?;
            proof {
                node_ascends(page@);
            }
            let first: [u64; 2] = node.key(0)?;
            let last: [u64; 2] = node.key(node.count - 1)?;
            if !key_less(key, first) && !key_less(last, key) {
                found = Some(find_lower(&node, &key)?);
            }
        }
        if let Some(place) = found {
            self.slot = place;
            assert(self@ =~= CursorModel { slot: place, ..before });
            return self.current(store, snapshot);
        }
        self.leaf = None;
        self.parents.clear();
        assert(self@ =~= CursorModel { leaf: None, slot: before.slot, parents: Seq::empty() });
        if snapshot.root == NO_BLOCK {
            return Ok(None);
        }
        self.descend(store, snapshot, &key)
    }
}

/// Whether a node belongs where a search expects it.
fn fits(
    page: &Page,
    node: &GroupNode<'_>,
    id: SegmentId,
    expected: Option<u8>,
    least: Option<[u64; 2]>,
    bound: Option<[u64; 2]>,
) -> (result: Result<bool>)
    requires
        page@.group_node_info() == Ok::<(u8, u16), Error>((node.level, node.count)),
        node.wf(),
        node.entries() == page@.node_entries(),
    ensures
        result == Ok::<bool, Error>(
            !(page@.group_identity()->Ok_0.0 != id || (expected matches Some(expected)
                && node.level != expected) || (least matches Some(least) && entry_key(
                page@.node_entries(),
                0,
            ) != least@) || (bound matches Some(bound) && !key_before(
                entry_key(page@.node_entries(), node.count - 1),
                bound@,
            ))),
        ),
{
    let (owner, _): (SegmentId, GroupPageKind) = page.group_identity()?;
    if owner != id {
        return Ok(false);
    }
    if let Some(expected) = expected {
        if node.level != expected {
            return Ok(false);
        }
    }
    let first: [u64; 2] = node.key(0)?;
    let last: [u64; 2] = node.key(node.count - 1)?;
    if let Some(least) = least {
        if !same_key(&first, &least) {
            return Ok(false);
        }
    }
    if let Some(bound) = bound {
        if !key_less(last, bound) {
            return Ok(false);
        }
    }
    Ok(true)
}

/// A loaded catalog node is a checked one.
proof fn loaded_node_checked(model: StoreModel, block: u32)
    requires
        model.load(block, PageKind::Grouped) matches Ok(page) && page.group_node_info() is Ok,
    ensures
        model.load(block, PageKind::Grouped)->Ok_0.check_group_node() is Ok,
{
}

} // verus!
