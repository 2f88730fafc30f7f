//! Bottom-up construction of a catalog: full nodes are written as they fill.

use crate::codec::bytes::{group_bytes, u32_array, u32_bytes};
use crate::error::{Error, Result};
use crate::identity::{group_identity, SegmentId};
use crate::mutable::grouped::catalog::{child, child_of, LEVELS};
use crate::mutable::grouped::journal::{attach_page, page_appended, take_slot, Slot};
use crate::mutable::page::grouped::{group_node_image, key_less};
use crate::mutable::page::grouped_model::{key_before, zeros};
use crate::mutable::page::model::Image;
use crate::mutable::page::{CatalogEntry, GroupSnapshot, Page, CATALOG_ENTRIES};
use crate::mutable::store::{performs, same_host, Change, PageStore, StoreModel};
use vstd::prelude::*;

verus! {

broadcast use {group_bytes, group_identity};

/// The entries of each level that no node holds yet.
pub struct CatalogBuilder {
    levels: Vec<Vec<CatalogEntry>>,
    previous: Option<[u64; 2]>,
}

/// The entries of each level that no node holds yet, and the last key.
#[verifier::ext_equal]
pub struct BuilderModel {
    pub levels: Seq<Seq<CatalogEntry>>,
    pub previous: Option<Seq<u64>>,
}

impl View for CatalogBuilder {
    type V = BuilderModel;

    closed spec fn view(&self) -> BuilderModel {
        BuilderModel {
            levels: Seq::new(self.levels@.len(), |i: int| self.levels@[i]@),
            previous: match self.previous {
                Some(key) => Some(key@),
                None => None,
            },
        }
    }
}

/// The page of a catalog node, for any block.
pub open spec fn node_maker(id: SegmentId, level: u8, entries: Seq<CatalogEntry>) -> spec_fn(
    u32,
) -> Result<Image> {
    |block: u32| group_node_image(block, id, level, entries)
}

/// The entry of a branch that leads to a page.
pub open spec fn branch_entry(key: [u64; 2], child: u32) -> CatalogEntry {
    choose|entry: CatalogEntry|
        #![trigger entry.value]
        entry.key == key && entry.value@ == u32_bytes(child) + zeros(60)
}

/// Writing the node of a level: the snapshot then, and the entry that leads to it.
pub open spec fn level_flushed(
    model: StoreModel,
    snapshot: GroupSnapshot,
    level: int,
    entries: Seq<CatalogEntry>,
) -> Change<(GroupSnapshot, CatalogEntry)> {
    if entries.len() == 0 {
        Change::refused(model, Error::InvalidState)
    } else {
        let step = page_appended(model, snapshot, node_maker(snapshot.id, level as u8, entries));
        match step.value {
            Err(error) => Change::refused(step.model, error),
            Ok(after) => Change::made(
                step.model,
                (after, branch_entry(entries[0].key, after.tail)),
            ),
        }
    }
}

/// Adding an entry to a level; a full level is written and leads to an entry of
/// the next one.
pub open spec fn entry_added(
    model: StoreModel,
    snapshot: GroupSnapshot,
    levels: Seq<Seq<CatalogEntry>>,
    level: int,
    entry: CatalogEntry,
) -> Change<(GroupSnapshot, Seq<Seq<CatalogEntry>>)>
    decreases 8 - level,
{
    if level < 0 || level >= 8 {
        Change::refused(model, Error::Limit("group catalog depth"))
    } else {
        let filled = levels[level].push(entry);
        if filled.len() != 101 {
            Change::made(model, (snapshot, levels.update(level, filled)))
        } else {
            let flushed = level_flushed(model, snapshot, level, filled);
            match flushed.value {
                Err(error) => Change::refused(flushed.model, error),
                Ok((after, parent)) => entry_added(
                    flushed.model,
                    after,
                    levels.update(level, Seq::empty()),
                    level + 1,
                    parent,
                ),
            }
        }
    }
}

/// Adding the next entry of the catalog, whose key must exceed the last one.
pub open spec fn entry_pushed(
    model: StoreModel,
    snapshot: GroupSnapshot,
    builder: BuilderModel,
    entry: CatalogEntry,
) -> Change<(GroupSnapshot, BuilderModel)> {
    if builder.previous matches Some(previous) && !key_before(previous, entry.key@) {
        Change::refused(model, Error::InvalidState)
    } else {
        let added = entry_added(model, snapshot, builder.levels, 0, entry);
        match added.value {
            Err(error) => Change::refused(added.model, error),
            Ok((after, levels)) => Change::made(
                added.model,
                (after, BuilderModel { levels, previous: Some(entry.key@) }),
            ),
        }
    }
}

/// Whether a level above holds entries.
pub open spec fn higher_used(levels: Seq<Seq<CatalogEntry>>, level: int) -> bool {
    exists|i: int| level < i < levels.len() && (#[trigger] levels[i]).len() > 0
}

/// Naming the root of a catalog.
pub open spec fn rooted(model: StoreModel, snapshot: GroupSnapshot, entry: CatalogEntry) -> Change<
    GroupSnapshot,
> {
    match child_of(entry@) {
        Err(error) => Change::refused(model, error),
        Ok(root) => Change::made(model, GroupSnapshot { root, ..snapshot }),
    }
}

/// Writing what is left of each level from `level` on, and naming the root.
pub open spec fn levels_finished(
    model: StoreModel,
    snapshot: GroupSnapshot,
    levels: Seq<Seq<CatalogEntry>>,
    level: int,
) -> Change<GroupSnapshot>
    decreases 8 - level,
{
    if level < 0 || level >= 8 {
        Change::made(model, snapshot)
    } else if levels[level].len() == 0 {
        levels_finished(model, snapshot, levels, level + 1)
    } else if level > 0 && levels[level].len() == 1 && !higher_used(levels, level) {
        rooted(model, snapshot, levels[level][0])
    } else {
        let flushed = level_flushed(model, snapshot, level, levels[level]);
        match flushed.value {
            Err(error) => Change::refused(flushed.model, error),
            Ok((after, parent)) => if !higher_used(levels, level) {
                rooted(flushed.model, after, parent)
            } else {
                let added = entry_added(
                    flushed.model,
                    after,
                    levels.update(level, Seq::empty()),
                    level + 1,
                    parent,
                );
                match added.value {
                    Err(error) => Change::refused(added.model, error),
                    Ok((after, levels)) => levels_finished(added.model, after, levels, level + 1),
                }
            },
        }
    }
}

impl BuilderModel {
    /// A catalog without entries.
    pub open spec fn fresh() -> BuilderModel {
        BuilderModel { levels: Seq::new(8, |i: int| Seq::<CatalogEntry>::empty()), previous: None }
    }

    pub open spec fn wf(self) -> bool {
        &&& self.levels.len() == 8
        &&& forall|i: int| 0 <= i < 8 ==> (#[trigger] self.levels[i]).len() <= 100
    }
}

/// The entry of a branch that leads to a page.
#[verifier::loop_isolation(false)]
fn make_branch(key: [u64; 2], child: u32) -> (entry: CatalogEntry)
    ensures
        entry == branch_entry(key, child),
        entry.value@ == u32_bytes(child) + zeros(60),
{
    let mut value: [u8; 64] = [0u8; 64];
    let bytes: [u8; 4] = u32_array(child);
    value[0] = bytes[0];
    value[1] = bytes[1];
    value[2] = bytes[2];
    value[3] = bytes[3];
    let entry: CatalogEntry = CatalogEntry { key, value };
    assert(entry.value@ =~= u32_bytes(child) + zeros(60));
    proof {
        let other = branch_entry(key, child);
        assert(other.key == key && other.value@ == u32_bytes(child) + zeros(60)) by {
            assert(entry.key == key && entry.value@ == u32_bytes(child) + zeros(60));
        }
        assert(other.value =~= entry.value);
    }
    entry
}

impl CatalogBuilder {
    #[verifier::loop_isolation(false)]
    pub fn new() -> (builder: Self)
        ensures
            builder@ == BuilderModel::fresh(),
            builder@.wf(),
    {
        let mut levels: Vec<Vec<CatalogEntry>> = Vec::new();
        let mut level: usize = 0;
        while level < LEVELS
            invariant
                level <= 8,
                levels@.len() == level,
                forall|i: int| 0 <= i < level ==> (#[trigger] levels@[i])@.len() == 0,
            decreases 8 - level,
        {
            levels.push(Vec::new());
            level += 1;
        }
        let builder: CatalogBuilder = CatalogBuilder { levels, previous: None };
        assert(builder@.levels =~= Seq::new(8, |i: int| Seq::<CatalogEntry>::empty())) by {
            assert forall|i: int| 0 <= i < 8 implies builder@.levels[i] =~= Seq::<
                CatalogEntry,
            >::empty() by {}
        }
        builder
    }

    /// Writes the node of a level.
    fn flush<S: PageStore>(
        &mut self,
        store: &mut S,
        snapshot: &mut GroupSnapshot,
        level: usize,
    ) -> (result: Result<CatalogEntry>)
        requires
            old(self)@.levels.len() == 8,
            level < 8,
        ensures
            final(self)@.previous == old(self)@.previous,
            result is Ok ==> final(self)@.levels == old(self)@.levels.update(
                level as int,
                Seq::empty(),
            ),
            performs(
                old(store).host(),
                final(store).host(),
                match result {
                    Ok(entry) => Ok((*final(snapshot), entry)),
                    Err(error) => Err(error),
                },
                level_flushed(
                    old(store).host().model,
                    *old(snapshot),
                    level as int,
                    old(self)@.levels[level as int],
                ),
            ),
    {
        reveal(page_appended);
        let ghost before = self@;
        if self.levels[level].len() == 0 {
            return Err(Error::InvalidState);
        }
        let key: [u64; 2] = self.levels[level][0].key;
        let slot: Slot = take_slot(store, snapshot)?;
        let page: Page = Page::group_node(
            slot.block,
            snapshot.id,
            level as u8,
            self.levels[level].as_slice(),
        )?;
        let block: u32 = attach_page(store, snapshot, slot, &page)?;
        self.levels.set(level, Vec::new());
        assert(self@.levels =~= before.levels.update(level as int, Seq::empty())) by {
            assert(self.levels@[level as int]@ =~= Seq::<CatalogEntry>::empty());
        }
        Ok(make_branch(key, block))
    }

    /// Adds an entry to a level.
    #[verifier::loop_isolation(false)]
    fn add_to<S: PageStore>(
        &mut self,
        store: &mut S,
        snapshot: &mut GroupSnapshot,
        begun: usize,
        first: CatalogEntry,
    ) -> (result: Result<()>)
        requires
            old(self)@.wf(),
            begun <= 8,
        ensures
            final(self)@.previous == old(self)@.previous,
            result is Ok ==> final(self)@.wf(),
            performs(
                old(store).host(),
                final(store).host(),
                match result {
                    Ok(_) => Ok((*final(snapshot), final(self)@.levels)),
                    Err(error) => Err(error),
                },
                entry_added(
                    old(store).host().model,
                    *old(snapshot),
                    old(self)@.levels,
                    begun as int,
                    first,
                ),
            ),
    {
        let ghost total = entry_added(
            store.host().model,
            *snapshot,
            self@.levels,
            begun as int,
            first,
        );
        let mut level: usize = begun;
        let mut entry: CatalogEntry = first;
        while level < LEVELS
            invariant
                level <= 8,
                self@.wf(),
                self@.previous == old(self)@.previous,
                same_host(old(store).host(), store.host()),
                total == entry_added(
                    store.host().model,
                    *snapshot,
                    self@.levels,
                    level as int,
                    entry,
                ),
            decreases 8 - level,
        {
            let ghost early = self@.levels;
            assert(early[level as int].len() <= 100);
            let mut filled: Vec<CatalogEntry> = Vec::new();
            core::mem::swap(&mut filled, &mut self.levels[level]);
            filled.push(entry);
            let full: bool = filled.len() == CATALOG_ENTRIES;
            self.levels.set(level, filled);
            let ghost pushed = early[level as int].push(entry);
            assert(self@.levels =~= early.update(level as int, pushed));
            if !full {
                return Ok(());
            }
            entry = self.flush(store, snapshot, level)?;
            assert(self@.levels =~= early.update(level as int, Seq::empty()));
            level += 1;
        }
        Err(Error::Limit("group catalog depth"))
    }

    /// Adds the next entry of the catalog.
    ///
    /// # Errors
    /// Rejects a key that does not exceed the last one, and a catalog too deep.
    pub fn push<S: PageStore>(
        &mut self,
        store: &mut S,
        snapshot: &mut GroupSnapshot,
        entry: CatalogEntry,
    ) -> (result: Result<()>)
        requires
            old(self)@.wf(),
        ensures
            result is Ok ==> final(self)@.wf(),
            performs(
                old(store).host(),
                final(store).host(),
                match result {
                    Ok(_) => Ok((*final(snapshot), final(self)@)),
                    Err(error) => Err(error),
                },
                entry_pushed(old(store).host().model, *old(snapshot), old(self)@, entry),
            ),
    {
        if let Some(previous) = self.previous {
            if !key_less(previous, entry.key) {
                return Err(Error::InvalidState);
            }
        }
        let ghost early = self@.levels;
        self.previous = Some(entry.key);
        assert(self@.levels =~= early);
        self.add_to(store, snapshot, 0, entry)
    }

    /// Whether a level above holds entries.
    #[verifier::loop_isolation(false)]
    fn any_above(&self, level: usize) -> (any: bool)
        requires
            self@.levels.len() == 8,
            level < 8,
        ensures
            any == higher_used(self@.levels, level as int),
    {
        let mut index: usize = level + 1;
        while index < LEVELS
            invariant
                level < index <= 8,
                forall|i: int| level < i < index ==> (#[trigger] self@.levels[i]).len() == 0,
            decreases 8 - index,
        {
            assert(self@.levels[index as int] == self.levels@[index as int]@);
            if self.levels[index].len() != 0 {
                return true;
            }
            index += 1;
        }
        false
    }

    /// Writes what is left and names the root of the catalog.
    #[verifier::loop_isolation(false)]
    pub fn finish<S: PageStore>(&mut self, store: &mut S, snapshot: &mut GroupSnapshot) -> (result:
        Result<()>)
        requires
            old(self)@.wf(),
        ensures
            performs(
                old(store).host(),
                final(store).host(),
                match result {
                    Ok(_) => Ok(*final(snapshot)),
                    Err(error) => Err(error),
                },
                levels_finished(old(store).host().model, *old(snapshot), old(self)@.levels, 0),
            ),
    {
        let ghost total = levels_finished(store.host().model, *snapshot, self@.levels, 0);
        let mut level: usize = 0;
        while level < LEVELS
            invariant
                level <= 8,
                self@.wf(),
                same_host(old(store).host(), store.host()),
                total == levels_finished(
                    store.host().model,
                    *snapshot,
                    self@.levels,
                    level as int,
                ),
            decreases 8 - level,
        {
            assert(self@.levels[level as int] == self.levels@[level as int]@);
            let held: usize = self.levels[level].len();
            if held != 0 {
                let higher: bool = self.any_above(level);
                if level > 0 && held == 1 && !higher {
                    let root: u32 = child(&self.levels[level][0])?;
                    snapshot.root = root;
                    return Ok(());
                }
                let ghost early = self@.levels;
                let parent: CatalogEntry = self.flush(store, snapshot, level)?;
                if !higher {
                    let root: u32 = child(&parent)?;
                    snapshot.root = root;
                    return Ok(());
                }
                assert(self@.wf());
                self.add_to(store, snapshot, level + 1, parent)?;
            }
            level += 1;
        }
        Ok(())
    }
}

} // verus!
