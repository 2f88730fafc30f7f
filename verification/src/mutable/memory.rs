//! A host in memory: pages that live as long as the process, and a sort of records.

use crate::error::{Error, Result};
use crate::identity::HeapLayout;
use crate::mutable::grouped::anchors::SortRecord;
use crate::mutable::grouped::capture::{record_bytes, GroupSort};
use crate::mutable::page::model::Image;
use crate::mutable::page::{Page, NO_BLOCK};
use crate::mutable::store::{committed, stored, zero_image, Host, PageStore, Stage, StoreModel};
use crate::sort::{rearranged, sorted, Ranked};
use crate::text::{bytes_precede, precedes, precedes_total, precedes_transitive};
use vstd::prelude::*;

verus! {

/// Pages in memory. The host can be told to fail after a number of changes.
pub struct MemoryStore {
    layout: HeapLayout,
    pages: Vec<Page>,
    anchors: bool,
    owners: bool,
    changes: Option<u64>,
}

/// The images of pages.
pub open spec fn images(pages: Seq<Page>) -> Seq<Image> {
    pages.map_values(|page: Page| page@)
}

impl MemoryStore {
    #[verifier::type_invariant]
    closed spec fn inv(self) -> bool {
        &&& self.pages@.len() < 0x1_0000_0000
        &&& forall|i: int| 0 <= i < self.pages@.len() ==> stored((#[trigger] self.pages@[i])@)
            == self.pages@[i]@
    }

    /// An empty relation.
    pub fn new(layout: HeapLayout, anchors: bool, owners: bool) -> (store: Self)
        ensures
            store.host() == (Host {
                model: StoreModel { layout, pages: Seq::empty() },
                reliable: true,
                anchored: anchors,
                owner_ordered: owners,
            }),
    {
        let store: MemoryStore = MemoryStore {
            layout,
            pages: Vec::new(),
            anchors,
            owners,
            changes: None,
        };
        assert(images(store.pages@) =~= Seq::empty());
        store
    }

    /// The same pages on a host that fails after a number of changes; on a host
    /// that does not fail for `None`.
    pub fn failing_after(self, changes: Option<u64>) -> (store: Self)
        ensures
            store.host() == (Host { reliable: changes is None, ..self.host() }),
    {
        proof {
            use_type_invariant(&self);
        }
        MemoryStore {
            layout: self.layout,
            pages: self.pages,
            anchors: self.anchors,
            owners: self.owners,
            changes,
        }
    }

    /// The same pages on a host with other abilities.
    pub fn with_abilities(self, anchors: bool, owners: bool) -> (store: Self)
        ensures
            store.host() == (Host { anchored: anchors, owner_ordered: owners, ..self.host() }),
    {
        proof {
            use_type_invariant(&self);
        }
        MemoryStore {
            layout: self.layout,
            pages: self.pages,
            anchors,
            owners,
            changes: self.changes,
        }
    }

    /// Whether one more change is possible, and what is left then.
    fn left(changes: Option<u64>) -> (left: Result<Option<u64>>)
        ensures
            match left {
                Ok(left) => left is None == changes is None,
                Err(_) => changes is Some,
            },
    {
        match changes {
            None => Ok(None),
            Some(0) => Err(Error::InvalidState),
            Some(count) => Ok(Some(count - 1)),
        }
    }
}

impl PageStore for MemoryStore {
    closed spec fn host(&self) -> Host {
        Host {
            model: StoreModel { layout: self.layout, pages: images(self.pages@) },
            reliable: self.changes is None,
            anchored: self.anchors,
            owner_ordered: self.owners,
        }
    }

    fn layout(&self) -> (layout: HeapLayout) {
        self.layout
    }

    fn frontier_anchors(&self) -> (enabled: bool) {
        self.anchors
    }

    fn owner_frontier(&self) -> (enabled: bool) {
        self.owners
    }

    fn blocks(&mut self) -> (result: Result<u32>) {
        proof {
            use_type_invariant(&*self);
        }
        Ok(self.pages.len() as u32)
    }

    fn read(&mut self, block: u32) -> (result: Result<Page>) {
        proof {
            use_type_invariant(&*self);
        }
        if block as usize >= self.pages.len() {
            return Err(Error::InvalidState);
        }
        let page: Page = self.pages[block as usize].kept();
        assert(self.host().model.pages[block as int] == self.pages@[block as int]@);
        Ok(page)
    }

    fn extend(&mut self) -> (result: Result<u32>) {
        proof {
            use_type_invariant(&*self);
        }
        let count: usize = self.pages.len();
        if count as u64 >= NO_BLOCK as u64 {
            return Err(Error::InvalidState);
        }
        let changes: Option<u64> = Self::left(self.changes)?;
        let block: u32 = count as u32;
        let empty: [u8; 0] = [];
        let page: Page = Page::read_with(block, &empty)?;
        let ghost before = self.pages@;
        assert(page@ == zero_image(block));
        let mut taken: MemoryStore = MemoryStore::new(self.layout, self.anchors, self.owners);
        core::mem::swap(self, &mut taken);
        let MemoryStore { layout, mut pages, anchors, owners, .. } = taken;
        pages.push(page);
        *self = MemoryStore { layout, pages, anchors, owners, changes };
        assert(images(self.pages@) =~= images(before).push(zero_image(block)));
        Ok(block)
    }

    #[verifier::loop_isolation(false)]
    fn commit(&mut self, pages: &[&Page]) -> (result: Result<()>) {
        proof {
            use_type_invariant(&*self);
        }
        let changes: Option<u64> = Self::left(self.changes)?;
        let ghost model = self.host().model;
        let ghost list = pages@;
        let mut taken: MemoryStore = MemoryStore::new(self.layout, self.anchors, self.owners);
        core::mem::swap(self, &mut taken);
        let MemoryStore { layout, pages: mut kept, anchors, owners, .. } = taken;
        let ghost count = kept@.len();
        let mut index: usize = 0;
        assert(list.take(0) =~= Seq::empty());
        while index < pages.len()
            invariant
                index <= list.len(),
                kept@.len() == count,
                forall|i: int| 0 <= i < count ==> stored((#[trigger] kept@[i])@) == kept@[i]@,
                committed(model, list.take(index as int)) == (StoreModel {
                    layout,
                    pages: images(kept@),
                }),
            decreases list.len() - index,
        {
            let page: Page = pages[index].kept();
            let block: usize = pages[index].block() as usize;
            let ghost before = kept@;
            assert(model.has(list[index as int]@.block));
            kept.set(block, page);
            proof {
                assert(list.take(index + 1).drop_last() =~= list.take(index as int));
                assert(images(kept@) =~= images(before).update(block as int, page@));
            }
            index += 1;
        }
        assert(list.take(index as int) =~= list);
        *self = MemoryStore { layout, pages: kept, anchors, owners, changes };
        Ok(())
    }

    fn interrupt(&mut self) -> (result: Result<()>) {
        Ok(())
    }

    fn event(&mut self, stage: Stage) -> (result: Result<()>) {
        Ok(())
    }
}

/// Records are ranked by their bytes.
impl Ranked for SortRecord {
    open spec fn at_most(self, other: Self) -> bool {
        !precedes(other.0@, self.0@)
    }

    proof fn at_most_total(self, other: Self) {
        precedes_total(self.0@, other.0@);
    }

    proof fn at_most_transitive(self, middle: Self, other: Self) {
        let (a, b, c) = (self.0@, middle.0@, other.0@);
        precedes_total(a, b);
        precedes_total(b, c);
        precedes_total(a, c);
        if precedes(c, a) {
            if precedes(a, b) {
                precedes_transitive(c, a, b);
            }
        }
    }

    fn not_after(&self, other: &Self) -> (answer: bool) {
        !bytes_precede(&other.0, &self.0)
    }
}

/// A sort of records in memory.
pub struct MemorySort {
    records: Vec<SortRecord>,
    ordered: Vec<SortRecord>,
    next: usize,
}

/// Rearranged records have rearranged bytes.
proof fn bytes_rearranged(left: Seq<SortRecord>, right: Seq<SortRecord>)
    requires
        rearranged(left, right),
    ensures
        record_bytes(left).to_multiset() == record_bytes(right).to_multiset(),
    decreases left.len(),
{
    broadcast use vstd::seq_lib::group_to_multiset_ensures;

    assert(left.to_multiset().len() == right.to_multiset().len());
    if left.len() == 0 {
        assert(record_bytes(left) =~= record_bytes(right));
    } else {
        let last = left.last();
        let short = left.drop_last();
        assert(left =~= short.push(last));
        assert(left.contains(last)) by {
            assert(left[left.len() - 1] == last);
        }
        assert(right.to_multiset().count(last) > 0);
        assert(right.contains(last));
        let at = choose|at: int| 0 <= at < right.len() && right[at] == last;
        let rest = right.remove(at);
        assert(rest.to_multiset() =~= right.to_multiset().remove(last));
        assert(short.to_multiset().insert(last).remove(last) =~= short.to_multiset());
        assert(rearranged(short, rest));
        bytes_rearranged(short, rest);
        assert(record_bytes(left) =~= record_bytes(short).push(last.0@));
        assert(record_bytes(rest) =~= record_bytes(right).remove(at));
        assert(record_bytes(right)[at] == last.0@);
        let all = record_bytes(right).to_multiset();
        assert(record_bytes(rest).to_multiset() =~= all.remove(last.0@));
        assert(record_bytes(right).contains(last.0@));
        assert(all.count(last.0@) > 0);
        assert(all.remove(last.0@).insert(last.0@) =~= all);
    }
}

impl MemorySort {
    pub fn new() -> (sort: Self)
        ensures
            sort.held().len() == 0,
            sort.reliable(),
    {
        MemorySort { records: Vec::new(), ordered: Vec::new(), next: 0 }
    }
}

impl GroupSort for MemorySort {
    closed spec fn held(&self) -> Seq<Seq<u8>> {
        record_bytes(self.records@)
    }

    closed spec fn pending(&self) -> Seq<Seq<u8>> {
        if self.next <= self.ordered@.len() {
            record_bytes(self.ordered@.skip(self.next as int))
        } else {
            Seq::empty()
        }
    }

    closed spec fn reliable(&self) -> bool {
        true
    }

    #[verifier::loop_isolation(false)]
    fn put(&mut self, records: &[SortRecord]) -> (result: Result<()>) {
        let ghost before = self.records@;
        let mut index: usize = 0;
        assert(before =~= before + records@.take(0));
        while index < records.len()
            invariant
                index <= records@.len(),
                self.records@ == before + records@.take(index as int),
            decreases records@.len() - index,
        {
            self.records.push(records[index]);
            assert(self.records@ =~= before + records@.take(index + 1));
            index += 1;
        }
        assert(records@.take(index as int) =~= records@);
        assert(record_bytes(self.records@) =~= record_bytes(before) + record_bytes(records@));
        Ok(())
    }

    #[verifier::loop_isolation(false)]
    fn finish(&mut self) -> (result: Result<()>) {
        let mut copy: Vec<SortRecord> = Vec::new();
        let mut index: usize = 0;
        while index < self.records.len()
            invariant
                index <= self.records@.len(),
                self.records == old(self).records,
                copy@ == self.records@.take(index as int),
            decreases self.records@.len() - index,
        {
            copy.push(self.records[index]);
            assert(copy@ =~= self.records@.take(index + 1));
            index += 1;
        }
        assert(copy@ =~= self.records@);
        self.ordered = sorted(copy);
        self.next = 0;
        proof {
            bytes_rearranged(self.ordered@, self.records@);
            assert(self.ordered@.skip(0) =~= self.ordered@);
            let list = self.pending();
            assert forall|i: int, j: int| 0 <= i < j < list.len() implies !precedes(
                #[trigger] list[j],
                #[trigger] list[i],
            ) by {
                assert(self.ordered@[i].at_most(self.ordered@[j]));
            }
        }
        Ok(())
    }

    #[verifier::loop_isolation(false)]
    fn read(&mut self, output: &mut [SortRecord]) -> (result: Result<usize>) {
        let room: usize = output.len();
        let ghost pending = self.pending();
        let start: usize = self.next;
        let total: usize = self.ordered.len();
        let mut count: usize = 0;
        while count < room && start < self.ordered.len() && count < self.ordered.len() - start
            invariant
                count <= room,
                room == output@.len(),
                self.next == start,
                self.ordered == old(self).ordered,
                total == self.ordered@.len(),
                count > 0 ==> start + count <= self.ordered@.len(),
                forall|i: int|
                    0 <= i < count ==> #[trigger] output@[i] == self.ordered@[start + i],
            decreases room - count,
        {
            output[count] = self.ordered[start + count];
            count += 1;
        }
        if count > 0 {
            self.next = start + count;
            proof {
                assert(record_bytes(output@.take(count as int)) =~= pending.take(count as int));
                assert(self.pending() =~= pending.skip(count as int));
            }
        } else {
            assert(record_bytes(output@.take(0)) =~= pending.take(0));
            assert(self.pending() =~= pending.skip(0));
        }
        Ok(count)
    }
}

} // verus!
