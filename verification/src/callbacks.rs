//! What callers hand to scans and maintenance: sinks, filters and cancellation.

use crate::error::Result;
use crate::identity::RootTid;
use crate::mask::OffsetMask;
use vstd::prelude::*;

verus! {

/// Decides which roots are globally removable. The answer for a root is stable
/// while an operation runs.
pub trait RootFilter {
    /// Whether a root is removable.
    spec fn removes(&self, root: RootTid) -> bool;

    /// Whether every question is answered.
    spec fn certain(&self) -> bool;

    /// The roots that were asked for so far.
    spec fn asked(&self) -> Seq<RootTid>;

    fn removable(&mut self, root: RootTid) -> (result: Result<bool>)
        ensures
            forall|other: RootTid| final(self).removes(other) == old(self).removes(other),
            final(self).certain() == old(self).certain(),
            final(self).asked() == old(self).asked().push(root),
            old(self).certain() ==> result is Ok,
            result matches Ok(answer) ==> answer == old(self).removes(root),
    ;
}

/// Receives items one by one.
pub trait Sink<T> {
    /// The items received so far.
    spec fn received(&self) -> Seq<T>;

    /// Whether no item is refused.
    spec fn accepting(&self) -> bool;

    fn emit(&mut self, item: T) -> (result: Result<()>)
        ensures
            final(self).accepting() == old(self).accepting(),
            match result {
                Ok(_) => final(self).received() == old(self).received().push(item),
                Err(_) => final(self).received() == old(self).received(),
            },
            old(self).accepting() ==> result is Ok,
    ;
}

/// What is handed over of a root, and of whether the predicate is still to be
/// checked on its heap tuple.
pub trait RootItem: Sized {
    spec fn of(root: RootTid, recheck: bool) -> Self;

    fn new(root: RootTid, recheck: bool) -> (item: Self)
        ensures
            item == Self::of(root, recheck),
    ;
}

/// A root alone.
impl RootItem for RootTid {
    open spec fn of(root: RootTid, recheck: bool) -> Self {
        root
    }

    fn new(root: RootTid, recheck: bool) -> (item: Self) {
        root
    }
}

/// A root with its recheck obligation.
#[derive(Clone, Copy, Debug, Eq, PartialEq, Structural)]
pub struct Found {
    pub root: RootTid,
    pub recheck: bool,
}

impl RootItem for Found {
    open spec fn of(root: RootTid, recheck: bool) -> Self {
        Found { root, recheck }
    }

    fn new(root: RootTid, recheck: bool) -> (item: Self) {
        Found { root, recheck }
    }
}

/// Receives the matching offsets of heap blocks.
pub trait MatchSink {
    /// The blocks received so far, each with its offsets.
    spec fn received(&self) -> Seq<(u32, Seq<u64>)>;

    /// Whether no block is refused.
    spec fn accepting(&self) -> bool;

    fn emit(&mut self, block: u32, offsets: &OffsetMask) -> (result: Result<()>)
        ensures
            final(self).accepting() == old(self).accepting(),
            old(self).accepting() ==> result is Ok,
            match result {
                Ok(_) => final(self).received() == old(self).received().push((block, offsets@)),
                Err(_) => final(self).received() == old(self).received(),
            },
    ;
}

/// Lets a caller cancel long work.
pub trait Interrupt {
    /// Whether the caller never cancels.
    spec fn patient(&self) -> bool;

    fn interrupt(&mut self) -> (result: Result<()>)
        ensures
            final(self).patient() == old(self).patient(),
            old(self).patient() ==> result is Ok,
    ;
}

/// Never cancels.
pub struct Uninterrupted;

impl Interrupt for Uninterrupted {
    open spec fn patient(&self) -> bool {
        true
    }

    fn interrupt(&mut self) -> (result: Result<()>) {
        Ok(())
    }
}

impl<T> Sink<T> for Vec<T> {
    open spec fn received(&self) -> Seq<T> {
        self@
    }

    open spec fn accepting(&self) -> bool {
        true
    }

    fn emit(&mut self, item: T) -> (result: Result<()>) {
        self.push(item);
        Ok(())
    }
}

/// Collects matching blocks.
pub struct MatchList {
    pub blocks: Vec<(u32, OffsetMask)>,
}

impl MatchSink for MatchList {
    open spec fn received(&self) -> Seq<(u32, Seq<u64>)> {
        self.blocks@.map_values(|entry: (u32, OffsetMask)| (entry.0, entry.1@))
    }

    open spec fn accepting(&self) -> bool {
        true
    }

    fn emit(&mut self, block: u32, offsets: &OffsetMask) -> (result: Result<()>) {
        let ghost before = self.received();
        self.blocks.push((block, *offsets));
        assert(self.received() =~= before.push((block, offsets@)));
        Ok(())
    }
}

/// Removes the listed roots.
pub struct RootList {
    roots: Vec<RootTid>,
    asked: Ghost<Seq<RootTid>>,
}

impl RootList {
    /// The listed roots.
    pub closed spec fn listed(&self) -> Seq<RootTid> {
        self.roots@
    }

    pub fn new(roots: Vec<RootTid>) -> (filter: Self)
        ensures
            filter.listed() == roots@,
            filter.asked().len() == 0,
    {
        RootList { roots, asked: Ghost(Seq::empty()) }
    }
}

impl RootFilter for RootList {
    open spec fn removes(&self, root: RootTid) -> bool {
        self.listed().contains(root)
    }

    open spec fn certain(&self) -> bool {
        true
    }

    closed spec fn asked(&self) -> Seq<RootTid> {
        self.asked@
    }

    fn removable(&mut self, root: RootTid) -> (result: Result<bool>) {
        self.asked = Ghost(self.asked@.push(root));
        let mut index: usize = 0;
        while index < self.roots.len()
            invariant
                index <= self.roots@.len(),
                self.roots == old(self).roots,
                self.asked@ == old(self).asked@.push(root),
                forall|i: int| 0 <= i < index ==> self.roots@[i] != root,
            decreases self.roots@.len() - index,
        {
            if self.roots[index] == root {
                assert(self.roots@[index as int] == root);
                return Ok(true);
            }
            index += 1;
        }
        Ok(false)
    }
}

} // verus!
