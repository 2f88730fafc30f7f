//! Where the postings of terms beyond a snapshot begin.
//! An anchor names the last owner of a term that the snapshot covers.

use crate::error::{Error, Result};
use crate::grouped::query::node_valid;
use crate::grouped::Node;
use crate::identity::group_identity;
use crate::mutable::count::behind;
use crate::mutable::grouped::anchors::{anchor_found, lookup, Anchor};
use crate::mutable::grouped::frontier::{follows_last, last_listed};
use crate::mutable::page::model::Image;
use crate::mutable::page::{GroupSnapshot, OwnerRef, Page, Postings, Term, TermModel, NO_BLOCK};
use crate::mutable::store::{answers, find_term, load_posting, Host, PageStore, Stage, StoreModel};
use crate::text::text_bytes;
use vstd::prelude::*;

verus! {

broadcast use group_identity;

/// Whether a page's postings reach the owner of an incarnation, each behind the
/// one before it.
pub open spec fn boundary_met(
    pending: Seq<Result<OwnerRef>>,
    previous: OwnerRef,
    last: u64,
) -> Result<()>
    decreases pending.len(),
{
    if pending.len() == 0 {
        Err(Error::InvalidState)
    } else {
        match pending[0] {
            Err(error) => Err(error),
            Ok(owner) => if !behind(owner, previous) || owner.incarnation.get() > last {
                Err(Error::InvalidState)
            } else if owner.incarnation.get() == last {
                Ok(())
            } else {
                boundary_met(pending.drop_first(), owner, last)
            },
        }
    }
}

/// What seeking the end of a term's covered postings by its anchor leads to.
pub open spec fn anchor_sought(
    model: StoreModel,
    snapshot: GroupSnapshot,
    entry: TermModel,
) -> Result<()> {
    match anchor_found(model, snapshot, entry.reference) {
        Err(error) => Err(error),
        Ok(anchor) => if anchor.head == NO_BLOCK {
            if anchor.last == entry.first.incarnation.get() {
                Ok(())
            } else {
                Err(Error::InvalidState)
            }
        } else if anchor.head != entry.head || anchor.last <= entry.first.incarnation.get() {
            Err(Error::InvalidState)
        } else {
            match model.load_posting(anchor.tail, entry.reference) {
                Err(error) => Err(error),
                Ok(image) => match image.posting_stream() {
                    Err(error) => Err(error),
                    Ok(stream) => boundary_met(stream.outcomes(), entry.first, anchor.last),
                },
            }
        },
    }
}

/// What seeking a term's postings from a target on leads to. The tail page tells
/// of a term without such postings, and of one whose postings begin on it; else
/// the anchor does, where anchors are kept and the snapshot covers the term.
pub open spec fn suffix_sought(
    host: Host,
    snapshot: GroupSnapshot,
    entry: TermModel,
    target: u64,
) -> Result<()> {
    if entry.first.incarnation.get() >= target || entry.head == NO_BLOCK {
        Ok(())
    } else {
        match host.model.load_posting(entry.tail, entry.reference) {
            Err(error) => Err(error),
            Ok(image) => match image.posting_stream() {
                Err(error) => Err(error),
                Ok(stream) => {
                    let outcomes = stream.outcomes();
                    match last_listed(outcomes, entry.first) {
                        Err(error) => Err(error),
                        Ok(last) => if outcomes.len() > 0 && (last.incarnation.get() < target
                            || outcomes[0]->Ok_0.incarnation.get() <= target || entry.head
                            == entry.tail) {
                            Ok(())
                        } else if host.anchored && snapshot.frontier_valid
                            && entry.first.incarnation.get() < snapshot.id.get() {
                            anchor_sought(host.model, snapshot, entry)
                        } else {
                            Ok(())
                        },
                    }
                },
            },
        }
    }
}

/// Whether a node is a conjunction or disjunction with a given child.
pub open spec fn joins(node: Node, child: int) -> bool {
    match node {
        Node::And(left, right) => child == left || child == right,
        Node::Or(left, right) => child == left || child == right,
        _ => false,
    }
}

/// Whether a node bounds what comes next: conjunctions and disjunctions alone
/// lead from the root to it.
pub open spec fn bounding(nodes: Seq<Node>, index: int) -> bool
    decreases nodes.len() - index,
{
    index == nodes.len() - 1 || exists|above: int|
        index < above < nodes.len() && joins(#[trigger] nodes[above], index) && bounding(
            nodes,
            above,
        )
}

/// Whether a node stands for a term.
pub open spec fn names_term(node: Node, term: int) -> bool {
    node matches Node::Term(name) && name == term
}

/// Whether a term is one that bounds what comes next.
pub open spec fn bounding_term(nodes: Seq<Node>, term: int) -> bool {
    exists|index: int|
        0 <= index < nodes.len() && names_term(#[trigger] nodes[index], term) && bounding(
            nodes,
            index,
        )
}

/// What seeking the postings beyond a snapshot of the bounding terms from an
/// index on leads to.
pub open spec fn suffixes_sought(
    host: Host,
    meta: Image,
    snapshot: GroupSnapshot,
    nodes: Seq<Node>,
    names: Seq<Option<&str>>,
    index: int,
) -> Result<()>
    decreases names.len() - index,
{
    if index < 0 || index >= names.len() {
        Ok(())
    } else {
        let rest = suffixes_sought(host, meta, snapshot, nodes, names, index + 1);
        match names[index] {
            None => rest,
            Some(name) => if !bounding_term(nodes, index) {
                rest
            } else {
                match host.model.find_term(meta, text_bytes(name)) {
                    Err(error) => Err(error),
                    Ok(None) => rest,
                    Ok(Some((image, reference))) => match image.term(reference) {
                        Err(error) => Err(error),
                        Ok(entry) => match suffix_sought(
                            host,
                            snapshot,
                            entry,
                            (snapshot.id.get() + 1) as u64,
                        ) {
                            Err(error) => Err(error),
                            Ok(_) => rest,
                        },
                    },
                }
            },
        }
    }
}

/// Seeks the owner of an incarnation on a page of postings.
#[verifier::loop_isolation(false)]
fn meet_boundary(page: &Page, first: OwnerRef, last: u64) -> (result: Result<()>)
    ensures
        result == (match page@.posting_stream() {
            Err(error) => Err(error),
            Ok(stream) => boundary_met(stream.outcomes(), first, last),
        }),
{
    let mut owners: Postings<'_> = page.posting_refs()?;
    let ghost all = owners@;
    let mut previous: OwnerRef = first;
    loop
        invariant
            boundary_met(all, first, last) == boundary_met(owners@, previous, last),
        decreases owners@.len(),
    {
        match owners.next() {
            None => {
                return Err(Error::InvalidState);
            },
            Some(owner) => {
                let owner: OwnerRef = owner?;
                if !follows_last(owner, Some(previous)) || owner.incarnation.get() > last {
                    return Err(Error::InvalidState);
                }
                if owner.incarnation.get() == last {
                    return Ok(());
                }
                previous = owner;
            },
        }
    }
}

/// Seeks the end of a term's covered postings by its anchor.
fn seek_anchor<S: PageStore>(store: &mut S, snapshot: &GroupSnapshot, term: &Term<'_>) -> (result:
    Result<()>)
    ensures
        answers(
            old(store).host(),
            final(store).host(),
            result,
            anchor_sought(old(store).host().model, *snapshot, term@),
        ),
{
    let anchor: Anchor = lookup(store, snapshot, term.reference)?;
    if anchor.head == NO_BLOCK {
        if anchor.last != term.first.incarnation.get() {
            return Err(Error::InvalidState);
        }
    } else {
        if anchor.head != term.head || anchor.last <= term.first.incarnation.get() {
            return Err(Error::InvalidState);
        }
        let page: Page = load_posting(store, anchor.tail, term.reference)?;
        meet_boundary(&page, term.first, anchor.last)?;
    }
    store.event(Stage::FrontierSeek)?;
    Ok(())
}

/// The first and the last owner of a page of postings, each behind the one
/// before it.
#[verifier::loop_isolation(false)]
fn page_ends(page: &Page, first: OwnerRef) -> (result: Result<Option<(OwnerRef, OwnerRef)>>)
    ensures
        match page@.posting_stream() {
            Err(error) => result == Err::<Option<(OwnerRef, OwnerRef)>, Error>(error),
            Ok(stream) => match last_listed(stream.outcomes(), first) {
                Err(error) => result == Err::<Option<(OwnerRef, OwnerRef)>, Error>(error),
                Ok(last) => result == Ok::<Option<(OwnerRef, OwnerRef)>, Error>(
                    if stream.outcomes().len() == 0 {
                        None
                    } else {
                        Some((stream.outcomes()[0]->Ok_0, last))
                    },
                ),
            },
        },
{
    let mut owners: Postings<'_> = page.posting_refs()?;
    let ghost all = owners@;
    let mut ends: Option<(OwnerRef, OwnerRef)> = None;
    loop
        invariant
            match ends {
                None => owners@ == all,
                Some((begin, end)) => all.len() > 0 && all[0] == Ok::<OwnerRef, Error>(begin)
                    && last_listed(all, first) == last_listed(owners@, end),
            },
        decreases owners@.len(),
    {
        match owners.next() {
            None => {
                return Ok(ends);
            },
            Some(owner) => {
                let owner: OwnerRef = owner?;
                match ends {
                    None => {
                        if !follows_last(owner, Some(first)) {
                            return Err(Error::InvalidState);
                        }
                        ends = Some((owner, owner));
                    },
                    Some((begin, end)) => {
                        if !follows_last(owner, Some(end)) {
                            return Err(Error::InvalidState);
                        }
                        ends = Some((begin, owner));
                    },
                }
            },
        }
    }
}

/// Seeks a term's postings from a target on.
fn seek_suffix<S: PageStore>(
    store: &mut S,
    snapshot: &GroupSnapshot,
    term: &Term<'_>,
    target: u64,
) -> (result: Result<()>)
    ensures
        answers(
            old(store).host(),
            final(store).host(),
            result,
            suffix_sought(old(store).host(), *snapshot, term@, target),
        ),
{
    if term.first.incarnation.get() >= target || term.head == NO_BLOCK {
        return Ok(());
    }
    let tail: Page = load_posting(store, term.tail, term.reference)?;
    if let Some((begin, end)) = page_ends(&tail, term.first)? {
        if end.incarnation.get() < target || begin.incarnation.get() <= target || term.head
            == term.tail {
            return Ok(());
        }
    }
    if store.frontier_anchors() && snapshot.frontier_valid && term.first.incarnation.get()
        < snapshot.id.get() {
        return seek_anchor(store, snapshot, term);
    }
    Ok(())
}

/// Whether one of the nodes from an index on stands for a term and bounds what
/// comes next.
pub open spec fn bounded_from(nodes: Seq<Node>, from: int, term: int) -> bool {
    exists|index: int|
        from <= index < nodes.len() && names_term(#[trigger] nodes[index], term) && bounding(
            nodes,
            index,
        )
}

/// Whether a node is the root or the child of a bounding one from an index on.
pub open spec fn joined_from(nodes: Seq<Node>, from: int, index: int) -> bool {
    index == nodes.len() - 1 || exists|above: int|
        from <= above < nodes.len() && index < above && joins(#[trigger] nodes[above], index)
            && bounding(nodes, above)
}

/// The terms that bound what comes next.
#[verifier::rlimit(40)]
fn bounding_terms(nodes: &Vec<Node>, terms: usize) -> (bounds: Vec<bool>)
    requires
        nodes@.len() > 0,
        forall|i: int|
            0 <= i < nodes@.len() ==> node_valid(#[trigger] nodes@[i], i, terms as int),
    ensures
        bounds@.len() == terms,
        forall|term: int|
            0 <= term < terms ==> #[trigger] bounds@[term] == bounding_term(nodes@, term),
{
    let mut active: Vec<bool> = Vec::new();
    while active.len() < nodes.len()
        invariant
            active@.len() <= nodes@.len(),
            forall|i: int| 0 <= i < active@.len() ==> !(#[trigger] active@[i]),
        decreases nodes@.len() - active@.len(),
    {
        active.push(false);
    }
    let mut bounds: Vec<bool> = Vec::new();
    while bounds.len() < terms
        invariant
            bounds@.len() <= terms,
            forall|i: int| 0 <= i < bounds@.len() ==> !(#[trigger] bounds@[i]),
        decreases terms - bounds@.len(),
    {
        bounds.push(false);
    }
    let mut from: usize = nodes.len();
    active[from - 1] = true;
    while from > 0
        invariant
            from <= nodes@.len(),
            active@.len() == nodes@.len(),
            bounds@.len() == terms,
            forall|i: int|
                0 <= i < nodes@.len() ==> node_valid(#[trigger] nodes@[i], i, terms as int),
            forall|i: int|
                0 <= i < nodes@.len() ==> #[trigger] active@[i] == joined_from(
                    nodes@,
                    from as int,
                    i,
                ),
            forall|term: int|
                0 <= term < terms ==> #[trigger] bounds@[term] == bounded_from(
                    nodes@,
                    from as int,
                    term,
                ),
        decreases from,
    {
        let at: usize = from - 1;
        let ghost before = active@;
        let ghost marked = bounds@;
        assert(active@[at as int] == bounding(nodes@, at as int));
        if active[at] {
            match nodes[at] {
                Node::Term(term) => {
                    bounds[term] = true;
                },
                Node::And(left, right) => {
                    active[left] = true;
                    active[right] = true;
                },
                Node::Or(left, right) => {
                    active[left] = true;
                    active[right] = true;
                },
                _ => {},
            }
        }
        proof {
            let seen = nodes@[at as int];
            assert forall|i: int| 0 <= i < nodes@.len() implies #[trigger] active@[i]
                == joined_from(nodes@, at as int, i) by {
                assert(before[i] == joined_from(nodes@, from as int, i));
                assert(joined_from(nodes@, at as int, i) == (joined_from(nodes@, from as int, i) || (i
                    < at && joins(seen, i) && bounding(nodes@, at as int))));
            }
            assert forall|term: int| 0 <= term < terms implies #[trigger] bounds@[term]
                == bounded_from(nodes@, at as int, term) by {
                assert(marked[term] == bounded_from(nodes@, from as int, term));
                assert(bounded_from(nodes@, at as int, term) == (bounded_from(
                    nodes@,
                    from as int,
                    term,
                ) || (names_term(seen, term) && bounding(nodes@, at as int))));
            }
        }
        from = at;
    }
    bounds
}

/// Seeks the postings beyond a snapshot of the terms that bound what comes next.
#[verifier::loop_isolation(false)]
pub(crate) fn seek_suffixes<S: PageStore>(
    store: &mut S,
    meta: &Page,
    snapshot: &GroupSnapshot,
    nodes: &Vec<Node>,
    names: &Vec<Option<&str>>,
) -> (result: Result<()>)
    requires
        nodes@.len() > 0,
        forall|i: int|
            0 <= i < nodes@.len() ==> node_valid(#[trigger] nodes@[i], i, names@.len() as int),
        snapshot.id.get() < u64::MAX,
    ensures
        answers(
            old(store).host(),
            final(store).host(),
            result,
            suffixes_sought(old(store).host(), meta@, *snapshot, nodes@, names@, 0),
        ),
{
    let target: u64 = snapshot.id.get() + 1;
    let bounds: Vec<bool> = bounding_terms(nodes, names.len());
    let ghost host = store.host();
    let mut index: usize = 0;
    while index < names.len()
        invariant
            index <= names@.len(),
            store.host() == host,
            suffixes_sought(host, meta@, *snapshot, nodes@, names@, 0) == suffixes_sought(
                host,
                meta@,
                *snapshot,
                nodes@,
                names@,
                index as int,
            ),
        decreases names@.len() - index,
    {
        if let Some(name) = names[index] {
            if bounds[index] {
                if let Some((dictionary, reference)) = find_term(store, meta, name)? {
                    let entry: Term<'_> = dictionary.term(reference)?;
                    seek_suffix(store, snapshot, &entry, target)?;
                }
            }
        }
        index += 1;
    }
    Ok(())
}

} // verus!
