//! Page-group pruning over a complete snapshot plus a term-addressed write frontier.
//! Bitmap output remains subject to heap visibility and rechecks.

use crate::error::{Error, Result};
use crate::callbacks::{MatchList, MatchSink};
use crate::grouped::bitmap::{bitmap_at, BitmapModel};
use crate::grouped::query::{
    bitmap_covers, evaluate_source, expected_from, holds, needed_terms, node_pages, node_valid,
    payload_broken,
    program_valid, reported, same_bits_mask, term_masks, Source, SourceModel,
};
use crate::grouped::{Bitmap, GroupKey, Node, OffsetMask, PageMask, QueryScratch, QueryStats};
use crate::identity::{coordinate_error, HeapLayout, RootTid};
use crate::mask::{mask_next, member, members};
use crate::mutable::grouped::catalog::{Cursor, CursorModel};
use crate::mutable::grouped::records::{bitmap_read, read_bitmap};
use crate::mutable::grouped::values::{value_at, Value};
use crate::mutable::page::grouped_model::EntryModel;
use crate::mutable::page::{CatalogEntry, GroupSnapshot};
use crate::callbacks::{Found, Sink};
use crate::mutable::grouped::anchors::{term_key, term_number};
use crate::mutable::grouped::frontier::{
    frontier_fails, frontier_told, suffixes_met, OWNER_FRONTIER_FIXED,
};
use crate::mutable::grouped::values::BITMAP_BYTES;
use crate::mutable::page::grouped_model::GroupModel;
use crate::mutable::page::model::Image;
use crate::mutable::page::{GroupDelta, GroupState, Page, PageKind, Term, TermRef, NO_BLOCK};
use crate::mutable::query::{query_told, scan_query_with_recheck, scan_term_entry};
use crate::mutable::store::{
    answers, find_term, load, load_posting, Host, PageStore, Stage, StoreModel,
};
use crate::mutable::walk::delivered;
use crate::mutable::membership::name_bytes;
use crate::query::{Kind, KindModel, Query, QueryModel};
use crate::text::{same_bytes, text_bytes};
use core::mem::size_of;
use vstd::prelude::*;

verus! {

pub const NODES: usize = 64;

/// Whether a query is a combination of terms that group bitmaps can answer.
pub open spec fn groupable(query: QueryModel) -> bool {
    &&& query.nodes.len() <= NODES
    &&& query.root + 1 == query.nodes.len()
    &&& forall|i: int|
        0 <= i < query.nodes.len() ==> !(#[trigger] query.nodes[i] is Prefix)
            && !(query.nodes[i] is Phrase)
}

/// Whether a combination of terms holds of something that has some of them.
pub open spec fn boolean_value(query: QueryModel, index: int, under: spec_fn(Seq<u8>) -> bool) -> bool
    decreases index,
{
    match query.nodes[index] {
        KindModel::Term(term) => under(term),
        KindModel::Not(child) => 0 <= child < index && !boolean_value(query, child, under),
        KindModel::And(left, right) => 0 <= left < index && 0 <= right < index && boolean_value(
            query,
            left,
            under,
        ) && boolean_value(query, right, under),
        KindModel::Or(left, right) => 0 <= left < index && 0 <= right < index && (boolean_value(
            query,
            left,
            under,
        ) || boolean_value(query, right, under)),
        _ => false,
    }
}

/// What a combination of terms asks of a document's words is what the query asks.
pub proof fn boolean_holds(query: QueryModel, index: int, document: Seq<Seq<u8>>)
    requires
        query.wf(),
        groupable(query),
        0 <= index < query.nodes.len(),
    ensures
        boolean_value(query, index, |term: Seq<u8>| document.contains(term)) == query.holds_at(
            index,
            document,
        ),
    decreases index,
{
    assert(crate::query::ordered(query.nodes[index], index));
    assert(!(query.nodes[index] is Prefix));
    match query.nodes[index] {
        KindModel::Not(child) => boolean_holds(query, child, document),
        KindModel::And(left, right) => {
            boolean_holds(query, left, document);
            boolean_holds(query, right, document);
        },
        KindModel::Or(left, right) => {
            boolean_holds(query, left, document);
            boolean_holds(query, right, document);
        },
        _ => {},
    }
}

/// Whether a program holds of something that is a member of some of its terms.
pub open spec fn program_value(nodes: Seq<Node>, index: int, member: spec_fn(int) -> bool) -> bool
    decreases index,
{
    match nodes[index] {
        Node::Term(term) => member(term as int),
        Node::All => true,
        Node::Not(child) => child < index && !program_value(nodes, child as int, member),
        Node::And(left, right) => left < index && right < index && program_value(
            nodes,
            left as int,
            member,
        ) && program_value(nodes, right as int, member),
        Node::Or(left, right) => left < index && right < index && (program_value(
            nodes,
            left as int,
            member,
        ) || program_value(nodes, right as int, member)),
        Node::Difference(left, right) => left < index && right < index && program_value(
            nodes,
            left as int,
            member,
        ) && !program_value(nodes, right as int, member),
    }
}

/// The terms of a program that something has.
pub open spec fn members_under(names: Seq<Option<&str>>, under: spec_fn(Seq<u8>) -> bool) -> spec_fn(
    int,
) -> bool {
    |term: int| name_bytes(names[term]) matches Some(name) && under(name)
}

/// A query as a program over its distinct terms; a term without a name has no
/// members.
pub struct Program<'q> {
    pub nodes: Vec<Node>,
    pub names: Vec<Option<&'q str>>,
    pub universe: bool,
}

impl<'q> Program<'q> {
    /// Whether the program is that of a query.
    pub open spec fn stands_for(&self, query: QueryModel) -> bool {
        &&& self.nodes@.len() == query.nodes.len()
        &&& 0 < self.nodes@.len() <= NODES
        &&& self.names@.len() <= self.nodes@.len()
        &&& forall|i: int|
            0 <= i < self.nodes@.len() ==> node_fits(
                #[trigger] self.nodes@[i],
                i,
                query.nodes[i],
                self.names@,
            )
    }
}

/// Whether a node of a program is that of a query.
pub open spec fn node_fits(
    node: Node,
    index: int,
    kind: KindModel,
    names: Seq<Option<&str>>,
) -> bool {
    match (node, kind) {
        (Node::Term(term), KindModel::Nothing) => term < names.len() && names[term as int] is None,
        (Node::Term(term), KindModel::Term(text)) => term < names.len() && name_bytes(
            names[term as int],
        ) == Some(text),
        (Node::Not(child), KindModel::Not(other)) => child == other && child < index,
        (Node::And(left, right), KindModel::And(one, two)) => left == one && right == two && left
            < index && right < index,
        (Node::Or(left, right), KindModel::Or(one, two)) => left == one && right == two && left
            < index && right < index,
        _ => false,
    }
}

/// What a program finds in a group is what it says of the terms that a root is
/// marked under.
pub proof fn group_value(
    nodes: Seq<Node>,
    source: SourceModel,
    index: int,
    page: int,
    offset: int,
    member: spec_fn(int) -> bool,
)
    requires
        program_valid(nodes, source.terms.len() as int),
        0 <= index < nodes.len(),
        (source.live)(page, offset),
        forall|t: int|
            0 <= t < source.terms.len() ==> (#[trigger] source.terms[t])(page, offset) == member(t),
    ensures
        holds(nodes, source, index, page, offset) == program_value(nodes, index, member),
    decreases index,
{
    assert(node_valid(nodes[index], index, source.terms.len() as int));
    match nodes[index] {
        Node::Term(term) => {
            assert(source.terms[term as int](page, offset) == member(term as int));
        },
        Node::All => {},
        Node::Not(child) => group_value(nodes, source, child as int, page, offset, member),
        Node::And(left, right) => {
            group_value(nodes, source, left as int, page, offset, member);
            group_value(nodes, source, right as int, page, offset, member);
        },
        Node::Or(left, right) => {
            group_value(nodes, source, left as int, page, offset, member);
            group_value(nodes, source, right as int, page, offset, member);
        },
        Node::Difference(left, right) => {
            group_value(nodes, source, left as int, page, offset, member);
            group_value(nodes, source, right as int, page, offset, member);
        },
    }
}

/// Grouped answers are posting answers: a live root that the bitmaps of a group
/// mark under the terms that its owner is listed under is found exactly where
/// the query holds of those terms.
pub proof fn grouped_answers_are_posting_answers(
    program: Program<'_>,
    query: QueryModel,
    source: SourceModel,
    page: int,
    offset: int,
    under: spec_fn(Seq<u8>) -> bool,
)
    requires
        program.stands_for(query),
        query.root == query.nodes.len() - 1,
        source.terms.len() == program.names@.len(),
        (source.live)(page, offset),
        forall|t: int|
            0 <= t < source.terms.len() ==> (#[trigger] source.terms[t])(page, offset)
                == members_under(program.names@, under)(t),
    ensures
        holds(program.nodes@, source, program.nodes@.len() - 1, page, offset) == boolean_value(
            query,
            query.root,
            under,
        ),
{
    assert forall|i: int| 0 <= i < program.nodes@.len() implies node_valid(
        #[trigger] program.nodes@[i],
        i,
        program.names@.len() as int,
    ) by {
        assert(node_fits(program.nodes@[i], i, query.nodes[i], program.names@));
    }
    group_value(
        program.nodes@,
        source,
        program.nodes@.len() - 1,
        page,
        offset,
        members_under(program.names@, under),
    );
    program_faithful(program, query, query.root, under);
}

/// A program has the value of its query.
pub proof fn program_faithful(
    program: Program<'_>,
    query: QueryModel,
    index: int,
    under: spec_fn(Seq<u8>) -> bool,
)
    requires
        program.stands_for(query),
        0 <= index < query.nodes.len(),
    ensures
        program_value(program.nodes@, index, members_under(program.names@, under))
            == boolean_value(query, index, under),
    decreases index,
{
    assert(node_fits(program.nodes@[index], index, query.nodes[index], program.names@));
    match query.nodes[index] {
        KindModel::Not(child) => program_faithful(program, query, child, under),
        KindModel::And(left, right) => {
            program_faithful(program, query, left, under);
            program_faithful(program, query, right, under);
        },
        KindModel::Or(left, right) => {
            program_faithful(program, query, left, under);
            program_faithful(program, query, right, under);
        },
        _ => {},
    }
}

/// The place of a name among names, where it is one of them.
#[verifier::loop_isolation(false)]
fn position(names: &Vec<Option<&str>>, name: Option<&str>) -> (place: Option<usize>)
    ensures
        match place {
            Some(place) => place < names@.len() && name_bytes(names@[place as int]) == name_bytes(
                name,
            ),
            None => forall|t: int|
                0 <= t < names@.len() ==> name_bytes(#[trigger] names@[t]) != name_bytes(name),
        },
{
    let mut index: usize = 0;
    while index < names.len()
        invariant
            index <= names@.len(),
            forall|t: int|
                0 <= t < index ==> name_bytes(#[trigger] names@[t]) != name_bytes(name),
        decreases names@.len() - index,
    {
        let same: bool = match (names[index], name) {
            (Some(one), Some(two)) => same_bytes(one.as_bytes(), two.as_bytes()),
            (None, None) => true,
            _ => false,
        };
        if same {
            return Some(index);
        }
        index += 1;
    }
    None
}

/// What a condition of a query names: a term, or nothing that has members.
pub open spec fn named_by(kind: KindModel) -> Option<Option<Seq<u8>>> {
    match kind {
        KindModel::Nothing => Some(None),
        KindModel::Term(text) => Some(Some(text)),
        _ => None,
    }
}

/// The distinct names of the first `count` conditions of a query, in order.
pub open spec fn query_names(query: QueryModel, count: int) -> Seq<Option<Seq<u8>>>
    decreases count,
{
    if count <= 0 {
        Seq::empty()
    } else {
        let before = query_names(query, count - 1);
        match named_by(query.nodes[count - 1]) {
            None => before,
            Some(name) => if before.contains(name) {
                before
            } else {
                before.push(name)
            },
        }
    }
}

/// The names of a program as bytes.
pub open spec fn names_bytes(names: Seq<Option<&str>>) -> Seq<Option<Seq<u8>>> {
    names.map_values(|name: Option<&str>| name_bytes(name))
}

/// The memory that an exact scan of a query needs.
pub open spec fn needed_bytes(query: QueryModel) -> int {
    required_bytes(query_names(query, query.nodes.len() as int).len() as int)
}

/// Translates a query into a program; nothing for queries that bitmaps cannot answer.
#[verifier::loop_isolation(false)]
pub fn compile(query: &Query) -> (program: Option<Program<'_>>)
    ensures
        match program {
            Some(program) => groupable(query@) && program.stands_for(query@) && names_bytes(
                program.names@,
            ) == query_names(query@, query@.nodes.len() as int),
            None => !groupable(query@),
        },
{
    let count: usize = query.node_count();
    if count > NODES || query.root() + 1 != count {
        return None;
    }
    let mut nodes: Vec<Node> = Vec::new();
    let mut names: Vec<Option<&str>> = Vec::new();
    let mut unbounded: Vec<bool> = Vec::new();
    let mut index: usize = 0;
    while index < count
        invariant
            index <= count,
            nodes@.len() == index,
            unbounded@.len() == index,
            names@.len() <= index,
            names_bytes(names@) == query_names(query@, index as int),
            forall|i: int|
                0 <= i < index ==> node_fits(#[trigger] nodes@[i], i, query@.nodes[i], names@)
                    && !(query@.nodes[i] is Prefix) && !(query@.nodes[i] is Phrase),
        decreases count - index,
    {
        let ghost before = names@;
        let kind: &Kind = &query.node(index).kind;
        let (node, all): (Node, bool) = match kind {
            Kind::Nothing => {
                let term: usize = match position(&names, None) {
                    Some(term) => term,
                    None => {
                        names.push(None);
                        names.len() - 1
                    },
                };
                (Node::Term(term), false)
            },
            Kind::Term(text) => {
                let name: Option<&str> = Some(text.as_str());
                let term: usize = match position(&names, name) {
                    Some(term) => term,
                    None => {
                        names.push(name);
                        names.len() - 1
                    },
                };
                (Node::Term(term), false)
            },
            Kind::And(left, right) => (
                Node::And(*left, *right),
                unbounded[*left] && unbounded[*right],
            ),
            Kind::Or(left, right) => (
                Node::Or(*left, *right),
                unbounded[*left] || unbounded[*right],
            ),
            Kind::Not(child) => (Node::Not(*child), true),
            Kind::Prefix(_) => {
                assert(query@.nodes[index as int] is Prefix);
                return None;
            },
            Kind::Phrase(_) => {
                assert(query@.nodes[index as int] is Phrase);
                return None;
            },
        };
        assert forall|t: int| 0 <= t < before.len() implies #[trigger] names@[t] == before[t] by {}
        proof {
            if let Some(name) = named_by(query@.nodes[index as int]) {
                let known = names_bytes(before);
                if names@.len() > before.len() {
                    assert(!known.contains(name)) by {
                        if known.contains(name) {
                            let t = known.index_of(name);
                            assert(name_bytes(before[t]) == name);
                        }
                    }
                    assert(names_bytes(names@) =~= known.push(name));
                } else {
                    assert(known[node->Term_0 as int] == name);
                    assert(names@ =~= before);
                }
            } else {
                assert(names@ =~= before);
            }
        }
        nodes.push(node);
        unbounded.push(all);
        index += 1;
    }
    proof {
        assert forall|i: int| 0 <= i < query@.nodes.len() implies !(
        #[trigger] query@.nodes[i] is Prefix) && !(query@.nodes[i] is Phrase) by {
            assert(node_fits(nodes@[i], i, query@.nodes[i], names@));
        }
    }
    Some(Program { nodes, names, universe: unbounded[count - 1] })
}

/// Reports syntactic eligibility only; storage and memory are checked by `scan_exact`.
pub fn supports_exact(query: &Query) -> (supported: bool)
    ensures
        supported == groupable(query@),
{
    compile(query).is_some()
}

/// Evaluates a program on the membership of its terms.
#[verifier::loop_isolation(false)]
pub(crate) fn matched(nodes: &Vec<Node>, members: &Vec<bool>) -> (result: Result<bool>)
    requires
        nodes@.len() > 0,
    ensures
        (forall|i: int|
            0 <= i < nodes@.len() ==> node_valid(#[trigger] nodes@[i], i, members@.len() as int))
            ==> result == Ok::<bool, Error>(
            program_value(nodes@, nodes@.len() - 1, |term: int| members@[term]),
        ),
{
    let ghost member = |term: int| members@[term];
    let ghost valid = forall|i: int|
        0 <= i < nodes@.len() ==> node_valid(#[trigger] nodes@[i], i, members@.len() as int);
    let mut values: Vec<bool> = Vec::new();
    let mut index: usize = 0;
    while index < nodes.len()
        invariant
            index <= nodes@.len(),
            values@.len() == index,
            valid ==> forall|i: int|
                0 <= i < index ==> #[trigger] values@[i] == program_value(nodes@, i, member),
        decreases nodes@.len() - index,
    {
        proof {
            if valid {
                assert(node_valid(nodes@[index as int], index as int, members@.len() as int));
            }
        }
        let value: bool = match nodes[index] {
            Node::Term(term) => {
                if term >= members.len() {
                    return Err(Error::InvalidState);
                }
                members[term]
            },
            Node::All => true,
            Node::Not(child) => {
                if child >= index {
                    return Err(Error::InvalidState);
                }
                !values[child]
            },
            Node::And(left, right) => {
                if left >= index || right >= index {
                    return Err(Error::InvalidState);
                }
                values[left] && values[right]
            },
            Node::Or(left, right) => {
                if left >= index || right >= index {
                    return Err(Error::InvalidState);
                }
                values[left] || values[right]
            },
            Node::Difference(left, right) => {
                if left >= index || right >= index {
                    return Err(Error::InvalidState);
                }
                values[left] && !values[right]
            },
        };
        values.push(value);
        index += 1;
    }
    Ok(values[nodes.len() - 1])
}

/// Consumes exact predicate membership, not a visibility proof. Page masks
/// belong to one protected snapshot; suffix roots remain owner-qualified.
pub trait ExactSink {
    /// The nonempty, liveness-masked heap pages received so far.
    spec fn pages(&self) -> Seq<(u32, Seq<u64>)>;

    /// The roots received so far from the sparse or mutable path.
    spec fn roots(&self) -> Seq<RootTid>;

    /// Whether nothing is refused.
    spec fn accepting(&self) -> bool;

    /// Records work from one sealed group, excluding sparse and frontier payloads.
    fn work(&mut self, stats: QueryStats) -> (result: Result<()>)
        ensures
            final(self).pages() == old(self).pages(),
            final(self).roots() == old(self).roots(),
            final(self).accepting() == old(self).accepting(),
            old(self).accepting() ==> result is Ok,
    ;

    /// Accepts one predicate-qualified root from the sparse or mutable path.
    fn tid(&mut self, root: RootTid) -> (result: Result<()>)
        ensures
            final(self).pages() == old(self).pages(),
            final(self).accepting() == old(self).accepting(),
            old(self).accepting() ==> result is Ok,
            match result {
                Ok(_) => final(self).roots() == old(self).roots().push(root),
                Err(_) => final(self).roots() == old(self).roots(),
            },
    ;

    /// Accepts one nonempty, liveness-masked heap-page result.
    fn page(&mut self, layout: HeapLayout, block: u32, offsets: &OffsetMask) -> (result: Result<()>)
        ensures
            final(self).roots() == old(self).roots(),
            final(self).accepting() == old(self).accepting(),
            old(self).accepting() ==> result is Ok,
            match result {
                Ok(_) => final(self).pages() == old(self).pages().push((block, offsets@)),
                Err(_) => final(self).pages() == old(self).pages(),
            },
    ;
}

/// The roots of the members of a page mask.
pub open spec fn mask_roots(block: u32, bits: Seq<int>) -> Seq<Found> {
    bits.map_values(
        |bit: int| Found { root: RootTid::of(block, (bit + 1) as u16), recheck: false },
    )
}

/// Whether every member of a page mask is an offset of the layout.
pub open spec fn mask_fits(layout: HeapLayout, block: u32, bits: Seq<int>) -> bool {
    forall|i: int|
        0 <= i < bits.len() ==> coordinate_error(block, (#[trigger] bits[i] + 1) as u16, layout)
            is None
}

/// Hands over the roots of one heap-page result in the order of their offsets,
/// none of which has to be rechecked.
///
/// # Errors
/// Rejects offsets outside the layout and what the receiver refuses; what came
/// before was handed over then.
#[verifier::loop_isolation(false)]
pub fn expand_page<E: Sink<Found>>(
    layout: HeapLayout,
    block: u32,
    offsets: &OffsetMask,
    emit: &mut E,
) -> (result: Result<()>)
    ensures
        final(emit).accepting() == old(emit).accepting(),
        match result {
            Ok(_) => mask_fits(layout, block, members(offsets@, 0)) && final(emit).received()
                == old(emit).received() + mask_roots(block, members(offsets@, 0)),
            Err(error) => {
                &&& !old(emit).accepting() || (error == Error::InvalidState && !mask_fits(
                    layout,
                    block,
                    members(offsets@, 0),
                ))
                &&& exists|count: int|
                    0 <= count < members(offsets@, 0).len() && final(emit).received() == old(emit).received() + #[trigger] mask_roots(block, members(offsets@, 0).take(count))
            },
        },
{
    let ghost all = members(offsets@, 0);
    let ghost before = emit.received();
    let ghost mut done: int = 0;
    let mut from: usize = 0;
    proof {
        assert(all.skip(0) =~= all);
        assert(before + mask_roots(block, all.take(0)) =~= before);
    }
    while from < 512
        invariant
            from <= 512,
            0 <= done <= all.len(),
            all.skip(done) == members(offsets@, from as int),
            forall|i: int|
                0 <= i < done ==> coordinate_error(
                    block,
                    (#[trigger] all[i] + 1) as u16,
                    layout,
                ) is None,
            emit.received() == before + mask_roots(block, all.take(done)),
            emit.accepting() == old(emit).accepting(),
        decreases 512 - from,
    {
        match mask_next(offsets.as_slice(), from) {
            None => {
                assert(all.skip(done).len() == 0);
                from = 512;
                assert(members(offsets@, 512) =~= Seq::<int>::empty());
                assert(all.skip(done) =~= Seq::<int>::empty());
            },
            Some(bit) => {
                proof {
                    assert(all.skip(done)[0] == all[done]);
                    assert(all[done] == bit);
                    assert(all.skip(done).drop_first() =~= all.skip(done + 1));
                    assert(members(offsets@, from as int).drop_first() =~= members(
                        offsets@,
                        bit + 1,
                    ));
                    assert(mask_roots(block, all.take(done + 1)) =~= mask_roots(
                        block,
                        all.take(done),
                    ).push(
                        Found {
                            root: RootTid::of(block, (bit + 1) as u16),
                            recheck: false,
                        },
                    ));
                }
                let root: RootTid = match RootTid::new(block, (bit + 1) as u16, layout) {
                    Ok(root) => root,
                    Err(_) => {
                        assert(!mask_fits(layout, block, all)) by {
                            assert(coordinate_error(block, (all[done] + 1) as u16, layout) is Some);
                        }
                        return Err(Error::InvalidState);
                    },
                };
                match emit.emit(Found { root, recheck: false }) {
                    Ok(_) => {},
                    Err(error) => {
                        return Err(error);
                    },
                }
                from = bit + 1;
                proof {
                    done = done + 1;
                    assert(emit.received() =~= before + mask_roots(block, all.take(done)));
                }
            },
        }
    }
    proof {
        assert(members(offsets@, 512).len() == 0);
        assert(all.skip(done).len() == 0);
        assert(all.take(done) =~= all);
    }
    Ok(())
}

/// Collects exact results.
pub struct ExactList {
    pub blocks: Vec<(u32, OffsetMask)>,
    pub found: Vec<RootTid>,
}

impl ExactSink for ExactList {
    open spec fn pages(&self) -> Seq<(u32, Seq<u64>)> {
        self.blocks@.map_values(|entry: (u32, OffsetMask)| (entry.0, entry.1@))
    }

    open spec fn roots(&self) -> Seq<RootTid> {
        self.found@
    }

    open spec fn accepting(&self) -> bool {
        true
    }

    fn work(&mut self, stats: QueryStats) -> (result: Result<()>) {
        Ok(())
    }

    fn tid(&mut self, root: RootTid) -> (result: Result<()>) {
        self.found.push(root);
        Ok(())
    }

    fn page(&mut self, layout: HeapLayout, block: u32, offsets: &OffsetMask) -> (result: Result<()>) {
        let ghost before = self.pages();
        self.blocks.push((block, *offsets));
        assert(self.pages() =~= before.push((block, offsets@)));
        Ok(())
    }
}

/// The bitmaps of a group as a source.
pub open spec fn loaded_source(live: BitmapModel, terms: Seq<Option<BitmapModel>>) -> SourceModel {
    SourceModel {
        key: live.header.key,
        live_pages: live.header.mask,
        live: |p: int, b: int| live.holds(p, b),
        term_pages: Seq::new(terms.len(), |t: int| loaded_pages(terms[t])),
        terms: Seq::new(terms.len(), |t: int| loaded_bits(terms[t])),
    }
}

/// The pages of a term; none where it does not occur.
pub open spec fn loaded_pages(term: Option<BitmapModel>) -> Seq<u64> {
    match term {
        Some(term) => term.header.mask,
        None => seq![0u64, 0u64, 0u64, 0u64],
    }
}

/// The places of a term; none where it does not occur.
pub open spec fn loaded_bits(term: Option<BitmapModel>) -> spec_fn(int, int) -> bool {
    |p: int, b: int| term matches Some(term) && term.holds(p, b)
}

struct Loaded<'b> {
    live: Bitmap<'b>,
    terms: Vec<Option<Bitmap<'b>>>,
}

/// The models of optional bitmaps.
spec fn loaded_models(terms: Seq<Option<Bitmap<'_>>>) -> Seq<Option<BitmapModel>> {
    terms.map_values(
        |term: Option<Bitmap<'_>>|
            match term {
                Some(term) => Some(term@),
                None => None,
            },
    )
}

/// The errors of reading the bitmaps of a group: a broken payload is damage.
pub open spec fn loaded_faults(live: BitmapModel, terms: Seq<Option<BitmapModel>>) -> spec_fn(
    Error,
) -> bool {
    |error: Error|
        error == Error::InvalidState && (payload_broken(live) || exists|t: int|
            0 <= t < terms.len() && (#[trigger] terms[t] matches Some(term) && payload_broken(
                term,
            )))
}

impl<'b> Source for Loaded<'b> {
    closed spec fn faults(&self) -> spec_fn(Error) -> bool {
        loaded_faults(self.live@, loaded_models(self.terms@))
    }

    closed spec fn model(&self) -> SourceModel {
        loaded_source(self.live@, loaded_models(self.terms@))
    }

    fn key(&self) -> (key: GroupKey) {
        self.live.key()
    }

    fn terms(&self) -> (terms: usize) {
        let pages: &PageMask = self.live.pages();
        let ghost model = self.model();
        let ghost all = loaded_models(self.terms@);
        let mut t: usize = 0;
        while t < self.terms.len()
            invariant
                t <= self.terms@.len(),
                all == loaded_models(self.terms@),
                forall|i: int|
                    0 <= i < t ==> (#[trigger] all[i] matches Some(term) ==> term.wf()),
            decreases self.terms@.len() - t,
        {
            if let Some(term) = &self.terms[t] {
                let mask: &PageMask = term.pages();
                assert(all[t as int] == Some(term@));
            }
            t += 1;
        }
        proof {
            bitmap_covers(self.live@);
            assert forall|t: int| 0 <= t < model.terms.len() implies (
            #[trigger] model.term_pages[t]).len() == 4 by {
                assert(all[t] matches Some(term) ==> term.wf());
            }
            assert forall|t: int, p: int, b: int|
                #![trigger (model.terms[t])(p, b)]
                0 <= t < model.terms.len() && (model.terms[t])(p, b) implies member(
                model.term_pages[t],
                p,
            ) by {
                let term = all[t]->Some_0;
                assert(all[t] matches Some(term) ==> term.wf());
                bitmap_covers(term);
                assert(term.holds(p, b));
            }
            assert forall|p: int, b: int|
                #![trigger (model.live)(p, b)]
                (model.live)(p, b) implies member(model.live_pages, p) && 0 <= b < 512 by {
                assert(self.live@.holds(p, b));
            }
        }
        self.terms.len()
    }

    fn live_pages(&self) -> (mask: PageMask) {
        *self.live.pages()
    }

    fn term_pages(&self, term: usize) -> (mask: PageMask) {
        let ghost all = loaded_models(self.terms@);
        match &self.terms[term] {
            Some(bitmap) => {
                assert(all[term as int] == Some(bitmap@));
                *bitmap.pages()
            },
            None => {
                assert(all[term as int] is None);
                let mask: PageMask = [0u64; 4];
                assert(mask@ =~= seq![0u64, 0u64, 0u64, 0u64]);
                mask
            },
        }
    }

    fn live_offsets(&mut self, page: u8) -> (result: Result<OffsetMask>) {
        let mask: OffsetMask = self.live.offsets(page)?;
        proof {
            same_bits_mask(self.live@, page as int, mask@);
        }
        Ok(mask)
    }

    fn term_offsets(&mut self, term: usize, page: u8) -> (result: Result<(OffsetMask, usize)>) {
        let ghost all = loaded_models(self.terms@);
        match &self.terms[term] {
            Some(bitmap) => {
                assert(all[term as int] == Some(bitmap@));
                let mask: OffsetMask = bitmap.offsets(page)?;
                let size: usize = bitmap.payload_bytes(page);
                proof {
                    assert(all[term as int] == Some(bitmap@));
                    same_bits_mask(bitmap@, page as int, mask@);
                    assert forall|b: int|
                        #![trigger member(mask@, b)]
                        0 <= b < 512 implies member(mask@, b) == (self.model().terms[term as int])(
                        page as int,
                        b,
                    ) by {}
                }
                Ok((mask, size))
            },
            None => {
                proof {
                    assert(all[term as int] is None);
                    let none = loaded_pages(None);
                    crate::mask::empty_mask(none);
                }
                Err(Error::InvalidState)
            },
        }
    }

    fn interrupt(&mut self) -> (result: Result<()>) {
        Ok(())
    }
}

/// The entry of a catalog at exactly a key.
pub open spec fn entry_at(model: StoreModel, snapshot: GroupSnapshot, key: Seq<u64>) -> Result<
    Option<EntryModel>,
> {
    match first_entry(model, snapshot, key) {
        Err(error) => Err(error),
        Ok(Some(entry)) => if entry.key == key {
            Ok(Some(entry))
        } else {
            Ok(None)
        },
        Ok(None) => Ok(None),
    }
}

/// The first entry of a catalog at or behind a key.
#[verifier::opaque]
pub open spec fn first_entry(model: StoreModel, snapshot: GroupSnapshot, key: Seq<u64>) -> Result<
    Option<EntryModel>,
> {
    match (CursorModel { leaf: None, slot: 0, parents: Seq::empty() }).sought(
        model,
        snapshot,
        key,
    ) {
        Err(error) => Err(error),
        Ok(met) => Ok(met.entry),
    }
}

/// An optional entry as its model.
pub open spec fn entry_model(result: Result<Option<CatalogEntry>>) -> Result<Option<EntryModel>> {
    match result {
        Ok(Some(entry)) => Ok(Some(entry@)),
        Ok(None) => Ok(None),
        Err(error) => Err(error),
    }
}

fn find_first<S: PageStore>(store: &mut S, snapshot: &GroupSnapshot, key: [u64; 2]) -> (result: Result<
    Option<CatalogEntry>,
>)
    ensures
        answers(
            old(store).host(),
            final(store).host(),
            entry_model(result),
            first_entry(old(store).host().model, *snapshot, key@),
        ),
{
    proof {
        reveal(first_entry);
    }
    let mut cursor: Cursor = Cursor::new();
    cursor.seek(store, snapshot, key)
}

fn find_entry<S: PageStore>(store: &mut S, snapshot: &GroupSnapshot, key: [u64; 2]) -> (result: Result<
    Option<CatalogEntry>,
>)
    ensures
        answers(
            old(store).host(),
            final(store).host(),
            entry_model(result),
            entry_at(old(store).host().model, *snapshot, key@),
        ),
{
    let found: Option<CatalogEntry> = find_first(store, snapshot, key)?;
    if let Some(entry) = found {
        if entry.key[0] == key[0] && entry.key[1] == key[1] {
            assert(entry.key@ =~= key@);
            return Ok(Some(entry));
        }
    }
    Ok(None)
}

/// Whether what an entry leads to is damaged so.
#[verifier::opaque]
pub open spec fn entry_fails(
    model: StoreModel,
    snapshot: GroupSnapshot,
    entry: EntryModel,
    error: Error,
) -> bool {
    match value_at(entry) {
        Err(fault) => fault == error,
        Ok(_) => match bitmap_read(model, snapshot, entry) {
            Err(fault) => fault == error,
            Ok((_, bytes)) => match bitmap_at(bytes) {
                Err(fault) => fault == error,
                Ok(header) => error == Error::InvalidState && payload_broken(
                    BitmapModel { header, bytes },
                ),
            },
        },
    }
}

/// Whether looking for a key in a catalog meets damage: the search fails, the
/// entry that it finds is out of order or misplaced, or what that entry leads
/// to is damaged.
#[verifier::opaque]
pub open spec fn key_fails(
    model: StoreModel,
    snapshot: GroupSnapshot,
    key: Seq<u64>,
    error: Error,
) -> bool {
    match first_entry(model, snapshot, key) {
        Err(fault) => fault == error,
        Ok(None) => false,
        Ok(Some(entry)) => {
            ||| entry_fails(model, snapshot, entry, error)
            ||| error == Error::InvalidState && entry.key[0] == key[0] && (entry.key[1] < key[1]
                || entry.key[1] > u32::MAX || (entry.key[0] == 0 && entry.key[1] % 256 != 0))
        },
    }
}

/// Whether some part of a snapshot's catalog is damaged so.
pub open spec fn snapshot_fails(model: StoreModel, snapshot: GroupSnapshot, error: Error) -> bool {
    exists|key: Seq<u64>| #[trigger] key_fails(model, snapshot, key, error)
}

/// Whether a bitmap is the one behind an entry.
#[verifier::opaque]
pub open spec fn bitmap_behind(
    model: StoreModel,
    snapshot: GroupSnapshot,
    entry: EntryModel,
    bitmap: BitmapModel,
) -> bool {
    &&& bitmap_read(model, snapshot, entry) matches Ok((_, bytes)) && bytes == bitmap.bytes
    &&& bitmap_at(bitmap.bytes) == Ok::<crate::grouped::HeaderModel, Error>(bitmap.header)
}

/// Whether a term's bitmap in a group was loaded; a term without a key or an
/// entry has none.
pub open spec fn term_loaded(
    model: StoreModel,
    snapshot: GroupSnapshot,
    key: Option<u64>,
    base: u32,
    bitmap: Option<BitmapModel>,
) -> bool {
    match key {
        None => bitmap is None,
        Some(key) => match entry_at(model, snapshot, seq![key, base as u64]) {
            Err(_) => false,
            Ok(None) => bitmap is None,
            Ok(Some(entry)) => bitmap matches Some(bitmap) && bitmap_behind(
                model,
                snapshot,
                entry,
                bitmap,
            ),
        },
    }
}

/// The page summary of a term in a group.
pub open spec fn term_summary(
    model: StoreModel,
    snapshot: GroupSnapshot,
    key: Option<u64>,
    base: u32,
) -> Seq<u64> {
    match key {
        None => seq![0u64, 0u64, 0u64, 0u64],
        Some(key) => match entry_at(model, snapshot, seq![key, base as u64]) {
            Ok(Some(entry)) => value_at(entry)->Ok_0.pages,
            _ => seq![0u64, 0u64, 0u64, 0u64],
        },
    }
}

/// What a group reports: its matches by its bitmaps, or nothing where the page
/// summaries rule out all pages.
#[verifier::opaque]
pub open spec fn group_reported(
    model: StoreModel,
    snapshot: GroupSnapshot,
    nodes: Seq<Node>,
    keys: Seq<Option<u64>>,
    base: u32,
    entry: EntryModel,
    report: Seq<(u32, Seq<u64>)>,
) -> bool {
    ||| exists|live: BitmapModel, terms: Seq<Option<BitmapModel>>| #[trigger]
        group_loaded(model, snapshot, keys, base, entry, live, terms) && report == expected_from(
            nodes,
            loaded_source(live, terms),
            0,
        )
    ||| report.len() == 0 && node_pages(
        nodes,
        value_at(entry)->Ok_0.pages,
        Seq::new(keys.len(), |t: int| term_summary(model, snapshot, keys[t], base)),
        nodes.len() - 1,
    ) == seq![0u64, 0u64, 0u64, 0u64]
}

/// Whether the bitmaps of a group were loaded.
pub open spec fn group_loaded(
    model: StoreModel,
    snapshot: GroupSnapshot,
    keys: Seq<Option<u64>>,
    base: u32,
    entry: EntryModel,
    live: BitmapModel,
    terms: Seq<Option<BitmapModel>>,
) -> bool {
    &&& bitmap_behind(model, snapshot, entry, live)
    &&& terms.len() == keys.len()
    &&& forall|t: int|
        0 <= t < keys.len() ==> term_loaded(model, snapshot, keys[t], base, #[trigger] terms[t])
}

/// Damage of a search, and of what it finds, is damage of the snapshot.
proof fn key_told(model: StoreModel, snapshot: GroupSnapshot, key: Seq<u64>)
    ensures
        first_entry(model, snapshot, key) matches Err(error) ==> snapshot_fails(
            model,
            snapshot,
            error,
        ),
        entry_at(model, snapshot, key) matches Err(error) ==> snapshot_fails(
            model,
            snapshot,
            error,
        ),
        first_entry(model, snapshot, key) matches Ok(Some(entry)) ==> forall|error: Error| #[trigger]
            entry_fails(model, snapshot, entry, error) ==> snapshot_fails(model, snapshot, error),
        entry_at(model, snapshot, key) matches Ok(Some(entry)) ==> forall|error: Error| #[trigger]
            entry_fails(model, snapshot, entry, error) ==> snapshot_fails(model, snapshot, error),
        first_entry(model, snapshot, key) matches Ok(Some(entry)) ==> entry.key[0] == key[0] && (
        entry.key[1] < key[1] || entry.key[1] > u32::MAX || (entry.key[0] == 0 && entry.key[1] % 256
            != 0)) ==> snapshot_fails(model, snapshot, Error::InvalidState),
{
    reveal(key_fails);
    if let Err(error) = first_entry(model, snapshot, key) {
        assert(key_fails(model, snapshot, key, error));
    }
    if let Ok(Some(entry)) = first_entry(model, snapshot, key) {
        assert forall|error: Error| #[trigger]
            entry_fails(model, snapshot, entry, error) implies snapshot_fails(
            model,
            snapshot,
            error,
        ) by {
            assert(key_fails(model, snapshot, key, error));
        }
        if entry.key[0] == key[0] && (entry.key[1] < key[1] || entry.key[1] > u32::MAX || (
        entry.key[0] == 0 && entry.key[1] % 256 != 0)) {
            assert(key_fails(model, snapshot, key, Error::InvalidState));
        }
    }
}

/// Finds the entries of the terms in a group, and their summaries.
#[verifier::loop_isolation(false)]
fn find_terms<S: PageStore>(
    store: &mut S,
    snapshot: &GroupSnapshot,
    keys: &Vec<Option<u64>>,
    base: u32,
) -> (result: Result<(Vec<Option<CatalogEntry>>, Vec<PageMask>)>)
    ensures
        final(store).host() == old(store).host(),
        result matches Err(error) ==> !old(store).host().reliable || snapshot_fails(
            old(store).host().model,
            *snapshot,
            error,
        ),
        result matches Ok((entries, masks)) ==> {
            &&& entries@.len() == keys@.len()
            &&& term_masks(masks@) == Seq::new(
                keys@.len(),
                |t: int| term_summary(old(store).host().model, *snapshot, keys@[t], base),
            )
            &&& forall|t: int|
                0 <= t < keys@.len() ==> entry_found(
                    old(store).host().model,
                    *snapshot,
                    keys@[t],
                    base,
                    #[trigger] entries@[t],
                )
        },
{
    let ghost model = store.host().model;
    let ghost goal = Seq::new(
        keys@.len(),
        |t: int| term_summary(model, *snapshot, keys@[t], base),
    );
    let mut entries: Vec<Option<CatalogEntry>> = Vec::new();
    let mut masks: Vec<PageMask> = Vec::new();
    let mut index: usize = 0;
    while index < keys.len()
        invariant
            index <= keys@.len(),
            entries@.len() == index,
            masks@.len() == index,
            store.host() == old(store).host(),
            forall|t: int| 0 <= t < index ==> (#[trigger] masks@[t])@ == goal[t],
            forall|t: int|
                0 <= t < index ==> entry_found(
                    model,
                    *snapshot,
                    keys@[t],
                    base,
                    #[trigger] entries@[t],
                ),
        decreases keys@.len() - index,
    {
        let mut mask: PageMask = [0u64; 4];
        assert(mask@ =~= seq![0u64, 0u64, 0u64, 0u64]);
        let entry: Option<CatalogEntry> = match keys[index] {
            None => None,
            Some(key) => {
                let wanted: [u64; 2] = [key, base as u64];
                assert(wanted@ =~= seq![key, base as u64]);
                proof {
                    key_told(model, *snapshot, wanted@);
                }
                find_entry(store, snapshot, wanted)?
            },
        };
        if let Some(entry) = entry {
            proof {
                read_told(model, *snapshot, entry@);
            }
            let value: Value = Value::read(&entry)?;
            mask = value.pages;
        }
        entries.push(entry);
        masks.push(mask);
        index += 1;
    }
    assert(term_masks(masks@) =~= goal);
    Ok((entries, masks))
}

/// Whether an entry is that of a term in a group.
spec fn entry_found(
    model: StoreModel,
    snapshot: GroupSnapshot,
    key: Option<u64>,
    base: u32,
    entry: Option<CatalogEntry>,
) -> bool {
    match key {
        None => entry is None,
        Some(key) => entry_model(Ok(entry)) == entry_at(model, snapshot, seq![key, base as u64]),
    }
}

/// A bitmap that cannot be read is damage of its entry; one that can be read is
/// the one behind it.
proof fn read_told(model: StoreModel, snapshot: GroupSnapshot, entry: EntryModel)
    ensures
        bitmap_read(model, snapshot, entry) matches Err(error) ==> entry_fails(
            model,
            snapshot,
            entry,
            error,
        ),
        value_at(entry) matches Err(error) ==> entry_fails(model, snapshot, entry, error),
        bitmap_read(model, snapshot, entry) matches Ok((_, bytes)) ==> match bitmap_at(bytes) {
            Err(error) => entry_fails(model, snapshot, entry, error),
            Ok(header) => bitmap_behind(model, snapshot, entry, BitmapModel { header, bytes }),
        },
{
    reveal(entry_fails);
    reveal(bitmap_behind);
}

/// A broken payload of a bitmap is damage of its entry.
proof fn behind_told(
    model: StoreModel,
    snapshot: GroupSnapshot,
    entry: EntryModel,
    bitmap: BitmapModel,
)
    requires
        bitmap_behind(model, snapshot, entry, bitmap),
        payload_broken(bitmap),
    ensures
        entry_fails(model, snapshot, entry, Error::InvalidState),
{
    reveal(entry_fails);
    reveal(bitmap_behind);
    if value_at(entry) is Err {
        assert(bitmap_read(model, snapshot, entry) is Err);
    }
}

/// Reads the bitmaps behind entries.
#[verifier::loop_isolation(false)]
#[verifier::rlimit(60)]
#[verifier::spinoff_prover]
fn read_terms<S: PageStore>(
    store: &mut S,
    snapshot: &GroupSnapshot,
    entries: &Vec<Option<CatalogEntry>>,
    keys: Ghost<Seq<Option<u64>>>,
    base: Ghost<u32>,
) -> (result: Result<Vec<Vec<u8>>>)
    requires
        keys@.len() == entries@.len(),
        forall|t: int|
            0 <= t < keys@.len() ==> entry_found(
                old(store).host().model,
                *snapshot,
                keys@[t],
                base@,
                #[trigger] entries@[t],
            ),
    ensures
        final(store).host() == old(store).host(),
        result matches Err(error) ==> !old(store).host().reliable || snapshot_fails(
            old(store).host().model,
            *snapshot,
            error,
        ),
        result matches Ok(buffers) ==> {
            &&& buffers@.len() == entries@.len()
            &&& forall|t: int|
                #![trigger entries@[t]]
                #![trigger buffers@[t]]
                0 <= t < entries@.len() ==> (entries@[t] matches Some(entry) ==> (bitmap_read(
                    old(store).host().model,
                    *snapshot,
                    entry@,
                ) matches Ok((_, bytes)) && bytes == buffers@[t]@))
        },
{
    let ghost model = store.host().model;
    let mut buffers: Vec<Vec<u8>> = Vec::new();
    let mut index: usize = 0;
    while index < entries.len()
        invariant
            index <= entries@.len(),
            buffers@.len() == index,
            store.host() == old(store).host(),
            forall|t: int|
                #![trigger entries@[t]]
                #![trigger buffers@[t]]
                0 <= t < index ==> (entries@[t] matches Some(entry) ==> (bitmap_read(
                    model,
                    *snapshot,
                    entry@,
                ) matches Ok((_, bytes)) && bytes == buffers@[t]@)),
        decreases entries@.len() - index,
    {
        let mut bytes: Vec<u8> = Vec::new();
        if let Some(entry) = &entries[index] {
            proof {
                assert(entry_found(model, *snapshot, keys@[index as int], base@, entries@[index as int]));
                let key = seq![keys@[index as int]->Some_0, base@ as u64];
                key_told(model, *snapshot, key);
                read_told(model, *snapshot, entry@);
            }
            let value: Value = read_bitmap(store, snapshot, entry, &mut bytes)?;
        }
        buffers.push(bytes);
        index += 1;
    }
    Ok(buffers)
}

/// Hands over the report of a group.
#[verifier::loop_isolation(false)]
fn forward<T: ExactSink>(list: &MatchList, layout: HeapLayout, sink: &mut T) -> (result: Result<()>)
    ensures
        final(sink).roots() == old(sink).roots(),
        final(sink).accepting() == old(sink).accepting(),
        old(sink).accepting() ==> result is Ok,
        result is Ok ==> final(sink).pages() == old(sink).pages() + list.received(),
{
    let ghost all = list.received();
    let mut index: usize = 0;
    assert(sink.pages() =~= sink.pages() + all.take(0));
    while index < list.blocks.len()
        invariant
            index <= list.blocks@.len(),
            sink.accepting() == old(sink).accepting(),
            sink.roots() == old(sink).roots(),
            sink.pages() == old(sink).pages() + all.take(index as int),
        decreases list.blocks@.len() - index,
    {
        let (block, offsets): (u32, OffsetMask) = list.blocks[index];
        sink.page(layout, block, &offsets)?;
        assert(sink.pages() =~= old(sink).pages() + all.take(index + 1));
        index += 1;
    }
    assert(all.take(index as int) =~= all);
    Ok(())
}

/// Opens the bitmaps behind entries.
#[verifier::loop_isolation(false)]
fn open_terms<'b>(
    snapshot: &GroupSnapshot,
    entries: &Vec<Option<CatalogEntry>>,
    buffers: &'b Vec<Vec<u8>>,
    model: Ghost<StoreModel>,
    keys: Ghost<Seq<Option<u64>>>,
    base: Ghost<u32>,
) -> (result: Result<Vec<Option<Bitmap<'b>>>>)
    requires
        keys@.len() == entries@.len(),
        buffers@.len() == entries@.len(),
        forall|t: int|
            0 <= t < keys@.len() ==> entry_found(
                model@,
                *snapshot,
                keys@[t],
                base@,
                #[trigger] entries@[t],
            ),
        forall|t: int|
            #![trigger entries@[t]]
            #![trigger buffers@[t]]
            0 <= t < entries@.len() ==> (entries@[t] matches Some(entry) ==> (bitmap_read(
                model@,
                *snapshot,
                entry@,
            ) matches Ok((_, bytes)) && bytes == buffers@[t]@)),
    ensures
        match result {
            Ok(terms) => terms@.len() == keys@.len() && (forall|t: int|
                0 <= t < keys@.len() ==> term_loaded(
                    model@,
                    *snapshot,
                    keys@[t],
                    base@,
                    #[trigger] loaded_models(terms@)[t],
                )),
            Err(error) => snapshot_fails(model@, *snapshot, error),
        },
{
    let mut terms: Vec<Option<Bitmap<'b>>> = Vec::new();
    let mut index: usize = 0;
    while index < entries.len()
        invariant
            index <= entries@.len(),
            terms@.len() == index,
            forall|t: int|
                0 <= t < index ==> term_loaded(
                    model@,
                    *snapshot,
                    keys@[t],
                    base@,
                    #[trigger] loaded_models(terms@)[t],
                ),
        decreases entries@.len() - index,
    {
        let ghost before = terms@;
        assert(entry_found(model@, *snapshot, keys@[index as int], base@, entries@[index as int]));
        let term: Option<Bitmap<'b>> = match &entries[index] {
            None => None,
            Some(found) => {
                proof {
                    key_told(
                        model@,
                        *snapshot,
                        seq![keys@[index as int]->Some_0, base@ as u64],
                    );
                    read_told(model@, *snapshot, found@);
                }
                Some(Bitmap::open(buffers[index].as_slice())?)
            },
        };
        terms.push(term);
        assert forall|t: int| 0 <= t < index + 1 implies term_loaded(
            model@,
            *snapshot,
            keys@[t],
            base@,
            #[trigger] loaded_models(terms@)[t],
        ) by {
            if t < index {
                assert(loaded_models(terms@)[t] == loaded_models(before)[t]);
            }
        }
        index += 1;
    }
    Ok(terms)
}

/// A broken payload of a group is damage of the snapshot.
proof fn faults_told(
    model: StoreModel,
    snapshot: GroupSnapshot,
    keys: Seq<Option<u64>>,
    base: u32,
    entry: EntryModel,
    live: BitmapModel,
    terms: Seq<Option<BitmapModel>>,
)
    requires
        group_loaded(model, snapshot, keys, base, entry, live, terms),
        forall|error: Error| #[trigger]
            entry_fails(model, snapshot, entry, error) ==> snapshot_fails(model, snapshot, error),
    ensures
        forall|error: Error|
            (#[trigger] loaded_faults(live, terms)(error)) ==> snapshot_fails(
                model,
                snapshot,
                error,
            ),
{
    assert forall|error: Error| (#[trigger] loaded_faults(live, terms)(error)) implies snapshot_fails(
        model,
        snapshot,
        error,
    ) by {
        if payload_broken(live) {
            behind_told(model, snapshot, entry, live);
        } else {
            let t = choose|t: int|
                0 <= t < terms.len() && (#[trigger] terms[t] matches Some(term) && payload_broken(
                    term,
                ));
            assert(term_loaded(model, snapshot, keys[t], base, terms[t]));
            let key = seq![keys[t]->Some_0, base as u64];
            let found = entry_at(model, snapshot, key)->Ok_0->Some_0;
            key_told(model, snapshot, key);
            behind_told(model, snapshot, found, terms[t]->Some_0);
        }
    }
}

/// Evaluates a program on the bitmaps of one group.
fn evaluate_group<T: ExactSink>(
    snapshot: &GroupSnapshot,
    nodes: &Vec<Node>,
    entries: &Vec<Option<CatalogEntry>>,
    live_bytes: &[u8],
    buffers: &Vec<Vec<u8>>,
    layout: HeapLayout,
    scratch: &mut QueryScratch,
    sink: &mut T,
    model: Ghost<StoreModel>,
    keys: Ghost<Seq<Option<u64>>>,
    base: Ghost<u32>,
    entry: Ghost<EntryModel>,
) -> (result: Result<(u32, Ghost<Seq<(u32, Seq<u64>)>>)>)
    requires
        old(scratch).wf(),
        program_valid(nodes@, keys@.len() as int),
        keys@.len() == entries@.len(),
        buffers@.len() == entries@.len(),
        forall|error: Error| #[trigger]
            entry_fails(model@, *snapshot, entry@, error) ==> snapshot_fails(
                model@,
                *snapshot,
                error,
            ),
        bitmap_read(model@, *snapshot, entry@) matches Ok((_, bytes)) && bytes == live_bytes@,
        forall|t: int|
            0 <= t < keys@.len() ==> entry_found(
                model@,
                *snapshot,
                keys@[t],
                base@,
                #[trigger] entries@[t],
            ),
        forall|t: int|
            #![trigger entries@[t]]
            #![trigger buffers@[t]]
            0 <= t < entries@.len() ==> (entries@[t] matches Some(entry) ==> (bitmap_read(
                model@,
                *snapshot,
                entry@,
            ) matches Ok((_, bytes)) && bytes == buffers@[t]@)),
    ensures
        final(scratch).wf(),
        final(sink).roots() == old(sink).roots(),
        final(sink).accepting() == old(sink).accepting(),
        result matches Err(error) ==> !old(sink).accepting() || snapshot_fails(
            model@,
            *snapshot,
            error,
        ),
        result matches Ok((count, report)) ==> {
            &&& count == reported(report@)
            &&& final(sink).pages() == old(sink).pages() + report@
            &&& group_reported(model@, *snapshot, nodes@, keys@, base@, entry@, report@)
        },
{
    proof {
        read_told(model@, *snapshot, entry@);
    }
    let live: Bitmap<'_> = Bitmap::open(live_bytes)?;
    let terms: Vec<Option<Bitmap<'_>>> = open_terms(
        snapshot,
        entries,
        buffers,
        model,
        keys,
        base,
    )?;
    let mut source: Loaded<'_> = Loaded { live, terms };
    let ghost models = loaded_models(source.terms@);
    let mut list: MatchList = MatchList { blocks: Vec::new() };
    assert(list.received() =~= Seq::empty());
    assert(group_loaded(model@, *snapshot, keys@, base@, entry@, live@, models));
    proof {
        faults_told(model@, *snapshot, keys@, base@, entry@, live@, models);
    }
    let stats: QueryStats = evaluate_source(&mut source, nodes.as_slice(), scratch, &mut list)?;
    sink.work(stats)?;
    forward(&list, layout, sink)?;
    let ghost report = list.received();
    proof {
        reveal(group_reported);
        let expected = expected_from(nodes@, loaded_source(live@, models), 0);
        assert(report =~= expected);
        assert(group_loaded(model@, *snapshot, keys@, base@, entry@, live@, models));
    }
    Ok((stats.emitted_tids, Ghost(report)))
}

/// Whether the page summaries of a group rule out all its pages.
fn pruned(
    snapshot: &GroupSnapshot,
    nodes: &Vec<Node>,
    value: &Value,
    masks: &Vec<PageMask>,
    scratch: &mut QueryScratch,
    model: Ghost<StoreModel>,
    keys: Ghost<Seq<Option<u64>>>,
    base: Ghost<u32>,
    entry: Ghost<EntryModel>,
) -> (empty: bool)
    requires
        old(scratch).wf(),
        program_valid(nodes@, keys@.len() as int),
        masks@.len() == keys@.len(),
        value_at(entry@) matches Ok(read) && read.pages == value.pages@,
        term_masks(masks@) == Seq::new(
            keys@.len(),
            |t: int| term_summary(model@, *snapshot, keys@[t], base@),
        ),
    ensures
        final(scratch).wf(),
        empty ==> group_reported(
            model@,
            *snapshot,
            nodes@,
            keys@,
            base@,
            entry@,
            Seq::empty(),
        ),
{
    match needed_terms(nodes.as_slice(), value.pages, masks.as_slice(), scratch) {
        Err(_) => {
            assert(false);
            false
        },
        Ok((pages, _)) => {
            if pages[0] == 0 && pages[1] == 0 && pages[2] == 0 && pages[3] == 0 {
                assert(pages@ =~= seq![0u64, 0u64, 0u64, 0u64]);
                reveal(group_reported);
                return true;
            }
            false
        },
    }
}

/// Evaluates a program on one group.
#[verifier::rlimit(60)]
#[verifier::spinoff_prover]
fn scan_group<S: PageStore, T: ExactSink>(
    store: &mut S,
    snapshot: &GroupSnapshot,
    nodes: &Vec<Node>,
    keys: &Vec<Option<u64>>,
    base: u32,
    entry: &CatalogEntry,
    scratch: &mut QueryScratch,
    sink: &mut T,
) -> (result: Result<(u32, Ghost<Seq<(u32, Seq<u64>)>>)>)
    requires
        old(scratch).wf(),
        program_valid(nodes@, keys@.len() as int),
        forall|error: Error| #[trigger]
            entry_fails(old(store).host().model, *snapshot, entry@, error) ==> snapshot_fails(
                old(store).host().model,
                *snapshot,
                error,
            ),
    ensures
        final(scratch).wf(),
        final(store).host() == old(store).host(),
        final(sink).roots() == old(sink).roots(),
        final(sink).accepting() == old(sink).accepting(),
        result matches Err(error) ==> !(old(store).host().reliable && old(sink).accepting())
            || snapshot_fails(old(store).host().model, *snapshot, error),
        result matches Ok((count, report)) ==> {
            &&& count == reported(report@)
            &&& final(sink).pages() == old(sink).pages() + report@
            &&& group_reported(
                old(store).host().model,
                *snapshot,
                nodes@,
                keys@,
                base,
                entry@,
                report@,
            )
        },
{
    let ghost model = store.host().model;
    proof {
        read_told(model, *snapshot, entry@);
    }
    let value: Value = Value::read(entry)?;
    let (entries, masks): (Vec<Option<CatalogEntry>>, Vec<PageMask>) = find_terms(
        store,
        snapshot,
        keys,
        base,
    )?;
    assert(masks@.len() == keys@.len()) by {
        assert(term_masks(masks@).len() == masks@.len());
    }
    if pruned(snapshot, nodes, &value, &masks, scratch, Ghost(model), Ghost(keys@), Ghost(base), Ghost(entry@)) {
        assert(sink.pages() =~= sink.pages() + Seq::<(u32, Seq<u64>)>::empty());
        return Ok((0, Ghost(Seq::empty())));
    }
    let mut live_bytes: Vec<u8> = Vec::new();
    let live_value: Value = read_bitmap(store, snapshot, entry, &mut live_bytes)?;
    let buffers: Vec<Vec<u8>> = read_terms(
        store,
        snapshot,
        &entries,
        Ghost(keys@),
        Ghost(base),
    )?;
    let layout: HeapLayout = store.layout();
    evaluate_group(
        snapshot,
        nodes,
        &entries,
        live_bytes.as_slice(),
        &buffers,
        layout,
        scratch,
        sink,
        Ghost(model),
        Ghost(keys@),
        Ghost(base),
        Ghost(entry@),
    )
}

/// The first base from one on at which a catalog has an entry of a term.
pub open spec fn term_bound(
    model: StoreModel,
    snapshot: GroupSnapshot,
    key: Option<u64>,
    from: u32,
) -> Option<u32> {
    match key {
        None => None,
        Some(key) => match first_entry(model, snapshot, seq![key, from as u64]) {
            Ok(Some(entry)) => if entry.key[0] == key && entry.key[1] <= u32::MAX {
                Some(entry.key[1] as u32)
            } else {
                None
            },
            _ => None,
        },
    }
}

/// A base before which no group from one on can satisfy a node. A conjunction
/// takes the larger bound, a disjunction the smaller one; a negation cannot skip.
pub open spec fn group_bound(
    model: StoreModel,
    snapshot: GroupSnapshot,
    nodes: Seq<Node>,
    keys: Seq<Option<u64>>,
    from: u32,
    index: int,
) -> Option<u32>
    decreases index,
{
    match nodes[index] {
        Node::Term(term) => term_bound(model, snapshot, keys[term as int], from),
        Node::All => Some(from),
        Node::Not(_) => Some(from),
        Node::Difference(left, _) => if left < index {
            group_bound(model, snapshot, nodes, keys, from, left as int)
        } else {
            None
        },
        Node::And(left, right) => if left < index && right < index {
            later_bound(
                group_bound(model, snapshot, nodes, keys, from, left as int),
                group_bound(model, snapshot, nodes, keys, from, right as int),
            )
        } else {
            None
        },
        Node::Or(left, right) => if left < index && right < index {
            earlier_bound(
                group_bound(model, snapshot, nodes, keys, from, left as int),
                group_bound(model, snapshot, nodes, keys, from, right as int),
            )
        } else {
            None
        },
    }
}

/// The larger one of two bounds; none where one has none.
pub open spec fn later_bound(left: Option<u32>, right: Option<u32>) -> Option<u32> {
    match (left, right) {
        (Some(left), Some(right)) => Some(
            if left < right {
                right
            } else {
                left
            },
        ),
        _ => None,
    }
}

/// The smaller one of the bounds that there are.
pub open spec fn earlier_bound(left: Option<u32>, right: Option<u32>) -> Option<u32> {
    match (left, right) {
        (Some(left), Some(right)) => Some(
            if left < right {
                left
            } else {
                right
            },
        ),
        (Some(left), None) => Some(left),
        (None, right) => right,
    }
}

/// Whether a catalog is in order: looking for a key finds an entry of its term no
/// later than any that there is.
pub open spec fn catalog_sorted(model: StoreModel, snapshot: GroupSnapshot) -> bool {
    forall|key: u64, from: u64, at: u64|
        from <= at && #[trigger] has_entry(model, snapshot, key, at) ==> #[trigger] finds_entry(
            model,
            snapshot,
            key,
            from,
            at,
        )
}

/// Whether a catalog has an entry of a term at a base.
pub open spec fn has_entry(model: StoreModel, snapshot: GroupSnapshot, key: u64, at: u64) -> bool {
    entry_at(model, snapshot, seq![key, at]) matches Ok(Some(_))
}

/// Whether looking from a base on finds an entry of a term up to another base.
pub open spec fn finds_entry(
    model: StoreModel,
    snapshot: GroupSnapshot,
    key: u64,
    from: u64,
    at: u64,
) -> bool {
    first_entry(model, snapshot, seq![key, from]) matches Ok(Some(entry)) && entry.key[0] == key
        && from <= entry.key[1] <= at
}

/// No group before the bound has a match.
pub proof fn skipping_loses_nothing(
    model: StoreModel,
    snapshot: GroupSnapshot,
    nodes: Seq<Node>,
    keys: Seq<Option<u64>>,
    from: u32,
    base: u32,
    entry: EntryModel,
    live: BitmapModel,
    terms: Seq<Option<BitmapModel>>,
    index: int,
    page: int,
    b: int,
)
    requires
        catalog_sorted(model, snapshot),
        program_valid(nodes, keys.len() as int),
        group_loaded(model, snapshot, keys, base, entry, live, terms),
        0 <= index < nodes.len(),
        from <= base,
        crate::grouped::query::holds(nodes, loaded_source(live, terms), index, page, b),
    ensures
        group_bound(model, snapshot, nodes, keys, from, index) matches Some(bound) && bound <= base,
    decreases index,
{
    assert(node_valid(nodes[index], index, keys.len() as int));
    match nodes[index] {
        Node::Term(term) => {
            let t = term as int;
            assert(term_loaded(model, snapshot, keys[t], base, terms[t]));
            assert((loaded_source(live, terms).terms[t])(page, b));
            assert(terms[t] is Some);
            let key = keys[t]->Some_0;
            assert(has_entry(model, snapshot, key, base as u64));
            assert(finds_entry(model, snapshot, key, from as u64, base as u64));
        },
        Node::And(left, right) => {
            skipping_loses_nothing(
                model,
                snapshot,
                nodes,
                keys,
                from,
                base,
                entry,
                live,
                terms,
                left as int,
                page,
                b,
            );
            skipping_loses_nothing(
                model,
                snapshot,
                nodes,
                keys,
                from,
                base,
                entry,
                live,
                terms,
                right as int,
                page,
                b,
            );
        },
        Node::Or(left, right) => {
            let source = loaded_source(live, terms);
            let side = if crate::grouped::query::holds(nodes, source, left as int, page, b) {
                left as int
            } else {
                right as int
            };
            skipping_loses_nothing(
                model,
                snapshot,
                nodes,
                keys,
                from,
                base,
                entry,
                live,
                terms,
                side,
                page,
                b,
            );
        },
        Node::Difference(left, _) => {
            skipping_loses_nothing(
                model,
                snapshot,
                nodes,
                keys,
                from,
                base,
                entry,
                live,
                terms,
                left as int,
                page,
                b,
            );
        },
        _ => {},
    }
}

/// Finds a base before which no group can satisfy the program; nothing where
/// none from here on can.
#[verifier::loop_isolation(false)]
fn next_group<S: PageStore>(
    store: &mut S,
    snapshot: &GroupSnapshot,
    nodes: &Vec<Node>,
    keys: &Vec<Option<u64>>,
    from: u32,
) -> (result: Result<Option<u32>>)
    requires
        program_valid(nodes@, keys@.len() as int),
    ensures
        final(store).host() == old(store).host(),
        result matches Err(error) ==> !old(store).host().reliable || snapshot_fails(
            old(store).host().model,
            *snapshot,
            error,
        ),
        result matches Ok(Some(bound)) ==> bound >= from || snapshot_fails(
            old(store).host().model,
            *snapshot,
            Error::InvalidState,
        ),
        result matches Ok(bound) ==> nodes@.len() > 0 && bound == group_bound(
            old(store).host().model,
            *snapshot,
            nodes@,
            keys@,
            from,
            nodes@.len() - 1,
        ),
{
    let ghost model = store.host().model;
    let mut bounds: Vec<Option<u32>> = Vec::new();
    let mut index: usize = 0;
    while index < nodes.len()
        invariant
            index <= nodes@.len(),
            bounds@.len() == index,
            store.host() == old(store).host(),
            forall|i: int|
                0 <= i < index ==> #[trigger] bounds@[i] == group_bound(
                    model,
                    *snapshot,
                    nodes@,
                    keys@,
                    from,
                    i,
                ),
            forall|i: int|
                0 <= i < index ==> (#[trigger] bounds@[i] matches Some(bound) ==> bound >= from
                    || snapshot_fails(model, *snapshot, Error::InvalidState)),
        decreases nodes@.len() - index,
    {
        assert(node_valid(nodes@[index as int], index as int, keys@.len() as int));
        let bound: Option<u32> = match nodes[index] {
            Node::Term(term) => {
                if term >= keys.len() {
                    return Err(Error::InvalidState);
                }
                match keys[term] {
                    None => None,
                    Some(key) => {
                        let wanted: [u64; 2] = [key, from as u64];
                        assert(wanted@ =~= seq![key, from as u64]);
                        proof {
                            key_told(model, *snapshot, wanted@);
                        }
                        match find_first(store, snapshot, wanted)? {
                            Some(entry) => if entry.key[0] == key {
                                if entry.key[1] > u32::MAX as u64 {
                                    return Err(Error::InvalidState);
                                }
                                Some(entry.key[1] as u32)
                            } else {
                                None
                            },
                            None => None,
                        }
                    },
                }
            },
            Node::All => Some(from),
            Node::Not(_) => Some(from),
            Node::Difference(left, _) => {
                if left >= index {
                    return Err(Error::InvalidState);
                }
                bounds[left]
            },
            Node::And(left, right) => {
                if left >= index || right >= index {
                    return Err(Error::InvalidState);
                }
                match (bounds[left], bounds[right]) {
                    (Some(one), Some(two)) => Some(
                        if one < two {
                            two
                        } else {
                            one
                        },
                    ),
                    _ => None,
                }
            },
            Node::Or(left, right) => {
                if left >= index || right >= index {
                    return Err(Error::InvalidState);
                }
                match (bounds[left], bounds[right]) {
                    (Some(one), Some(two)) => Some(
                        if one < two {
                            one
                        } else {
                            two
                        },
                    ),
                    (Some(one), None) => Some(one),
                    (None, other) => other,
                }
            },
        };
        bounds.push(bound);
        index += 1;
    }
    if nodes.len() == 0 {
        return Err(Error::InvalidState);
    }
    Ok(bounds[nodes.len() - 1])
}

/// A group that a scan visited: where the search for it started, the bound from
/// there, its base, its liveness entry and its report.
pub struct GroupStep {
    pub start: u32,
    pub bound: u32,
    pub base: u32,
    pub entry: EntryModel,
    pub report: Seq<(u32, Seq<u64>)>,
}

/// Whether a step visited the first group from its bound on.
pub open spec fn step_made(
    model: StoreModel,
    snapshot: GroupSnapshot,
    nodes: Seq<Node>,
    keys: Seq<Option<u64>>,
    step: GroupStep,
) -> bool {
    &&& group_bound(model, snapshot, nodes, keys, step.start, nodes.len() - 1) == Some(step.bound)
    &&& first_entry(model, snapshot, seq![0u64, step.bound as u64]) == Ok::<
        Option<EntryModel>,
        Error,
    >(Some(step.entry))
    &&& step.entry.key[0] == 0
    &&& step.entry.key[1] == step.base
    &&& step.start <= step.bound <= step.base && step.base % 256 == 0
    &&& group_reported(model, snapshot, nodes, keys, step.base, step.entry, step.report)
}

/// Where the search for the next group starts; nothing behind the last one.
pub open spec fn next_start(steps: Seq<GroupStep>) -> Option<u32> {
    if steps.len() == 0 {
        Some(0)
    } else if steps.last().base + 256 > u32::MAX {
        None
    } else {
        Some((steps.last().base + 256) as u32)
    }
}

/// Whether the steps visited groups one behind the other.
pub open spec fn steps_made(
    model: StoreModel,
    snapshot: GroupSnapshot,
    nodes: Seq<Node>,
    keys: Seq<Option<u64>>,
    steps: Seq<GroupStep>,
) -> bool
    decreases steps.len(),
{
    steps.len() == 0 || {
        &&& steps_made(model, snapshot, nodes, keys, steps.drop_last())
        &&& next_start(steps.drop_last()) == Some(steps.last().start)
        &&& step_made(model, snapshot, nodes, keys, steps.last())
    }
}

/// The reports of the steps.
pub open spec fn steps_report(steps: Seq<GroupStep>) -> Seq<(u32, Seq<u64>)>
    decreases steps.len(),
{
    if steps.len() == 0 {
        Seq::empty()
    } else {
        steps_report(steps.drop_last()) + steps.last().report
    }
}

/// Whether no group that could satisfy the program follows the steps.
pub open spec fn steps_ended(
    model: StoreModel,
    snapshot: GroupSnapshot,
    nodes: Seq<Node>,
    keys: Seq<Option<u64>>,
    steps: Seq<GroupStep>,
) -> bool {
    match next_start(steps) {
        None => true,
        Some(start) => match group_bound(model, snapshot, nodes, keys, start, nodes.len() - 1) {
            None => true,
            Some(bound) => match first_entry(model, snapshot, seq![0u64, bound as u64]) {
                Ok(None) => true,
                Ok(Some(entry)) => entry.key[0] != 0,
                Err(_) => false,
            },
        },
    }
}

/// Whether a report is that of all groups of a snapshot that could satisfy the
/// program.
pub open spec fn snapshot_reported(
    model: StoreModel,
    snapshot: GroupSnapshot,
    nodes: Seq<Node>,
    keys: Seq<Option<u64>>,
    report: Seq<(u32, Seq<u64>)>,
) -> bool {
    exists|steps: Seq<GroupStep>| #[trigger]
        steps_made(model, snapshot, nodes, keys, steps) && steps_ended(
            model,
            snapshot,
            nodes,
            keys,
            steps,
        ) && report == steps_report(steps)
}

/// The number of offsets in two reports.
proof fn reported_join(left: Seq<(u32, Seq<u64>)>, right: Seq<(u32, Seq<u64>)>)
    ensures
        reported(left + right) == reported(left) + reported(right),
    decreases right.len(),
{
    if right.len() > 0 {
        reported_join(left, right.drop_last());
        assert((left + right).drop_last() =~= left + right.drop_last());
    } else {
        assert(left + right =~= left);
    }
}

/// Evaluates a program on all groups of a snapshot.
#[verifier::loop_isolation(false)]
fn scan_snapshot<S: PageStore, T: ExactSink>(
    store: &mut S,
    snapshot: &GroupSnapshot,
    nodes: &Vec<Node>,
    keys: &Vec<Option<u64>>,
    scratch: &mut QueryScratch,
    sink: &mut T,
) -> (result: Result<(u64, Ghost<Seq<(u32, Seq<u64>)>>)>)
    requires
        old(scratch).wf(),
        program_valid(nodes@, keys@.len() as int),
    ensures
        final(scratch).wf(),
        final(store).host() == old(store).host(),
        final(sink).roots() == old(sink).roots(),
        final(sink).accepting() == old(sink).accepting(),
        result matches Err(error) ==> !(old(store).host().reliable && old(sink).accepting())
            || snapshot_fails(old(store).host().model, *snapshot, error),
        result matches Ok((count, report)) ==> {
            &&& count == reported(report@)
            &&& count <= 0x100_0000_0000_0000
            &&& final(sink).pages() == old(sink).pages() + report@
            &&& snapshot_reported(
                old(store).host().model,
                *snapshot,
                nodes@,
                keys@,
                report@,
            )
        },
{
    let ghost model = store.host().model;
    let ghost mut steps: Seq<GroupStep> = Seq::empty();
    let mut count: u64 = 0;
    let mut start: u32 = 0;
    assert(sink.pages() =~= sink.pages() + steps_report(steps));
    loop
        invariant
            scratch.wf(),
            store.host() == old(store).host(),
            sink.roots() == old(sink).roots(),
            sink.accepting() == old(sink).accepting(),
            start % 256 == 0,
            count <= (start / 256) * 0xFFFF_FFFF,
            next_start(steps) == Some(start),
            steps_made(model, *snapshot, nodes@, keys@, steps),
            count == reported(steps_report(steps)),
            sink.pages() == old(sink).pages() + steps_report(steps),
        decreases u32::MAX - start,
    {
        store.interrupt()?;
        let bound: u32 = match next_group(store, snapshot, nodes, keys, start)? {
            Some(bound) => bound,
            None => {
                return Ok((count, Ghost(steps_report(steps))));
            },
        };
        if bound < start {
            return Err(Error::InvalidState);
        }
        let wanted: [u64; 2] = [0u64, bound as u64];
        assert(wanted@ =~= seq![0u64, bound as u64]);
        proof {
            key_told(model, *snapshot, wanted@);
        }
        let entry: CatalogEntry = match find_first(store, snapshot, wanted)? {
            Some(entry) => entry,
            None => {
                return Ok((count, Ghost(steps_report(steps))));
            },
        };
        if entry.key[0] != 0 {
            return Ok((count, Ghost(steps_report(steps))));
        }
        let place: u64 = entry.key[1];
        if place > u32::MAX as u64 || place < bound as u64 || place % 256 != 0 {
            return Err(Error::InvalidState);
        }
        let base: u32 = place as u32;
        let (found, report): (u32, Ghost<Seq<(u32, Seq<u64>)>>) = scan_group(
            store,
            snapshot,
            nodes,
            keys,
            base,
            &entry,
            scratch,
            sink,
        )?;
        let ghost before = steps;
        proof {
            let step = GroupStep { start, bound, base, entry: entry@, report: report@ };
            steps = steps.push(step);
            assert(steps.drop_last() =~= before);
            assert(step_made(model, *snapshot, nodes@, keys@, step));
            reported_join(steps_report(before), report@);
            assert(old(sink).pages() + steps_report(before) + report@ =~= old(sink).pages()
                + steps_report(steps));
        }
        assert(base / 256 >= start / 256);
        assert((start / 256) * 0xFFFF_FFFF + 0xFFFF_FFFF <= (base / 256 + 1) * 0xFFFF_FFFF)
            by (nonlinear_arith)
            requires
                base / 256 >= start / 256,
        ;
        assert((base / 256 + 1) * 0xFFFF_FFFF <= 0x100_0000_0000_0000) by (nonlinear_arith)
            requires
                base <= 0xFFFF_FFFF,
        ;
        count = count + found as u64;
        match base.checked_add(256) {
            Some(next) => {
                start = next;
            },
            None => {
                proof {
                    assert(steps.last().base == base);
                    assert(next_start(steps) is None);
                    assert(steps_made(model, *snapshot, nodes@, keys@, steps));
                    assert(steps_ended(model, *snapshot, nodes@, keys@, steps));
                }
                return Ok((count, Ghost(steps_report(steps))));
            },
        }
    }
}

/// The most postings of a term that are resolved one by one: at most one
/// canonical posting page, and one owner in the dictionary.
const SPARSE_POSTINGS: usize = 64;

/// The catalog key of a name.
pub open spec fn key_of(model: StoreModel, meta: Image, name: Option<Seq<u8>>) -> Option<u64> {
    match name {
        None => None,
        Some(text) => match model.find_term(meta, text) {
            Ok(Some((_, reference))) => Some(term_number(reference)),
            _ => None,
        },
    }
}

/// The catalog keys of names.
pub open spec fn keys_of(model: StoreModel, meta: Image, names: Seq<Option<&str>>) -> Seq<
    Option<u64>,
> {
    Seq::new(names.len(), |t: int| key_of(model, meta, name_bytes(names[t])))
}

/// The snapshots among deltas.
pub open spec fn delta_snapshots(deltas: Seq<Option<GroupDelta>>) -> Seq<GroupSnapshot>
    decreases deltas.len(),
{
    if deltas.len() == 0 {
        Seq::empty()
    } else {
        match deltas.last() {
            Some(delta) => delta_snapshots(deltas.drop_last()).push(delta.snapshot),
            None => delta_snapshots(deltas.drop_last()),
        }
    }
}

/// The snapshots that a scan reads: the active one, then the deltas.
pub open spec fn live_snapshots(state: GroupModel) -> Seq<GroupSnapshot> {
    seq![state.active->Some_0] + delta_snapshots(state.deltas)
}

/// Whether a report is that of snapshots, one behind the other.
pub open spec fn snapshots_reported(
    model: StoreModel,
    snapshots: Seq<GroupSnapshot>,
    nodes: Seq<Node>,
    keys: Seq<Option<u64>>,
    report: Seq<(u32, Seq<u64>)>,
) -> bool
    decreases snapshots.len(),
{
    if snapshots.len() == 0 {
        report.len() == 0
    } else {
        exists|first: Seq<(u32, Seq<u64>)>, last: Seq<(u32, Seq<u64>)>|
            #![trigger first + last]
            report == first + last && snapshots_reported(
                model,
                snapshots.drop_last(),
                nodes,
                keys,
                first,
            ) && snapshot_reported(model, snapshots.last(), nodes, keys, last)
    }
}

/// What an exact scan handed over: for a term with few postings its roots one by
/// one, else the pages of all snapshots and the roots beyond the latest one.
pub open spec fn exact_told(
    host: Host,
    query: QueryModel,
    program: Program<'_>,
    pages: (Seq<(u32, Seq<u64>)>, Seq<(u32, Seq<u64>)>),
    roots: (Seq<RootTid>, Seq<RootTid>),
    count: u64,
) -> bool {
    let model = host.model;
    model.load(0, PageKind::Meta) matches Ok(meta) && {
        ||| {
            &&& query.nodes[query.root] is Term
            &&& pages.1 == pages.0
            &&& delivered(
                model.single_term::<RootTid>(query.nodes[query.root]->Term_0),
                roots.0,
                roots.1,
                Ok(count),
                true,
                Error::Limit("candidate count"),
            )
        }
        ||| meta.grouped_state() matches Ok(state) && state.active is Some && exists|
            report: Seq<(u32, Seq<u64>)>,
        | #[trigger]
            snapshots_reported(
                model,
                live_snapshots(state),
                program.nodes@,
                keys_of(model, meta, program.names@),
                report,
            ) && pages.1 == pages.0 + report && (state.spec_latest() matches Some(latest)
                && frontier_told(
                model,
                meta,
                latest,
                program.nodes@,
                program.names@,
                roots.0,
                roots.1,
            ) && suffixes_met(
                host,
                meta,
                latest,
                program.universe,
                program.nodes@,
                program.names@,
            )) && count == reported(report) + roots.1.len() - roots.0.len()
    }
}

/// Lists the snapshots that a scan reads.
#[verifier::loop_isolation(false)]
fn list_snapshots(active: GroupSnapshot, state: &GroupState) -> (snapshots: Vec<GroupSnapshot>)
    requires
        state@.active == Some(active),
    ensures
        snapshots@ == live_snapshots(state@),
{
    let mut snapshots: Vec<GroupSnapshot> = Vec::new();
    snapshots.push(active);
    let ghost deltas = state@.deltas;
    let mut index: usize = 0;
    assert(delta_snapshots(deltas.take(0)) =~= Seq::empty());
    assert(snapshots@ =~= seq![active] + delta_snapshots(deltas.take(0)));
    while index < 16
        invariant
            index <= 16,
            deltas.len() == 16,
            snapshots@ == seq![active] + delta_snapshots(deltas.take(index as int)),
        decreases 16 - index,
    {
        assert(deltas.take(index + 1).drop_last() =~= deltas.take(index as int));
        assert(deltas.take(index + 1).last() == state.deltas[index as int]);
        if let Some(delta) = state.deltas[index] {
            snapshots.push(delta.snapshot);
            assert(snapshots@ =~= seq![active] + delta_snapshots(deltas.take(index + 1)));
        }
        index += 1;
    }
    assert(deltas.take(16) =~= deltas);
    snapshots
}

/// Evaluates a program on all snapshots.
#[verifier::loop_isolation(false)]
fn scan_snapshots<S: PageStore, T: ExactSink>(
    store: &mut S,
    snapshots: &Vec<GroupSnapshot>,
    nodes: &Vec<Node>,
    keys: &Vec<Option<u64>>,
    sink: &mut T,
) -> (result: Result<(u64, Ghost<Seq<(u32, Seq<u64>)>>)>)
    requires
        program_valid(nodes@, keys@.len() as int),
        snapshots@.len() <= 17,
    ensures
        final(store).host() == old(store).host(),
        final(sink).roots() == old(sink).roots(),
        final(sink).accepting() == old(sink).accepting(),
        result matches Err(error) ==> !(old(store).host().reliable && old(sink).accepting())
            || exists|i: int|
            0 <= i < snapshots@.len() && snapshot_fails(
                old(store).host().model,
                #[trigger] snapshots@[i],
                error,
            ),
        result matches Ok((count, report)) ==> {
            &&& count == reported(report@)
            &&& count <= 0x1100_0000_0000_0000
            &&& final(sink).pages() == old(sink).pages() + report@
            &&& snapshots_reported(
                old(store).host().model,
                snapshots@,
                nodes@,
                keys@,
                report@,
            )
        },
{
    let ghost model = store.host().model;
    let mut scratch: QueryScratch = QueryScratch::default();
    let ghost mut report: Seq<(u32, Seq<u64>)> = Seq::empty();
    let mut count: u64 = 0;
    let mut index: usize = 0;
    assert(sink.pages() =~= sink.pages() + report);
    while index < snapshots.len()
        invariant
            index <= snapshots@.len(),
            scratch.wf(),
            store.host() == old(store).host(),
            sink.accepting() == old(sink).accepting(),
            count <= index * 0x100_0000_0000_0000,
            sink.roots() == old(sink).roots(),
            sink.pages() == old(sink).pages() + report,
            count == reported(report),
            snapshots_reported(model, snapshots@.take(index as int), nodes@, keys@, report),
        decreases snapshots@.len() - index,
    {
        let snapshot: GroupSnapshot = snapshots[index];
        assert(snapshots@[index as int] == snapshot);
        let (found, part): (u64, Ghost<Seq<(u32, Seq<u64>)>>) = scan_snapshot(
            store,
            &snapshot,
            nodes,
            keys,
            &mut scratch,
            sink,
        )?;
        proof {
            let more = snapshots@.take(index + 1);
            assert(more.drop_last() =~= snapshots@.take(index as int));
            assert(more.last() == snapshot);
            reported_join(report, part@);
            assert(old(sink).pages() + report + part@ =~= old(sink).pages() + (report + part@));
            report = report + part@;
        }
        count = count + found;
        index += 1;
    }
    assert(snapshots@.take(index as int) =~= snapshots@);
    Ok((count, Ghost(report)))
}

/// Whether the scan of a term with few postings ends in an error.
pub open spec fn sparse_fails(model: StoreModel, meta: Image, text: Seq<u8>, error: Error) -> bool {
    match model.find_term(meta, text) {
        Err(fault) => fault == error,
        Ok(None) => false,
        Ok(Some((image, reference))) => match image.term(reference) {
            Err(fault) => fault == error,
            Ok(entry) => {
                let walk = model.entry_roots::<RootTid>(entry);
                ||| model.load_posting(entry.head, reference) == Err::<Image, Error>(error)
                ||| (model.load_posting(entry.head, reference) matches Ok(page)
                    && page.posting_stream() matches Err(fault) && fault == error)
                ||| walk.end == Err::<(), Error>(error)
                ||| error == Error::Limit("candidate count") && walk.items.len() > u64::MAX
            },
        },
    }
}

/// The roots of a term with few postings; nothing for other terms.
fn scan_sparse<S: PageStore, T: ExactSink>(
    store: &mut S,
    meta: &Page,
    text: &str,
    sink: &mut T,
) -> (result: Result<Option<u64>>)
    requires
        old(store).host().model.load(0, PageKind::Meta) == Ok::<Image, Error>(meta@),
    ensures
        final(store).host() == old(store).host(),
        final(sink).pages() == old(sink).pages(),
        match result {
            Ok(Some(count)) => delivered(
                old(store).host().model.single_term::<RootTid>(text_bytes(text)),
                old(sink).roots(),
                final(sink).roots(),
                Ok(count),
                true,
                Error::Limit("candidate count"),
            ),
            Ok(None) => final(sink).roots() == old(sink).roots(),
            Err(error) => !(old(store).host().reliable && old(sink).accepting()) || sparse_fails(
                old(store).host().model,
                meta@,
                text_bytes(text),
                error,
            ),
        },
        final(sink).accepting() == old(sink).accepting(),
{
    let ghost before = sink.roots();
    assert(before =~= before + Seq::<RootTid>::empty());
    let (dictionary, reference): (Page, TermRef) = match find_term(store, meta, text)? {
        Some(found) => found,
        None => {
            return Ok(Some(0));
        },
    };
    let entry: Term<'_> = dictionary.term(reference)?;
    assert(entry@ == dictionary@.term(reference)->Ok_0);
    if entry.head != entry.tail {
        return Ok(None);
    }
    let postings: usize = if entry.head == NO_BLOCK {
        1
    } else {
        let page: Page = load_posting(store, entry.head, reference)?;
        let records: usize = page.posting_records()?;
        records.saturating_add(1)
    };
    if postings > SPARSE_POSTINGS {
        return Ok(None);
    }
    let mut roots: Vec<RootTid> = Vec::new();
    let count: u64 = scan_term_entry(store, &entry, &mut roots)?;
    crate::mutable::grouped::frontier::hand_over(sink, &roots)?;
    Ok(Some(count))
}

/// The scratch of one term beside its bitmap: its key, its catalog cursor, its
/// entry and whether it was begun.
pub open spec fn term_scratch() -> nat {
    vstd::layout::size_of::<Option<u64>>() + vstd::layout::size_of::<Cursor>()
        + vstd::layout::size_of::<Option<CatalogEntry>>() + vstd::layout::size_of::<bool>()
}

/// The memory that an exact scan of a program needs.
pub open spec fn required_bytes(terms: int) -> int {
    terms * (BITMAP_BYTES + term_scratch()) + OWNER_FRONTIER_FIXED
}

/// A bitmap and the scratch of its term, where a machine word holds them.
fn term_bytes() -> (each: Option<usize>)
    ensures
        match each {
            Some(each) => each == BITMAP_BYTES + term_scratch(),
            None => BITMAP_BYTES + term_scratch() > usize::MAX,
        },
{
    let key: usize = BITMAP_BYTES.checked_add(size_of::<Option<u64>>())?;
    let cursor: usize = key.checked_add(size_of::<Cursor>())?;
    let entry: usize = cursor.checked_add(size_of::<Option<CatalogEntry>>())?;
    entry.checked_add(size_of::<bool>())
}

/// Whether memory suffices for a program.
fn affordable(terms: usize, memory_bytes: usize) -> (enough: bool)
    requires
        terms <= 64,
    ensures
        enough == (memory_bytes >= required_bytes(terms as int)),
{
    if memory_bytes < OWNER_FRONTIER_FIXED {
        assert(terms * (BITMAP_BYTES + term_scratch()) >= 0) by (nonlinear_arith)
            requires
                terms >= 0,
                BITMAP_BYTES + term_scratch() >= 0,
        ;
        return false;
    }
    if terms == 0 {
        assert(0 * (BITMAP_BYTES + term_scratch()) == 0) by (nonlinear_arith);
        return true;
    }
    assert(terms * (BITMAP_BYTES + term_scratch()) >= BITMAP_BYTES + term_scratch())
        by (nonlinear_arith)
        requires
            terms >= 1,
            BITMAP_BYTES + term_scratch() >= 0,
    ;
    match term_bytes() {
        None => false,
        Some(each) => match terms.checked_mul(each) {
            None => false,
            Some(all) => all <= memory_bytes - OWNER_FRONTIER_FIXED,
        },
    }
}

/// Whether a term of a program cannot be found.
pub open spec fn names_fail(
    model: StoreModel,
    meta: Image,
    names: Seq<Option<&str>>,
    error: Error,
) -> bool {
    exists|i: int|
        0 <= i < names.len() && (#[trigger] names[i] matches Some(name) && (model.find_term(
            meta,
            text_bytes(name),
        ) matches Err(fault) && fault == error))
}

/// Finds the keys of the terms of a program.
#[verifier::loop_isolation(false)]
fn find_keys<S: PageStore>(store: &mut S, meta: &Page, names: &Vec<Option<&str>>) -> (result: Result<
    Vec<Option<u64>>,
>)
    ensures
        final(store).host() == old(store).host(),
        match result {
            Ok(keys) => keys@ == keys_of(old(store).host().model, meta@, names@),
            Err(error) => !old(store).host().reliable || names_fail(
                old(store).host().model,
                meta@,
                names@,
                error,
            ),
        },
{
    let ghost model = store.host().model;
    let ghost goal = keys_of(model, meta@, names@);
    let mut keys: Vec<Option<u64>> = Vec::new();
    let mut index: usize = 0;
    while index < names.len()
        invariant
            index <= names@.len(),
            keys@ == goal.take(index as int),
            store.host() == old(store).host(),
        decreases names@.len() - index,
    {
        assert(names@[index as int] == names[index as int]);
        let key: Option<u64> = match names[index] {
            None => None,
            Some(name) => match find_term(store, meta, name)? {
                Some((_, reference)) => Some(term_key(reference)),
                None => None,
            },
        };
        keys.push(key);
        assert(key == goal[index as int]);
        assert(keys@ =~= goal.take(index + 1));
        index += 1;
    }
    assert(keys@ =~= goal);
    Ok(keys)
}

/// Whether one of the snapshots that a scan reads is damaged.
pub open spec fn snapshots_fail(model: StoreModel, snapshots: Seq<GroupSnapshot>, error: Error) -> bool {
    exists|i: int|
        0 <= i < snapshots.len() && snapshot_fails(model, #[trigger] snapshots[i], error)
}

/// Whether the exact scan of a program ends in an error.
pub open spec fn program_fails(
    host: Host,
    meta: Image,
    state: GroupModel,
    latest: GroupSnapshot,
    program: Program<'_>,
    error: Error,
) -> bool {
    ||| names_fail(host.model, meta, program.names@, error)
    ||| snapshots_fail(host.model, live_snapshots(state), error)
    ||| frontier_fails(
        host,
        meta,
        latest,
        program.universe,
        program.nodes@,
        program.names@,
        error,
    )
}

/// Whether the exact scan of a query ends in an error.
pub open spec fn exact_fails(host: Host, query: QueryModel, error: Error) -> bool {
    match host.model.load(0, PageKind::Meta) {
        Err(fault) => fault == error,
        Ok(meta) => match meta.grouped_state() {
            Err(fault) => fault == error,
            Ok(state) => state.active is Some && match state.spec_latest() {
                None => error == Error::InvalidState,
                Some(latest) => {
                    ||| (query.nodes[query.root] matches KindModel::Term(text) && sparse_fails(
                        host.model,
                        meta,
                        text,
                        error,
                    ))
                    ||| exists|program: Program<'_>| #[trigger]
                        program.stands_for(query) && program_fails(
                            host,
                            meta,
                            state,
                            latest,
                            program,
                            error,
                        )
                },
            },
        },
    }
}

/// Scans what a program stands for in the snapshots and beyond them.
#[verifier::rlimit(60)]
#[verifier::spinoff_prover]
fn scan_program<'q, S: PageStore, T: ExactSink>(
    store: &mut S,
    query: &'q Query,
    program: &Program<'q>,
    meta: &Page,
    state: &GroupState,
    active: GroupSnapshot,
    latest: GroupSnapshot,
    memory_bytes: usize,
    sink: &mut T,
) -> (result: Result<u64>)
    requires
        program.stands_for(query@),
        program_valid(program.nodes@, program.names@.len() as int),
        program.nodes@.len() > 0,
        program.names@.len() <= 64,
        forall|i: int|
            0 <= i < program.nodes@.len() ==> node_valid(
                #[trigger] program.nodes@[i],
                i,
                program.names@.len() as int,
            ),
        old(store).host().model.load(0, PageKind::Meta) == Ok::<Image, Error>(meta@),
        meta@.grouped_state() == Ok::<GroupModel, Error>(state@),
        state@.active == Some(active),
        state@.spec_latest() == Some(latest),
    ensures
        final(store).host() == old(store).host(),
        match result {
            Ok(count) => exact_told(
                old(store).host(),
                query@,
                *program,
                (old(sink).pages(), final(sink).pages()),
                (old(sink).roots(), final(sink).roots()),
                count,
            ),
            Err(error) => !(old(store).host().reliable && old(sink).accepting()) || program_fails(
                old(store).host(),
                meta@,
                state@,
                latest,
                *program,
                error,
            ) || (error == Error::Limit("group candidates") && final(sink).roots().len() - old(sink).roots().len() >= 0xEE00_0000_0000_0000),
        },
{
    let ghost model = store.host().model;
    let keys: Vec<Option<u64>> = find_keys(store, meta, &program.names)?;
    store.event(Stage::GroupScan)?;
    let snapshots: Vec<GroupSnapshot> = list_snapshots(active, state);
    proof {
        snapshots_few(state@);
    }
    let (found, report): (u64, Ghost<Seq<(u32, Seq<u64>)>>) = scan_snapshots(
        store,
        &snapshots,
        &program.nodes,
        &keys,
        sink,
    )?;
    let suffix: u64 = crate::mutable::grouped::frontier::scan(
        store,
        program,
        meta,
        &latest,
        memory_bytes,
        sink,
    )?;
    match found.checked_add(suffix) {
        Some(count) => {
            proof {
                assert(snapshots_reported(
                    model,
                    live_snapshots(state@),
                    program.nodes@,
                    keys_of(model, meta@, program.names@),
                    report@,
                ));
            }
            Ok(count)
        },
        None => Err(Error::Limit("group candidates")),
    }
}

/// A scan reads at most one active snapshot and sixteen behind it.
proof fn snapshots_few(state: GroupModel)
    requires
        state.active is Some,
        state.deltas.len() == 16,
    ensures
        live_snapshots(state).len() <= 17,
{
    deltas_few(state.deltas);
}

proof fn deltas_few(deltas: Seq<Option<GroupDelta>>)
    ensures
        delta_snapshots(deltas).len() <= deltas.len(),
    decreases deltas.len(),
{
    if deltas.len() > 0 {
        deltas_few(deltas.drop_last());
    }
}

/// Whether no snapshot is active.
pub open spec fn groupless(model: StoreModel) -> bool {
    model.load(0, PageKind::Meta) matches Ok(meta) && (meta.grouped_state() matches Ok(state)
        && state.active is None)
}

/// Scans exact grouped matches without expanding sealed page masks into roots.
/// Sparse and newer-owner paths retain their bounded scalar representation.
/// Returns `None` before any emission for unsupported syntax, snapshot or memory
/// budget. The host holds the structural barrier. One live owner per heap root is
/// a host lifecycle invariant, not a deduplication here.
///
/// # Errors
/// Corruption and host failures abort; the consumer must discard all partial
/// output. `Some` contains candidate cardinality, never a visible SQL count.
#[verifier::rlimit(40)]
pub fn scan_exact<S: PageStore, T: ExactSink>(
    store: &mut S,
    query: &Query,
    memory_bytes: usize,
    sink: &mut T,
) -> (result: Result<Option<u64>>)
    ensures
        final(store).host() == old(store).host(),
        !groupable(query@) || memory_bytes < needed_bytes(query@) ==> result == Ok::<Option<u64>, Error>(
            None,
        ),
        groupless(old(store).host().model) && old(store).host().reliable ==> result == Ok::<
            Option<u64>,
            Error,
        >(None),
        match result {
            Ok(None) => {
                &&& final(sink).pages() == old(sink).pages()
                &&& final(sink).roots() == old(sink).roots()
                &&& !groupable(query@) || memory_bytes < needed_bytes(query@) || groupless(
                    old(store).host().model,
                )
            },
            Ok(Some(count)) => {
                &&& groupable(query@)
                &&& memory_bytes >= needed_bytes(query@)
                &&& old(store).host().model.load(0, PageKind::Meta) matches Ok(meta)
                &&& meta.grouped_state() matches Ok(state)
                &&& state.active is Some
                &&& exists|program: Program<'_>| #[trigger]
                    program.stands_for(query@) && exact_told(
                        old(store).host(),
                        query@,
                        program,
                        (old(sink).pages(), final(sink).pages()),
                        (old(sink).roots(), final(sink).roots()),
                        count,
                    )
            },
            Err(error) => groupable(query@) && (!(old(store).host().reliable && old(sink).accepting()) || exact_fails(old(store).host(), query@, error) || (error
                == Error::Limit("group candidates") && final(sink).roots().len() - old(sink).roots().len() >= 0xEE00_0000_0000_0000)),
        },
{
    let ghost model = store.host().model;
    let program: Program<'_> = match compile(query) {
        Some(program) => program,
        None => {
            return Ok(None);
        },
    };
    if !affordable(program.names.len(), memory_bytes) {
        return Ok(None);
    }
    let meta: Page = load(store, 0, PageKind::Meta)?;
    let state: GroupState = meta.grouped_state()?;
    let active: GroupSnapshot = match state.active {
        Some(active) => active,
        None => {
            return Ok(None);
        },
    };
    let latest: GroupSnapshot = match state.latest() {
        Some(latest) => latest,
        None => {
            return Err(Error::InvalidState);
        },
    };
    if let Kind::Term(text) = &query.node(query.root()).kind {
        if let Some(count) = scan_sparse(store, &meta, text.as_str(), sink)? {
            assert(exact_told(
                store.host(),
                query@,
                program,
                (old(sink).pages(), sink.pages()),
                (old(sink).roots(), sink.roots()),
                count,
            ));
            return Ok(Some(count));
        }
    }
    proof {
        assert forall|i: int| 0 <= i < program.nodes@.len() implies node_valid(
            #[trigger] program.nodes@[i],
            i,
            program.names@.len() as int,
        ) by {
            assert(node_fits(program.nodes@[i], i, query@.nodes[i], program.names@));
        }
    }
    let count: u64 = scan_program(
        store,
        query,
        &program,
        &meta,
        &state,
        active,
        latest,
        memory_bytes,
        sink,
    )?;
    Ok(Some(count))
}

/// Scans grouped matches, retaining the bitmap fallback unchanged. The host holds
/// its structural reader barrier; exact results go to the consumer's exact side,
/// fallback candidates to its other side.
///
/// # Errors
/// Corruption or host failures invalidate all previously emitted candidates.
pub fn scan_query<S: PageStore, T: ExactSink, E: Sink<Found>>(
    store: &mut S,
    query: &Query,
    memory_bytes: usize,
    exact: &mut T,
    emit: &mut E,
) -> (result: Result<u64>)
    ensures
        final(store).host() == old(store).host(),
        !groupable(query@) || memory_bytes < needed_bytes(query@) || (groupless(
            old(store).host().model,
        ) && (old(store).host().reliable || result is Ok)) ==> {
            &&& final(exact).pages() == old(exact).pages()
            &&& final(exact).roots() == old(exact).roots()
            &&& query_told(
                old(store).host().model,
                query@,
                memory_bytes,
                false,
                old(emit).received(),
                final(emit).received(),
                result,
                old(store).host().reliable && old(emit).accepting(),
            )
        },
        groupable(query@) && memory_bytes >= needed_bytes(query@) && !groupless(
            old(store).host().model,
        ) ==> {
            &&& final(emit).received() == old(emit).received()
            &&& match result {
                Ok(count) => exists|program: Program<'_>| #[trigger]
                    program.stands_for(query@) && exact_told(
                        old(store).host(),
                        query@,
                        program,
                        (old(exact).pages(), final(exact).pages()),
                        (old(exact).roots(), final(exact).roots()),
                        count,
                    ),
                Err(error) => !(old(store).host().reliable && old(exact).accepting()) || exact_fails(
                    old(store).host(),
                    query@,
                    error,
                ) || (error == Error::Limit("group candidates") && final(exact).roots().len()
                    - old(exact).roots().len() >= 0xEE00_0000_0000_0000),
            }
        },
{
    match scan_exact(store, query, memory_bytes, exact)? {
        Some(count) => Ok(count),
        None => scan_query_with_recheck(store, query, memory_bytes, emit),
    }
}

} // verus!
