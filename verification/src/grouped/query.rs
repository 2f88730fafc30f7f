//! Bounded scalar Boolean evaluation inside one immutable generation domain.
//! Page summaries are evaluated before any term offset payload is decoded.

use super::bitmap::{span_inside, Bitmap, BitmapKind, BitmapModel};
use super::members::{SegmentGroup, SegmentModel};
use super::{GroupKey, OffsetMask, PageMask};
use crate::callbacks::{Interrupt, MatchSink};
use crate::error::{Error, Result};
use crate::mask::{
    bit, bit_logic, bit_set, both, candidate_pages, candidates, count, either, empty_mask,
    mask_count_below, mask_has, mask_is_empty, mask_logic, masks_equal, matching_offsets, member,
    members as mask_members, members_range, minus, none, offsets, same_bits, BitmapOp, Pages,
};
use vstd::prelude::*;

verus! {

pub const MAX_NODES: usize = 64;

/// A topologically ordered program; child indices must precede their parent.
/// `All` and `Not` are relative to this segment's live membership, not all roots.
#[derive(Clone, Copy, Debug)]
pub enum Node {
    Term(usize),
    All,
    And(usize, usize),
    Or(usize, usize),
    Difference(usize, usize),
    Not(usize),
}

/// Caller-owned scratch, reusable across segments.
pub struct QueryScratch {
    pages: Vec<PageMask>,
    offsets: Vec<OffsetMask>,
}

impl QueryScratch {
    /// One mask of each kind for every node.
    pub closed spec fn wf(self) -> bool {
        self.pages@.len() == MAX_NODES && self.offsets@.len() == MAX_NODES
    }
}

impl Default for QueryScratch {
    fn default() -> (scratch: Self)
        ensures
            scratch.wf(),
    {
        let mut pages: Vec<PageMask> = Vec::new();
        let mut offsets: Vec<OffsetMask> = Vec::new();
        let mut i: usize = 0;
        while i < MAX_NODES
            invariant
                i <= MAX_NODES,
                pages@.len() == i,
                offsets@.len() == i,
            decreases MAX_NODES - i,
        {
            pages.push([0u64; 4]);
            offsets.push([0u64; 8]);
            i += 1;
        }
        QueryScratch { pages, offsets }
    }
}

#[derive(Clone, Copy, Debug, Eq, PartialEq, Structural)]
pub struct QueryStats {
    pub candidate_pages: u16,
    pub live_pages: u16,
    pub term_payloads: u32,
    pub term_bytes: u32,
    pub emitted_tids: u32,
}

impl Default for QueryStats {
    fn default() -> (stats: Self)
        ensures
            stats == (QueryStats {
                candidate_pages: 0,
                live_pages: 0,
                term_payloads: 0,
                term_bytes: 0,
                emitted_tids: 0,
            }),
    {
        QueryStats {
            candidate_pages: 0,
            live_pages: 0,
            term_payloads: 0,
            term_bytes: 0,
            emitted_tids: 0,
        }
    }
}

/// What a segment and its terms mark: for each page and offset bit, whether it
/// is live and which terms it has, with a page summary of each.
pub struct SourceModel {
    pub key: GroupKey,
    pub live_pages: Seq<u64>,
    pub live: spec_fn(int, int) -> bool,
    pub term_pages: Seq<Seq<u64>>,
    pub terms: Seq<spec_fn(int, int) -> bool>,
}

impl SourceModel {
    /// Summaries cover what they summarise.
    pub open spec fn wf(self) -> bool {
        &&& self.live_pages.len() == 4
        &&& self.terms.len() == self.term_pages.len()
        &&& forall|t: int| 0 <= t < self.terms.len() ==> (#[trigger] self.term_pages[t]).len() == 4
        &&& forall|p: int, b: int|
            #![trigger (self.live)(p, b)]
            (self.live)(p, b) ==> member(self.live_pages, p) && 0 <= b < 512
        &&& forall|t: int, p: int, b: int|
            #![trigger (self.terms[t])(p, b)]
            0 <= t < self.terms.len() && (self.terms[t])(p, b) ==> member(self.term_pages[t], p)
        &&& forall|p: int| #[trigger] member(self.live_pages, p) ==> self.key.block_of(p) is Ok
    }
}

/// Whether a mask holds exactly the bits that a predicate names.
pub open spec fn mask_is(mask: Seq<u64>, named: spec_fn(int) -> bool) -> bool {
    &&& mask.len() == 8
    &&& forall|b: int|
        #![trigger member(mask, b)]
        0 <= b < 512 ==> member(mask, b) == named(b)
}

/// The mask of the bits that a predicate names.
pub open spec fn the_mask(named: spec_fn(int) -> bool) -> Seq<u64> {
    choose|mask: Seq<u64>| mask_is(mask, named)
}

proof fn mask_unique(mask: Seq<u64>, named: spec_fn(int) -> bool)
    requires
        mask_is(mask, named),
    ensures
        the_mask(named) == mask,
{
    let other = the_mask(named);
    assert forall|b: int| 0 <= b < 64 * mask.len() implies member(mask, b) == member(other, b) by {}
    masks_equal(mask, other);
}

/// Whether a node's operands come before it and its term exists.
pub open spec fn node_valid(node: Node, index: int, terms: int) -> bool {
    match node {
        Node::Term(term) => term < terms,
        Node::All => true,
        Node::Not(child) => child < index,
        Node::And(left, right) => left < index && right < index,
        Node::Or(left, right) => left < index && right < index,
        Node::Difference(left, right) => left < index && right < index,
    }
}

/// Whether a program is evaluable over a number of terms.
pub open spec fn program_valid(program: Seq<Node>, terms: int) -> bool {
    &&& 0 < program.len() <= 64
    &&& terms <= 64
    &&& forall|i: int| 0 <= i < program.len() ==> node_valid(#[trigger] program[i], i, terms)
}

/// Whether a node matches at a page and offset bit.
pub open spec fn holds(
    program: Seq<Node>,
    model: SourceModel,
    index: int,
    page: int,
    b: int,
) -> bool
    decreases index,
{
    if index < 0 {
        false
    } else {
        (model.live)(page, b) && match program[index] {
            Node::Term(term) => (model.terms[term as int])(page, b),
            Node::All => true,
            Node::Not(child) => child < index && !holds(program, model, child as int, page, b),
            Node::And(left, right) => left < index && right < index && holds(
                program,
                model,
                left as int,
                page,
                b,
            ) && holds(program, model, right as int, page, b),
            Node::Or(left, right) => left < index && right < index && (holds(
                program,
                model,
                left as int,
                page,
                b,
            ) || holds(program, model, right as int, page, b)),
            Node::Difference(left, right) => left < index && right < index && holds(
                program,
                model,
                left as int,
                page,
                b,
            ) && !holds(program, model, right as int, page, b),
        }
    }
}

/// The pages on which a node may match, from summaries alone.
pub open spec fn node_pages(
    program: Seq<Node>,
    live: Seq<u64>,
    terms: Seq<Seq<u64>>,
    index: int,
) -> Seq<u64>
    decreases index,
{
    if index < 0 {
        none(4)
    } else {
        match program[index] {
            Node::Term(term) => candidate_pages(
                BitmapOp::Intersection,
                terms[term as int],
                live,
                live,
            ),
            Node::All => live,
            Node::Not(_) => live,
            Node::And(left, right) => if left < index && right < index {
                candidate_pages(
                    BitmapOp::Intersection,
                    node_pages(program, live, terms, left as int),
                    node_pages(program, live, terms, right as int),
                    live,
                )
            } else {
                live
            },
            Node::Or(left, right) => if left < index && right < index {
                candidate_pages(
                    BitmapOp::Union,
                    node_pages(program, live, terms, left as int),
                    node_pages(program, live, terms, right as int),
                    live,
                )
            } else {
                live
            },
            Node::Difference(left, right) => if left < index && right < index {
                candidate_pages(
                    BitmapOp::Difference,
                    node_pages(program, live, terms, left as int),
                    node_pages(program, live, terms, right as int),
                    live,
                )
            } else {
                live
            },
        }
    }
}

proof fn node_pages_len(program: Seq<Node>, live: Seq<u64>, terms: Seq<Seq<u64>>, index: int)
    requires
        live.len() == 4,
        0 <= index < program.len(),
        program_valid(program, terms.len() as int),
        forall|t: int| 0 <= t < terms.len() ==> (#[trigger] terms[t]).len() == 4,
    ensures
        node_pages(program, live, terms, index).len() == 4,
    decreases index,
{
    assert(node_valid(program[index], index, terms.len() as int));
    match program[index] {
        Node::And(left, right) => {
            node_pages_len(program, live, terms, left as int);
        },
        Node::Or(left, right) => {
            node_pages_len(program, live, terms, left as int);
        },
        Node::Difference(left, right) => {
            node_pages_len(program, live, terms, left as int);
        },
        _ => {},
    }
}

/// Pruning is sound: where a node matches, its page summary has the page.
pub proof fn pruning_sound(
    program: Seq<Node>,
    model: SourceModel,
    index: int,
    page: int,
    b: int,
)
    requires
        model.wf(),
        program_valid(program, model.terms.len() as int),
        0 <= index < program.len(),
        holds(program, model, index, page, b),
    ensures
        member(node_pages(program, model.live_pages, model.term_pages, index), page),
    decreases index,
{
    let live = model.live_pages;
    let terms = model.term_pages;
    assert(node_valid(program[index], index, model.terms.len() as int));
    assert(member(live, page));
    match program[index] {
        Node::Term(term) => {
            let pages = terms[term as int];
            mask_logic(pages, live, page);
            mask_logic(both(pages, live), live, page);
        },
        Node::And(left, right) => {
            pruning_sound(program, model, left as int, page, b);
            pruning_sound(program, model, right as int, page, b);
            node_pages_len(program, live, terms, left as int);
            node_pages_len(program, live, terms, right as int);
            let l = node_pages(program, live, terms, left as int);
            let r = node_pages(program, live, terms, right as int);
            mask_logic(l, r, page);
            mask_logic(both(l, r), live, page);
        },
        Node::Or(left, right) => {
            if holds(program, model, left as int, page, b) {
                pruning_sound(program, model, left as int, page, b);
            } else {
                pruning_sound(program, model, right as int, page, b);
            }
            node_pages_len(program, live, terms, left as int);
            node_pages_len(program, live, terms, right as int);
            let l = node_pages(program, live, terms, left as int);
            let r = node_pages(program, live, terms, right as int);
            mask_logic(l, r, page);
            mask_logic(either(l, r), live, page);
        },
        Node::Difference(left, right) => {
            pruning_sound(program, model, left as int, page, b);
            node_pages_len(program, live, terms, left as int);
            let l = node_pages(program, live, terms, left as int);
            mask_logic(l, live, page);
        },
        _ => {},
    }
}

/// Whether one node reads another.
pub open spec fn reads(node: Node, child: int) -> bool {
    match node {
        Node::Not(only) => only == child,
        Node::And(left, right) => left == child || right == child,
        Node::Or(left, right) => left == child || right == child,
        Node::Difference(left, right) => left == child || right == child,
        _ => false,
    }
}

/// Whether the result on a page depends on a node: the root does, and so do
/// the operands of a needed node that may match there.
pub open spec fn needed(
    program: Seq<Node>,
    pages: spec_fn(int) -> Seq<u64>,
    page: int,
    index: int,
) -> bool
    decreases program.len() - index,
{
    index == program.len() - 1 || exists|parent: int|
        index < parent < program.len() && reads(#[trigger] program[parent], index) && member(
            pages(parent),
            page,
        ) && needed(program, pages, page, parent)
}

/// What the evaluation reports from a page on: each block with matches and
/// the mask of its matching offsets.
pub open spec fn expected_from(program: Seq<Node>, model: SourceModel, page: int) -> Seq<
    (u32, Seq<u64>),
>
    decreases 256 - page,
{
    if page >= 256 {
        Seq::empty()
    } else {
        let named = |b: int| holds(program, model, program.len() - 1, page, b);
        let rest = expected_from(program, model, page + 1);
        if exists|b: int| 0 <= b < 512 && #[trigger] named(b) {
            seq![((model.key.base() + page) as u32, the_mask(named))] + rest
        } else {
            rest
        }
    }
}

/// The number of offsets in a report.
pub open spec fn reported(blocks: Seq<(u32, Seq<u64>)>) -> nat
    decreases blocks.len(),
{
    if blocks.len() == 0 {
        0
    } else {
        reported(blocks.drop_last()) + count(blocks.last().1)
    }
}

/// Sources bind all records to one published immutable membership before decoding.
pub trait Source {
    spec fn model(&self) -> SourceModel;

    /// The errors that reading may fail with.
    spec fn faults(&self) -> spec_fn(Error) -> bool;

    fn key(&self) -> (key: GroupKey)
        ensures
            key == self.model().key,
    ;

    fn terms(&self) -> (terms: usize)
        ensures
            terms == self.model().terms.len(),
            self.model().wf(),
    ;

    fn live_pages(&self) -> (mask: PageMask)
        ensures
            mask@ == self.model().live_pages,
    ;

    fn term_pages(&self, term: usize) -> (mask: PageMask)
        requires
            term < self.model().terms.len(),
        ensures
            mask@ == self.model().term_pages[term as int],
    ;

    fn live_offsets(&mut self, page: u8) -> (result: Result<OffsetMask>)
        ensures
            final(self).model() == old(self).model(),
            final(self).faults() == old(self).faults(),
            result matches Err(error) ==> (old(self).faults())(error),
            result matches Ok(mask) ==> mask_is(
                mask@,
                |b: int| (old(self).model().live)(page as int, b),
            ),
    ;

    fn term_offsets(&mut self, term: usize, page: u8) -> (result: Result<(OffsetMask, usize)>)
        requires
            term < old(self).model().terms.len(),
            member(old(self).model().term_pages[term as int], page as int),
        ensures
            final(self).model() == old(self).model(),
            final(self).faults() == old(self).faults(),
            result matches Err(error) ==> (old(self).faults())(error),
            result matches Ok(found) ==> found.1 <= 64 && mask_is(
                found.0@,
                |b: int| (old(self).model().terms[term as int])(page as int, b),
            ),
    ;

    fn interrupt(&mut self) -> (result: Result<()>)
        ensures
            final(self).model() == old(self).model(),
            final(self).faults() == old(self).faults(),
            result matches Err(error) ==> (old(self).faults())(error),
    ;
}

#[verifier::loop_isolation(false)]
fn validate_program(terms: usize, program: &[Node]) -> (result: Result<()>)
    ensures
        result == program_error(program@, terms as int),
{
    let count: usize = program.len();
    if count == 0 || count > MAX_NODES || terms > MAX_NODES {
        return Err(Error::Limit("group query nodes"));
    }
    let mut index: usize = 0;
    while index < count
        invariant
            index <= count,
            forall|i: int| 0 <= i < index ==> node_valid(#[trigger] program@[i], i, terms as int),
        decreases count - index,
    {
        let valid: bool = match program[index] {
            Node::Term(term) => term < terms,
            Node::All => true,
            Node::Not(child) => child < index,
            Node::And(left, right) => left < index && right < index,
            Node::Or(left, right) => left < index && right < index,
            Node::Difference(left, right) => left < index && right < index,
        };
        if !valid {
            assert(!node_valid(program@[index as int], index as int, terms as int));
            return Err(Error::InvalidParameters);
        }
        index += 1;
    }
    Ok(())
}

/// Why a program cannot be evaluated, if it cannot.
pub open spec fn program_error(program: Seq<Node>, terms: int) -> Result<()> {
    if program.len() == 0 || program.len() > 64 || terms > 64 {
        Err(Error::Limit("group query nodes"))
    } else if program_valid(program, terms) {
        Ok(())
    } else {
        Err(Error::InvalidParameters)
    }
}

/// Combines the summaries of one node's operands.
fn combine_pages(node: Node, index: usize, pages: &Vec<PageMask>, live: &PageMask) -> (mask:
    PageMask)
    requires
        index <= pages@.len(),
        node_valid(node, index as int, 0) || node is Term,
        !(node is Term),
    ensures
        mask@ == (match node {
            Node::And(left, right) => candidate_pages(
                BitmapOp::Intersection,
                pages@[left as int]@,
                pages@[right as int]@,
                live@,
            ),
            Node::Or(left, right) => candidate_pages(
                BitmapOp::Union,
                pages@[left as int]@,
                pages@[right as int]@,
                live@,
            ),
            Node::Difference(left, right) => candidate_pages(
                BitmapOp::Difference,
                pages@[left as int]@,
                pages@[right as int]@,
                live@,
            ),
            _ => live@,
        }),
{
    match node {
        Node::And(left, right) => candidates(
            BitmapOp::Intersection,
            &pages[left],
            &pages[right],
            live,
        ),
        Node::Or(left, right) => candidates(BitmapOp::Union, &pages[left], &pages[right], live),
        Node::Difference(left, right) => candidates(
            BitmapOp::Difference,
            &pages[left],
            &pages[right],
            live,
        ),
        _ => *live,
    }
}

/// Marks the nodes that the result on a page depends on. Empty subexpressions
/// supply zero without decoding their descendants.
#[verifier::loop_isolation(false)]
fn dependencies(program: &[Node], pages: &Vec<PageMask>, page: u8) -> (mask: u64)
    requires
        0 < program@.len() <= 64,
        pages@.len() >= program@.len(),
        program_valid(program@, 64),
    ensures
        forall|i: int|
            0 <= i < program@.len() ==> #[trigger] bit(mask, i) == needed(
                program@,
                |k: int| pages@[k]@,
                page as int,
                i,
            ),
{
    let count: usize = program.len();
    let ghost summary = |k: int| pages@[k]@;
    let mut mask: u64 = 1u64 << ((count - 1) as u64);
    let mut index: usize = count;
    proof {
        assert forall|i: int| 0 <= i < count implies #[trigger] bit(mask, i) == (i == count - 1) by {
            bit_set(0, (count - 1) as u64, i as u64);
            bit_logic(0, 0, i as u64);
            assert(0u64 | (1u64 << ((count - 1) as u64)) == mask) by (bit_vector)
                requires
                    mask == 1u64 << ((count - 1) as u64),
            ;
        }
    }
    while index > 0
        invariant
            index <= count,
            forall|i: int|
                0 <= i < count ==> #[trigger] bit(mask, i) == (i == count - 1 || exists|parent: int|
                    i < parent < count && parent >= index && reads(#[trigger] program@[parent], i)
                        && member(summary(parent), page as int) && needed(
                        program@,
                        summary,
                        page as int,
                        parent,
                    )),
        decreases index,
    {
        index -= 1;
        let ghost before = mask;
        let wanted: bool = mask & (1u64 << (index as u64)) != 0;
        let present: bool = mask_has(&pages[index], page as usize);
        proof {
            bit_set(mask, index as u64, index as u64);
            assert(node_valid(program@[index as int], index as int, 64));
            assert(wanted == needed(program@, summary, page as int, index as int)) by {
                assert(bit(mask, index as int) == wanted);
                if wanted && index != count - 1 {
                    let parent = choose|parent: int|
                        index < parent < count && parent >= index + 1 && reads(
                            #[trigger] program@[parent],
                            index as int,
                        ) && member(summary(parent), page as int) && needed(
                            program@,
                            summary,
                            page as int,
                            parent,
                        );
                    assert(reads(program@[parent], index as int));
                }
                if needed(program@, summary, page as int, index as int) && index != count - 1 {
                    let parent = choose|parent: int|
                        index < parent < program@.len() && reads(
                            #[trigger] program@[parent],
                            index as int,
                        ) && member(summary(parent), page as int) && needed(
                            program@,
                            summary,
                            page as int,
                            parent,
                        );
                    assert(reads(program@[parent], index as int));
                }
            }
        }
        if wanted && present {
            match program[index] {
                Node::Not(child) => {
                    mask = mask | (1u64 << (child as u64));
                },
                Node::And(left, right) => {
                    mask = (mask | (1u64 << (left as u64))) | (1u64 << (right as u64));
                },
                Node::Or(left, right) => {
                    mask = (mask | (1u64 << (left as u64))) | (1u64 << (right as u64));
                },
                Node::Difference(left, right) => {
                    mask = (mask | (1u64 << (left as u64))) | (1u64 << (right as u64));
                },
                _ => {},
            }
        }
        proof {
            assert forall|i: int| 0 <= i < count implies #[trigger] bit(mask, i) == (bit(before, i)
                || (wanted && present && reads(program@[index as int], i))) by {
                match program@[index as int] {
                    Node::Not(child) => {
                        bit_set(before, child as u64, i as u64);
                    },
                    Node::And(left, right) => {
                        bit_set(before, left as u64, i as u64);
                        bit_set(before | (1u64 << (left as u64)), right as u64, i as u64);
                    },
                    Node::Or(left, right) => {
                        bit_set(before, left as u64, i as u64);
                        bit_set(before | (1u64 << (left as u64)), right as u64, i as u64);
                    },
                    Node::Difference(left, right) => {
                        bit_set(before, left as u64, i as u64);
                        bit_set(before | (1u64 << (left as u64)), right as u64, i as u64);
                    },
                    _ => {},
                }
            }
            assert forall|i: int| 0 <= i < count implies #[trigger] bit(mask, i) == (i == count - 1
                || exists|parent: int|
                i < parent < count && parent >= index && reads(#[trigger] program@[parent], i)
                    && member(summary(parent), page as int) && needed(
                    program@,
                    summary,
                    page as int,
                    parent,
                )) by {
                if wanted && present && reads(program@[index as int], i) {
                    assert(summary(index as int) == pages@[index as int]@);
                    assert(i < index);
                }
                if bit(before, i) && i != count - 1 {
                    let parent = choose|parent: int|
                        i < parent < count && parent >= index + 1 && reads(
                            #[trigger] program@[parent],
                            i,
                        ) && member(summary(parent), page as int) && needed(
                            program@,
                            summary,
                            page as int,
                            parent,
                        );
                    assert(reads(program@[parent], i));
                }
                if exists|parent: int|
                    i < parent < count && parent >= index && reads(#[trigger] program@[parent], i)
                        && member(summary(parent), page as int) && needed(
                        program@,
                        summary,
                        page as int,
                        parent,
                    ) {
                    let parent = choose|parent: int|
                        i < parent < count && parent >= index && reads(
                            #[trigger] program@[parent],
                            i,
                        ) && member(summary(parent), page as int) && needed(
                            program@,
                            summary,
                            page as int,
                            parent,
                        );
                    if parent == index {
                        assert(summary(index as int) == pages@[index as int]@);
                    } else {
                        assert(bit(before, i));
                    }
                }
            }
        }
    }
    mask
}

/// Combines the offsets of one node's operands on a page.
fn combine_offsets(node: Node, index: usize, masks: &Vec<OffsetMask>, live: &OffsetMask) -> (mask:
    OffsetMask)
    requires
        index <= masks@.len(),
        node_valid(node, index as int, 0),
        !(node is Term),
    ensures
        mask@ == (match node {
            Node::And(left, right) => matching_offsets(
                BitmapOp::Intersection,
                masks@[left as int]@,
                masks@[right as int]@,
                live@,
            ),
            Node::Or(left, right) => matching_offsets(
                BitmapOp::Union,
                masks@[left as int]@,
                masks@[right as int]@,
                live@,
            ),
            Node::Difference(left, right) => matching_offsets(
                BitmapOp::Difference,
                masks@[left as int]@,
                masks@[right as int]@,
                live@,
            ),
            Node::Not(child) => matching_offsets(
                BitmapOp::Difference,
                live@,
                masks@[child as int]@,
                live@,
            ),
            _ => live@,
        }),
{
    match node {
        Node::And(left, right) => offsets(
            BitmapOp::Intersection,
            &masks[left],
            &masks[right],
            live,
        ),
        Node::Or(left, right) => offsets(BitmapOp::Union, &masks[left], &masks[right], live),
        Node::Difference(left, right) => offsets(
            BitmapOp::Difference,
            &masks[left],
            &masks[right],
            live,
        ),
        Node::Not(child) => offsets(BitmapOp::Difference, live, &masks[child], live),
        _ => *live,
    }
}

/// Whether a node's mask is its match mask on a page.
spec fn node_mask(
    program: Seq<Node>,
    model: SourceModel,
    index: int,
    page: int,
    mask: Seq<u64>,
) -> bool {
    mask_is(mask, |b: int| holds(program, model, index, page, b))
}

proof fn combined_mask(
    program: Seq<Node>,
    model: SourceModel,
    index: int,
    page: int,
    live: Seq<u64>,
    left: Seq<u64>,
    right: Seq<u64>,
    result: Seq<u64>,
)
    requires
        program_valid(program, model.terms.len() as int),
        0 <= index < program.len(),
        mask_is(live, |b: int| (model.live)(page, b)),
        match program[index] {
            Node::And(l, r) => node_mask(program, model, l as int, page, left) && node_mask(
                program,
                model,
                r as int,
                page,
                right,
            ) && result == matching_offsets(BitmapOp::Intersection, left, right, live),
            Node::Or(l, r) => node_mask(program, model, l as int, page, left) && node_mask(
                program,
                model,
                r as int,
                page,
                right,
            ) && result == matching_offsets(BitmapOp::Union, left, right, live),
            Node::Difference(l, r) => node_mask(program, model, l as int, page, left) && node_mask(
                program,
                model,
                r as int,
                page,
                right,
            ) && result == matching_offsets(BitmapOp::Difference, left, right, live),
            Node::Not(c) => node_mask(program, model, c as int, page, right) && left == live
                && result == matching_offsets(BitmapOp::Difference, live, right, live),
            Node::All => result == live,
            Node::Term(t) => mask_is(left, |b: int| (model.terms[t as int])(page, b)) && result
                == matching_offsets(BitmapOp::Intersection, left, live, live),
        },
    ensures
        node_mask(program, model, index, page, result),
{
    assert(node_valid(program[index], index, model.terms.len() as int));
    assert forall|b: int|
        #![trigger member(result, b)]
        0 <= b < 512 implies member(result, b) == holds(program, model, index, page, b) by {
        assert(member(live, b) == (model.live)(page, b));
        match program[index] {
            Node::And(l, r) => {
                mask_logic(left, right, b);
                mask_logic(both(left, right), live, b);
            },
            Node::Or(l, r) => {
                mask_logic(left, right, b);
                mask_logic(either(left, right), live, b);
            },
            Node::Difference(l, r) => {
                mask_logic(left, right, b);
                mask_logic(minus(left, right), live, b);
            },
            Node::Not(c) => {
                mask_logic(live, right, b);
                mask_logic(minus(live, right), live, b);
            },
            Node::All => {},
            Node::Term(t) => {
                assert(member(left, b) == (model.terms[t as int])(page, b));
                mask_logic(left, live, b);
                mask_logic(both(left, live), live, b);
            },
        }
    }
}

/// Evaluates all needed nodes of a program on one page.
#[verifier::loop_isolation(false)]
fn evaluate_page<S: Source>(
    source: &mut S,
    program: &[Node],
    scratch: &mut QueryScratch,
    page: u8,
    live: &OffsetMask,
    stats: &mut QueryStats,
) -> (result: Result<()>)
    requires
        old(scratch).wf(),
        old(source).model().wf(),
        program_valid(program@, old(source).model().terms.len() as int),
        mask_is(live@, |b: int| (old(source).model().live)(page as int, b)),
        forall|i: int|
            0 <= i < program@.len() ==> (#[trigger] old(scratch).pages@[i])@ == node_pages(
                program@,
                old(source).model().live_pages,
                old(source).model().term_pages,
                i,
            ),
        old(stats).term_payloads <= 0x1_0000,
        old(stats).term_bytes <= 64 * old(stats).term_payloads,
    ensures
        final(scratch).wf(),
        final(scratch).pages == old(scratch).pages,
        final(source).model() == old(source).model(),
        final(source).faults() == old(source).faults(),
        result matches Err(error) ==> (old(source).faults())(error),
        final(stats).candidate_pages == old(stats).candidate_pages,
        final(stats).live_pages == old(stats).live_pages,
        final(stats).emitted_tids == old(stats).emitted_tids,
        final(stats).term_payloads <= old(stats).term_payloads + 64,
        final(stats).term_bytes <= 64 * final(stats).term_payloads,
        result is Ok ==> node_mask(
            program@,
            old(source).model(),
            program@.len() - 1,
            page as int,
            final(scratch).offsets@[program@.len() - 1]@,
        ),
{
    let ghost model = source.model();
    let count: usize = program.len();
    let wanted: u64 = dependencies(program, &scratch.pages, page);
    let ghost summary = |k: int| scratch.pages@[k]@;
    let ghost first_pages = scratch.pages;
    let mut index: usize = 0;
    while index < count
        invariant
            index <= count,
            scratch.wf(),
            scratch.pages == first_pages,
            first_pages == old(scratch).pages,
            source.model() == model,
            source.faults() == old(source).faults(),
            stats.candidate_pages == old(stats).candidate_pages,
            stats.live_pages == old(stats).live_pages,
            stats.emitted_tids == old(stats).emitted_tids,
            stats.term_payloads <= old(stats).term_payloads + index,
            stats.term_bytes <= 64 * stats.term_payloads,
            forall|i: int|
                0 <= i < index && needed(program@, summary, page as int, i) ==> #[trigger] node_mask(
                    program@,
                    model,
                    i,
                    page as int,
                    scratch.offsets@[i]@,
                ),
        decreases count - index,
    {
        let node: Node = program[index];
        let needed_here: bool = wanted & (1u64 << (index as u64)) != 0;
        proof {
            bit_set(wanted, index as u64, index as u64);
            assert(bit(wanted, index as int) == needed(program@, summary, page as int, index as int));
            assert(node_valid(program@[index as int], index as int, model.terms.len() as int));
        }
        if needed_here {
            let mut mask: OffsetMask = [0u64; 8];
            proof {
                empty_mask(mask@);
            }
            if !mask_has(&scratch.pages[index], page as usize) {
                proof {
                    assert(!member(
                        node_pages(program@, model.live_pages, model.term_pages, index as int),
                        page as int,
                    ));
                    assert forall|b: int|
                        #![trigger member(mask@, b)]
                        0 <= b < 512 implies member(mask@, b) == holds(
                        program@,
                        model,
                        index as int,
                        page as int,
                        b,
                    ) by {
                        if holds(program@, model, index as int, page as int, b) {
                            pruning_sound(program@, model, index as int, page as int, b);
                        }
                    }
                    assert(node_mask(program@, model, index as int, page as int, mask@));
                }
            } else {
                match node {
                    Node::Term(term) => {
                        proof {
                            let pages = model.term_pages[term as int];
                            mask_logic(pages, model.live_pages, page as int);
                            mask_logic(
                                both(pages, model.live_pages),
                                model.live_pages,
                                page as int,
                            );
                        }
                        let (found, bytes): (OffsetMask, usize) = source.term_offsets(term, page)?;
                        if bytes != 0 {
                            stats.term_payloads += 1;
                            stats.term_bytes += bytes as u32;
                        }
                        mask = offsets(BitmapOp::Intersection, &found, live, live);
                        proof {
                            combined_mask(
                                program@,
                                model,
                                index as int,
                                page as int,
                                live@,
                                found@,
                                live@,
                                mask@,
                            );
                        }
                    },
                    _ => {
                        mask = combine_offsets(node, index, &scratch.offsets, live);
                        proof {
                            assert(member(summary(index as int), page as int));
                            assert forall|child: int|
                                0 <= child < index && reads(
                                    program@[index as int],
                                    child,
                                ) implies #[trigger] node_mask(
                                program@,
                                model,
                                child,
                                page as int,
                                scratch.offsets@[child]@,
                            ) by {
                                assert(reads(program@[index as int], child));
                                assert(needed(program@, summary, page as int, child));
                            }
                            let (left, right) = match program@[index as int] {
                                Node::And(l, r) => (
                                    scratch.offsets@[l as int]@,
                                    scratch.offsets@[r as int]@,
                                ),
                                Node::Or(l, r) => (
                                    scratch.offsets@[l as int]@,
                                    scratch.offsets@[r as int]@,
                                ),
                                Node::Difference(l, r) => (
                                    scratch.offsets@[l as int]@,
                                    scratch.offsets@[r as int]@,
                                ),
                                Node::Not(c) => (live@, scratch.offsets@[c as int]@),
                                _ => (live@, live@),
                            };
                            combined_mask(
                                program@,
                                model,
                                index as int,
                                page as int,
                                live@,
                                left,
                                right,
                                mask@,
                            );
                        }
                    },
                }
            }
            scratch.offsets.set(index, mask);
        }
        index += 1;
    }
    Ok(())
}

/// Fills the page summaries of all nodes.
#[verifier::loop_isolation(false)]
fn summarize(
    program: &[Node],
    live: PageMask,
    terms: &[PageMask],
    scratch: &mut QueryScratch,
)
    requires
        old(scratch).wf(),
        program_valid(program@, terms@.len() as int),
    ensures
        final(scratch).wf(),
        forall|i: int|
            0 <= i < program@.len() ==> (#[trigger] final(scratch).pages@[i])@ == node_pages(
                program@,
                live@,
                term_masks(terms@),
                i,
            ),
{
    let count: usize = program.len();
    let mut index: usize = 0;
    while index < count
        invariant
            index <= count,
            scratch.wf(),
            forall|i: int|
                0 <= i < index ==> (#[trigger] scratch.pages@[i])@ == node_pages(
                    program@,
                    live@,
                    term_masks(terms@),
                    i,
                ),
        decreases count - index,
    {
        let node: Node = program[index];
        assert(node_valid(program@[index as int], index as int, terms@.len() as int));
        let mask: PageMask = match node {
            Node::Term(term) => candidates(BitmapOp::Intersection, &terms[term], &live, &live),
            _ => combine_pages(node, index, &scratch.pages, &live),
        };
        scratch.pages.set(index, mask);
        index += 1;
    }
}

/// Page masks as sequences.
pub open spec fn term_masks(terms: Seq<PageMask>) -> Seq<Seq<u64>> {
    terms.map_values(|mask: PageMask| mask@)
}

/// A page without matches does not show in the report.
proof fn skip_pages(program: Seq<Node>, model: SourceModel, low: int, high: int)
    requires
        0 <= low <= high <= 256,
        forall|page: int, b: int|
            low <= page < high && 0 <= b < 512 ==> !#[trigger] holds(
                program,
                model,
                program.len() - 1,
                page,
                b,
            ),
    ensures
        expected_from(program, model, low) == expected_from(program, model, high),
    decreases high - low,
{
    if low < high {
        skip_pages(program, model, low + 1, high);
    }
}

proof fn reported_push(blocks: Seq<(u32, Seq<u64>)>, entry: (u32, Seq<u64>))
    ensures
        reported(blocks.push(entry)) == reported(blocks) + count(entry.1),
{
    assert(blocks.push(entry).drop_last() =~= blocks);
}

/// Evaluates a program over a source, page by page.
#[verifier::loop_isolation(false)]
pub(crate) fn evaluate_source<S: Source, E: MatchSink>(
    source: &mut S,
    program: &[Node],
    scratch: &mut QueryScratch,
    sink: &mut E,
) -> (result: Result<QueryStats>)
    requires
        old(scratch).wf(),
    ensures
        final(scratch).wf(),
        final(source).model() == old(source).model(),
        final(source).faults() == old(source).faults(),
        result matches Err(error) ==> {
            ||| (old(source).faults())(error)
            ||| program_error(program@, old(source).model().terms.len() as int) == Err::<(), Error>(
                error,
            )
            ||| !old(sink).accepting()
        },
        result matches Ok(stats) ==> {
            let model = old(source).model();
            let report = expected_from(program@, model, 0);
            &&& program_valid(program@, model.terms.len() as int)
            &&& final(sink).received() == old(sink).received() + report
            &&& stats.emitted_tids == reported(report)
            &&& stats.candidate_pages == count(
                node_pages(program@, model.live_pages, model.term_pages, program@.len() - 1),
            )
            &&& stats.live_pages <= stats.candidate_pages
        },
{
    source.interrupt()?;
    let term_count: usize = source.terms();
    validate_program(term_count, program)?;
    let ghost model = source.model();
    let ghost root = program@.len() - 1;
    let live_pages: PageMask = source.live_pages();
    let mut masks: Vec<PageMask> = Vec::new();
    let mut t: usize = 0;
    while t < term_count
        invariant
            t <= term_count,
            masks@.len() == t,
            source.model() == model,
            source.faults() == old(source).faults(),
            forall|i: int| 0 <= i < t ==> (#[trigger] masks@[i])@ == model.term_pages[i],
        decreases term_count - t,
    {
        masks.push(source.term_pages(t));
        t += 1;
    }
    assert(term_masks(masks@) =~= model.term_pages);
    summarize(program, live_pages, masks.as_slice(), scratch);
    let ghost candidates_mask = node_pages(program@, model.live_pages, model.term_pages, root);
    proof {
        node_pages_len(program@, model.live_pages, model.term_pages, root);
    }
    let mut stats: QueryStats = QueryStats::default();
    let mut pages: Pages = Pages::new(scratch.pages[program.len() - 1]);
    let ghost all = pages@;
    let ghost mut done: int = 0;
    let ghost mut from: int = 0;
    let ghost mut report: Seq<(u32, Seq<u64>)> = Seq::empty();
    proof {
        assert(all.skip(0) =~= all);
        members_range(candidates_mask, 0);
        crate::mask::count_members(candidates_mask, 0);
        crate::mask::count_grows(candidates_mask, 0, 256);
        assert(expected_from(program@, model, 0) =~= report + expected_from(program@, model, 0));
        assert(sink.received() =~= old(sink).received() + report);
    }
    loop
        invariant
            0 <= done <= all.len() <= 256,
            pages@ == all.skip(done),
            0 <= from <= 256,
            from == (if done == 0 {
                0
            } else {
                all[done - 1] + 1
            }),
            scratch.wf(),
            source.model() == model,
            source.faults() == old(source).faults(),
            sink.accepting() == old(sink).accepting(),
            forall|i: int|
                0 <= i < program@.len() ==> (#[trigger] scratch.pages@[i])@ == node_pages(
                    program@,
                    model.live_pages,
                    model.term_pages,
                    i,
                ),
            sink.received() == old(sink).received() + report,
            expected_from(program@, model, 0) == report + expected_from(program@, model, from),
            stats.candidate_pages == done,
            stats.live_pages <= done,
            stats.emitted_tids == reported(report),
            stats.emitted_tids <= 512 * done,
            stats.term_payloads <= 64 * done,
            stats.term_bytes <= 64 * stats.term_payloads,
        decreases pages@.len(),
    {
        proof {
            if done < all.len() {
                assert(pages@[0] == all[done]);
                assert(pages@.drop_first() =~= all.skip(done + 1));
                assert(member(candidates_mask, all[done]));
                if done > 0 {
                    assert(all[done - 1] < all[done]);
                }
            }
            let limit = if done < all.len() {
                all[done]
            } else {
                256
            };
            assert forall|page: int, b: int|
                from <= page < limit && 0 <= b < 512 implies !#[trigger] holds(
                program@,
                model,
                root,
                page,
                b,
            ) by {
                if holds(program@, model, root, page, b) {
                    pruning_sound(program@, model, root, page, b);
                    assert(all.contains(page));
                    let k = choose|k: int| 0 <= k < all.len() && all[k] == page;
                    if k < done - 1 {
                        assert(all[k] < all[done - 1]);
                    } else if k > done {
                        assert(all[done] < all[k]);
                    }
                }
            }
            skip_pages(program@, model, from, limit);
        }
        let page: u8 = match pages.next() {
            None => {
                proof {
                    assert(expected_from(program@, model, 256) =~= Seq::empty());
                    assert(report + expected_from(program@, model, 256) =~= report);
                }
                return Ok(stats);
            },
            Some(page) => page,
        };
        source.interrupt()?;
        stats.candidate_pages += 1;
        let live: OffsetMask = source.live_offsets(page)?;
        let ghost named = |b: int| holds(program@, model, root, page as int, b);
        if mask_is_empty(&live) {
            proof {
                empty_mask(live@);
                assert forall|b: int| 0 <= b < 512 implies !#[trigger] named(b) by {
                    assert(member(live@, b) == (model.live)(page as int, b));
                }
                assert(expected_from(program@, model, page as int) == expected_from(
                    program@,
                    model,
                    page + 1,
                ));
            }
        } else {
            stats.live_pages += 1;
            evaluate_page(source, program, scratch, page, &live, &mut stats)?;
            let found: OffsetMask = scratch.offsets[program.len() - 1];
            let count: usize = mask_count_below(&found, 512);
            proof {
                mask_unique(found@, named);
                crate::mask::count_members(found@, 0);
                members_range(found@, 0);
                if count != 0 {
                    let list = mask_members(found@, 0);
                    assert(member(found@, list[0]));
                    assert(named(list[0]));
                } else {
                    assert forall|b: int| 0 <= b < 512 implies !#[trigger] named(b) by {
                        if named(b) {
                            assert(member(found@, b));
                            assert(mask_members(found@, 0).contains(b));
                        }
                    }
                }
            }
            if count != 0 {
                proof {
                    let list = mask_members(found@, 0);
                    assert((model.live)(page as int, list[0]));
                }
                let key: GroupKey = source.key();
                let block: u32 = key.block(page)?;
                let ghost entry = (block, found@);
                let ghost earlier = report;
                sink.emit(block, &found)?;
                stats.emitted_tids += count as u32;
                proof {
                    reported_push(report, entry);
                    report = report.push(entry);
                    assert(sink.received() =~= old(sink).received() + report);
                    assert(earlier + expected_from(program@, model, page as int) =~= report
                        + expected_from(program@, model, page + 1));
                }
            } else {
                assert(expected_from(program@, model, page as int) == expected_from(
                    program@,
                    model,
                    page + 1,
                ));
            }
        }
        proof {
            done = done + 1;
            from = page + 1;
        }
    }
}

/// What a segment and term records mark.
pub open spec fn segment_source(segment: SegmentModel, terms: Seq<BitmapModel>) -> SourceModel {
    SourceModel {
        key: segment.members.key,
        live_pages: segment.live.header.mask,
        live: |p: int, b: int| segment.live.holds(p, b),
        term_pages: terms.map_values(|term: BitmapModel| term.header.mask),
        terms: terms.map_values(|term: BitmapModel| |p: int, b: int| term.holds(p, b)),
    }
}

/// Records in memory as a source.
struct MemorySource<'a, 'b, I: Interrupt> {
    segment: &'a SegmentGroup<'b>,
    terms: &'a [Bitmap<'b>],
    interrupt: &'a mut I,
}

/// The models of term records.
pub open spec fn bitmap_models(terms: Seq<Bitmap<'_>>) -> Seq<BitmapModel> {
    terms.map_values(|term: Bitmap<'_>| term@)
}

pub proof fn bitmap_covers(model: BitmapModel)
    requires
        model.wf(),
    ensures
        forall|p: int, b: int|
            #![trigger model.holds(p, b)]
            model.holds(p, b) ==> member(model.header.mask, p) && 0 <= b < 512,
        forall|p: int| #[trigger]
            member(model.header.mask, p) ==> model.header.key.block_of(p) is Ok,
{
    assert forall|p: int, b: int|
        #![trigger model.holds(p, b)]
        model.holds(p, b) implies member(model.header.mask, p) && 0 <= b < 512 by {
        if member(model.header.mask, p) {
            span_inside(model, p);
        }
    }
    broadcast use GroupKey::of_parts;

}

pub proof fn same_bits_mask(model: BitmapModel, page: int, mask: Seq<u64>)
    requires
        model.wf(),
        mask.len() == 8,
        same_bits(mask, model.payload(page)),
    ensures
        mask_is(mask, |b: int| model.holds(page, b)),
{
    assert forall|b: int|
        #![trigger member(mask, b)]
        0 <= b < 512 implies member(mask, b) == model.holds(page, b) by {}
}

/// Whether a record holds a payload that is not canonical.
pub open spec fn payload_broken(model: BitmapModel) -> bool {
    exists|page: int| 0 <= page < 256 && !#[trigger] model.payload_valid(page)
}

/// The errors of reading records in memory: a broken payload is damage, and an
/// impatient caller may cancel with any error.
pub open spec fn record_faults(live: BitmapModel, terms: Seq<BitmapModel>, patient: bool) -> spec_fn(
    Error,
) -> bool {
    |error: Error|
        !patient || (error == Error::InvalidState && (payload_broken(live) || exists|t: int|
            0 <= t < terms.len() && payload_broken(#[trigger] terms[t])))
}

impl<'a, 'b, I: Interrupt> Source for MemorySource<'a, 'b, I> {
    closed spec fn faults(&self) -> spec_fn(Error) -> bool {
        record_faults(self.segment@.live, bitmap_models(self.terms@), self.interrupt.patient())
    }

    closed spec fn model(&self) -> SourceModel {
        segment_source(self.segment@, bitmap_models(self.terms@))
    }

    fn key(&self) -> (key: GroupKey) {
        self.segment.key()
    }

    fn terms(&self) -> (terms: usize) {
        let live: &Bitmap<'b> = self.segment.live();
        let pages: &PageMask = live.pages();
        let ghost model = self.model();
        let mut t: usize = 0;
        while t < self.terms.len()
            invariant
                t <= self.terms@.len(),
                forall|i: int|
                    0 <= i < t ==> (#[trigger] bitmap_models(self.terms@)[i]).wf(),
            decreases self.terms@.len() - t,
        {
            let term: Bitmap<'b> = self.terms[t];
            let mask: &PageMask = term.pages();
            assert(bitmap_models(self.terms@)[t as int] == term@);
            t += 1;
        }
        proof {
            let all = bitmap_models(self.terms@);
            bitmap_covers(self.segment@.live);
            assert forall|t: int| 0 <= t < model.terms.len() implies (
            #[trigger] model.term_pages[t]).len() == 4 by {
                assert(all[t].wf());
            }
            assert forall|t: int, p: int, b: int|
                #![trigger (model.terms[t])(p, b)]
                0 <= t < model.terms.len() && (model.terms[t])(p, b) implies member(
                model.term_pages[t],
                p,
            ) by {
                bitmap_covers(all[t]);
                assert(all[t].holds(p, b));
            }
            assert forall|p: int, b: int|
                #![trigger (model.live)(p, b)]
                (model.live)(p, b) implies member(model.live_pages, p) && 0 <= b < 512 by {
                assert(self.segment@.live.holds(p, b));
            }
        }
        self.terms.len()
    }

    fn live_pages(&self) -> (mask: PageMask) {
        *self.segment.live().pages()
    }

    fn term_pages(&self, term: usize) -> (mask: PageMask) {
        *self.terms[term].pages()
    }

    fn live_offsets(&mut self, page: u8) -> (result: Result<OffsetMask>) {
        let mask: OffsetMask = self.segment.live().offsets(page)?;
        proof {
            same_bits_mask(self.segment@.live, page as int, mask@);
        }
        Ok(mask)
    }

    fn term_offsets(&mut self, term: usize, page: u8) -> (result: Result<(OffsetMask, usize)>) {
        let record: Bitmap<'b> = self.terms[term];
        assert(bitmap_models(self.terms@)[term as int] == record@);
        let mask: OffsetMask = record.offsets(page)?;
        let size: usize = record.payload_bytes(page);
        proof {
            assert(bitmap_models(self.terms@)[term as int] == record@);
            same_bits_mask(record@, page as int, mask@);
        }
        Ok((mask, size))
    }

    fn interrupt(&mut self) -> (result: Result<()>) {
        self.interrupt.interrupt()
    }
}

/// Whether a term record belongs to a segment.
pub open spec fn term_bound(segment: SegmentModel, term: BitmapModel) -> bool {
    term.header.key == segment.members.key && term.kind() == BitmapKind::Posting
}

/// Emits complete Boolean matches as heap-ordered page/offset masks.
/// Terms must describe complete documents from this exact segment identity.
/// Only completed matches may be unioned with matches from other segments.
/// The host checks heap visibility and discards all output if a callback fails.
///
/// # Errors
/// Rejects oversized/invalid programs and identity mismatches before emission.
/// Payload corruption or callback errors can occur after earlier emitted pages.
#[verifier::loop_isolation(false)]
pub fn evaluate<I: Interrupt, E: MatchSink>(
    segment: &SegmentGroup<'_>,
    terms: &[Bitmap<'_>],
    program: &[Node],
    scratch: &mut QueryScratch,
    interrupt: &mut I,
    sink: &mut E,
) -> (result: Result<QueryStats>)
    requires
        old(scratch).wf(),
    ensures
        final(scratch).wf(),
        (exists|t: int|
            0 <= t < terms@.len() && !term_bound(segment@, (#[trigger] terms@[t])@)) ==> result
            == Err::<QueryStats, Error>(Error::InvalidState) && final(sink).received()
            == old(sink).received(),
        result matches Err(error) ==> {
            ||| error == Error::InvalidState && exists|t: int|
                0 <= t < terms@.len() && !term_bound(segment@, (#[trigger] terms@[t])@)
            ||| (record_faults(
                segment@.live,
                bitmap_models(terms@),
                old(interrupt).patient(),
            ))(error)
            ||| program_error(program@, terms@.len() as int) == Err::<(), Error>(error)
            ||| !old(sink).accepting()
        },
        result matches Ok(stats) ==> {
            let model = segment_source(segment@, bitmap_models(terms@));
            let report = expected_from(program@, model, 0);
            &&& program_valid(program@, terms@.len() as int)
            &&& final(sink).received() == old(sink).received() + report
            &&& stats.emitted_tids == reported(report)
            &&& stats.candidate_pages == count(
                node_pages(program@, model.live_pages, model.term_pages, program@.len() - 1),
            )
            &&& stats.live_pages <= stats.candidate_pages
        },
{
    let key: GroupKey = segment.key();
    let mut t: usize = 0;
    while t < terms.len()
        invariant
            t <= terms@.len(),
            sink.received() == old(sink).received(),
            scratch.wf(),
            forall|i: int| 0 <= i < t ==> term_bound(segment@, (#[trigger] terms@[i])@),
        decreases terms@.len() - t,
    {
        if terms[t].key() != key || terms[t].kind() != BitmapKind::Posting {
            assert(!term_bound(segment@, terms@[t as int]@));
            return Err(Error::InvalidState);
        }
        t += 1;
    }
    let mut source: MemorySource<'_, '_, I> = MemorySource { segment, terms, interrupt };
    evaluate_source(&mut source, program, scratch, sink)
}

/// Whether some page needs the offsets of a term.
pub open spec fn term_needed(
    program: Seq<Node>,
    live: Seq<u64>,
    terms: Seq<Seq<u64>>,
    term: int,
) -> bool {
    exists|page: int, index: int|
        0 <= page < 256 && 0 <= index < program.len() && #[trigger] term_needed_at(
            program,
            live,
            terms,
            term,
            page,
            index,
        )
}

/// Whether a page needs the offsets of a term for a node.
pub open spec fn term_needed_at(
    program: Seq<Node>,
    live: Seq<u64>,
    terms: Seq<Seq<u64>>,
    term: int,
    page: int,
    index: int,
) -> bool {
    &&& member(node_pages(program, live, terms, program.len() - 1), page)
    &&& needed(program, |k: int| node_pages(program, live, terms, k), page, index)
    &&& member(node_pages(program, live, terms, index), page)
    &&& program[index] matches Node::Term(number) && number == term
}

proof fn needed_agrees(
    program: Seq<Node>,
    left: spec_fn(int) -> Seq<u64>,
    right: spec_fn(int) -> Seq<u64>,
    page: int,
    index: int,
)
    requires
        0 <= index < program.len(),
        forall|k: int| 0 <= k < program.len() ==> #[trigger] left(k) == right(k),
    ensures
        needed(program, left, page, index) == needed(program, right, page, index),
    decreases program.len() - index,
{
    if index < program.len() - 1 {
        assert forall|parent: int| index < parent < program.len() implies #[trigger] needed(
            program,
            left,
            page,
            parent,
        ) == needed(program, right, page, parent) by {
            needed_agrees(program, left, right, page, parent);
        }
        if needed(program, left, page, index) {
            let parent = choose|parent: int|
                index < parent < program.len() && reads(#[trigger] program[parent], index)
                    && member(left(parent), page) && needed(program, left, page, parent);
            assert(left(parent) == right(parent));
            assert(needed(program, left, page, parent) == needed(program, right, page, parent));
            assert(reads(program[parent], index));
        }
        if needed(program, right, page, index) {
            let parent = choose|parent: int|
                index < parent < program.len() && reads(#[trigger] program[parent], index)
                    && member(right(parent), page) && needed(program, right, page, parent);
            assert(left(parent) == right(parent));
            assert(needed(program, left, page, parent) == needed(program, right, page, parent));
            assert(reads(program[parent], index));
        }
    }
}

/// Resolves demand using summaries alone, before the adapter reads bitmap extents.
#[verifier::loop_isolation(false)]
pub(crate) fn needed_terms(
    program: &[Node],
    live: PageMask,
    terms: &[PageMask],
    scratch: &mut QueryScratch,
) -> (result: Result<(PageMask, u64)>)
    requires
        old(scratch).wf(),
    ensures
        final(scratch).wf(),
        match program_error(program@, terms@.len() as int) {
            Err(error) => result == Err::<(PageMask, u64), Error>(error),
            Ok(_) => result matches Ok(found) && found.0@ == node_pages(
                program@,
                live@,
                term_masks(terms@),
                program@.len() - 1,
            ) && (forall|t: int|
                0 <= t < 64 ==> #[trigger] bit(found.1, t) == term_needed(
                    program@,
                    live@,
                    term_masks(terms@),
                    t,
                )),
        },
{
    validate_program(terms.len(), program)?;
    summarize(program, live, terms, scratch);
    let ghost masks = term_masks(terms@);
    let ghost root = program@.len() - 1;
    let pages: PageMask = scratch.pages[program.len() - 1];
    let mut found: u64 = 0;
    let mut iter: Pages = Pages::new(pages);
    let ghost all = iter@;
    let ghost mut done: int = 0;
    proof {
        assert(all.skip(0) =~= all);
        members_range(pages@, 0);
        assert forall|t: int| 0 <= t < 64 implies !#[trigger] bit(found, t) by {
            bit_logic(0, 0, t as u64);
        }
    }
    loop
        invariant
            0 <= done <= all.len(),
            iter@ == all.skip(done),
            scratch.wf(),
            forall|t: int|
                0 <= t < 64 ==> #[trigger] bit(found, t) == (exists|k: int, index: int|
                    0 <= k < done && 0 <= index < program@.len() && #[trigger] term_needed_at(
                        program@,
                        live@,
                        masks,
                        t,
                        all[k],
                        index,
                    )),
        decreases iter@.len(),
    {
        proof {
            if done < all.len() {
                assert(iter@[0] == all[done]);
                assert(iter@.drop_first() =~= all.skip(done + 1));
                assert(member(pages@, all[done]));
            }
        }
        match iter.next() {
            None => {
                proof {
                    assert forall|t: int| 0 <= t < 64 implies #[trigger] bit(found, t)
                        == term_needed(program@, live@, masks, t) by {
                        if bit(found, t) {
                            let (k, index) = choose|k: int, index: int|
                                0 <= k < done && 0 <= index < program@.len()
                                    && #[trigger] term_needed_at(
                                    program@,
                                    live@,
                                    masks,
                                    t,
                                    all[k],
                                    index,
                                );
                            assert(member(pages@, all[k]));
                            assert(term_needed_at(program@, live@, masks, t, all[k], index));
                        }
                        if term_needed(program@, live@, masks, t) {
                            let (page, index) = choose|page: int, index: int|
                                0 <= page < 256 && 0 <= index < program@.len()
                                    && #[trigger] term_needed_at(
                                    program@,
                                    live@,
                                    masks,
                                    t,
                                    page,
                                    index,
                                );
                            assert(all.contains(page));
                            let k = choose|k: int| 0 <= k < all.len() && all[k] == page;
                            assert(term_needed_at(program@, live@, masks, t, all[k], index));
                        }
                    }
                }
                return Ok((pages, found));
            },
            Some(page) => {
                let wanted: u64 = dependencies(program, &scratch.pages, page);
                let ghost before = found;
                let ghost summary = |k: int| scratch.pages@[k]@;
                let ghost exact = |k: int| node_pages(program@, live@, masks, k);
                let mut index: usize = 0;
                while index < program.len()
                    invariant
                        index <= program@.len(),
                        forall|t: int|
                            0 <= t < 64 ==> #[trigger] bit(found, t) == (bit(before, t) || exists|i: int|
                                0 <= i < index && #[trigger] term_needed_at(
                                    program@,
                                    live@,
                                    masks,
                                    t,
                                    page as int,
                                    i,
                                )),
                    decreases program@.len() - index,
                {
                    let ghost earlier = found;
                    let needed_here: bool = wanted & (1u64 << (index as u64)) != 0;
                    let present: bool = mask_has(&scratch.pages[index], page as usize);
                    proof {
                        bit_set(wanted, index as u64, index as u64);
                        assert(bit(wanted, index as int) == needed(
                            program@,
                            summary,
                            page as int,
                            index as int,
                        ));
                        needed_agrees(program@, summary, exact, page as int, index as int);
                        assert(node_valid(
                            program@[index as int],
                            index as int,
                            terms@.len() as int,
                        ));
                    }
                    if needed_here && present {
                        if let Node::Term(term) = program[index] {
                            found = found | (1u64 << (term as u64));
                            proof {
                                assert forall|t: int| 0 <= t < 64 implies #[trigger] bit(found, t)
                                    == (bit(earlier, t) || t == term) by {
                                    bit_set(earlier, term as u64, t as u64);
                                }
                            }
                        }
                    }
                    proof {
                        assert forall|t: int| 0 <= t < 64 implies #[trigger] bit(found, t) == (bit(
                            before,
                            t,
                        ) || exists|i: int|
                            0 <= i < index + 1 && #[trigger] term_needed_at(
                                program@,
                                live@,
                                masks,
                                t,
                                page as int,
                                i,
                            )) by {
                            let here = term_needed_at(
                                program@,
                                live@,
                                masks,
                                t,
                                page as int,
                                index as int,
                            );
                            assert(bit(found, t) == (bit(earlier, t) || here));
                            if exists|i: int|
                                0 <= i < index && #[trigger] term_needed_at(
                                    program@,
                                    live@,
                                    masks,
                                    t,
                                    page as int,
                                    i,
                                ) {
                                let i = choose|i: int|
                                    0 <= i < index && #[trigger] term_needed_at(
                                        program@,
                                        live@,
                                        masks,
                                        t,
                                        page as int,
                                        i,
                                    );
                                assert(term_needed_at(program@, live@, masks, t, page as int, i));
                            }
                            if exists|i: int|
                                0 <= i < index + 1 && #[trigger] term_needed_at(
                                    program@,
                                    live@,
                                    masks,
                                    t,
                                    page as int,
                                    i,
                                ) {
                                let i = choose|i: int|
                                    0 <= i < index + 1 && #[trigger] term_needed_at(
                                        program@,
                                        live@,
                                        masks,
                                        t,
                                        page as int,
                                        i,
                                    );
                                if i < index {
                                    assert(bit(earlier, t));
                                }
                            }
                        }
                    }
                    index += 1;
                }
                proof {
                    assert forall|t: int| 0 <= t < 64 implies #[trigger] bit(found, t) == (exists|
                        k: int,
                        index: int,
                    |
                        0 <= k < done + 1 && 0 <= index < program@.len()
                            && #[trigger] term_needed_at(
                            program@,
                            live@,
                            masks,
                            t,
                            all[k],
                            index,
                        )) by {
                        if bit(before, t) {
                            let (k, index) = choose|k: int, index: int|
                                0 <= k < done && 0 <= index < program@.len()
                                    && #[trigger] term_needed_at(
                                    program@,
                                    live@,
                                    masks,
                                    t,
                                    all[k],
                                    index,
                                );
                            assert(term_needed_at(program@, live@, masks, t, all[k], index));
                        } else if bit(found, t) {
                            let i = choose|i: int|
                                0 <= i < program@.len() && #[trigger] term_needed_at(
                                    program@,
                                    live@,
                                    masks,
                                    t,
                                    page as int,
                                    i,
                                );
                            assert(term_needed_at(program@, live@, masks, t, all[done], i));
                        }
                        if exists|k: int, index: int|
                            0 <= k < done + 1 && 0 <= index < program@.len()
                                && #[trigger] term_needed_at(
                                program@,
                                live@,
                                masks,
                                t,
                                all[k],
                                index,
                            ) {
                            let (k, index) = choose|k: int, index: int|
                                0 <= k < done + 1 && 0 <= index < program@.len()
                                    && #[trigger] term_needed_at(
                                    program@,
                                    live@,
                                    masks,
                                    t,
                                    all[k],
                                    index,
                                );
                            if k < done {
                                assert(bit(before, t));
                            } else {
                                assert(term_needed_at(
                                    program@,
                                    live@,
                                    masks,
                                    t,
                                    page as int,
                                    index,
                                ));
                            }
                        }
                    }
                    done = done + 1;
                }
            },
        }
    }
}

} // verus!
