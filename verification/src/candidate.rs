//! Bounded term covers for lossy bitmap scans, not exact search results.
//! Terms borrow the validated query; no document-sized result set is retained.
//! Every exact match is covered; the host rechecks all returned heap tuples.

use crate::budget::{BudgetError, MemoryBudget};
use crate::error::{Error, Result};
use crate::memory::{out_of_memory, vector};
use crate::query::{phrase_at, Kind, KindModel, Query, QueryModel};
use crate::sort::{ranked, rearranged, sorted, Ranked};
use crate::text::{precedes, precedes_total, precedes_transitive, same_bytes, text_bytes};
use vstd::prelude::*;

verus! {

/// A union of term postings, or the complete indexed non-null universe.
#[derive(Debug)]
pub enum CandidatePlan<'q> {
    Empty,
    Universe,
    Terms(Vec<&'q str>),
}

/// The cost that stands for the whole universe.
pub const ALL: usize = usize::MAX;

impl QueryModel {
    /// How many postings the cover of a node probes; `ALL` for the universe.
    pub open spec fn cost(self, index: int) -> int
        decreases index,
    {
        match self.nodes[index] {
            KindModel::Nothing => 0,
            KindModel::Term(_) => 1,
            KindModel::Phrase(terms) => if terms.len() == 0 {
                0
            } else {
                1
            },
            KindModel::Prefix(_) => ALL as int,
            KindModel::Not(_) => ALL as int,
            KindModel::And(left, right) => if 0 <= left < index && 0 <= right < index {
                if self.cost(left) <= self.cost(right) {
                    self.cost(left)
                } else {
                    self.cost(right)
                }
            } else {
                0
            },
            KindModel::Or(left, right) => if 0 <= left < index && 0 <= right < index {
                if self.cost(left) == ALL || self.cost(right) == ALL {
                    ALL as int
                } else {
                    self.cost(left) + self.cost(right)
                }
            } else {
                0
            },
        }
    }

    /// Whether every cost can be counted.
    pub open spec fn countable(self) -> bool {
        forall|i: int| 0 <= i < self.nodes.len() ==> #[trigger] self.cost(i) <= ALL
    }

    /// The terms of the cover of a node: of a conjunction the cheaper side, of
    /// a disjunction both.
    pub open spec fn cover(self, index: int) -> Set<Seq<u8>>
        decreases index,
    {
        if self.cost(index) == 0 {
            Set::empty()
        } else {
            match self.nodes[index] {
                KindModel::Term(term) => set![term],
                KindModel::Phrase(terms) => set![terms[0]],
                KindModel::And(left, right) => if 0 <= left < index && 0 <= right < index {
                    if self.cost(left) <= self.cost(right) {
                        self.cover(left)
                    } else {
                        self.cover(right)
                    }
                } else {
                    Set::empty()
                },
                KindModel::Or(left, right) => if 0 <= left < index && 0 <= right < index {
                    self.cover(left).union(self.cover(right))
                } else {
                    Set::empty()
                },
                _ => Set::empty(),
            }
        }
    }

    /// How many visits the collection of a node's cover takes.
    spec fn visits(self, index: int) -> nat
        decreases index,
    {
        match self.nodes[index] {
            KindModel::And(left, right) => if 0 <= left < index && 0 <= right < index {
                1 + self.visits(left) + self.visits(right)
            } else {
                1
            },
            KindModel::Or(left, right) => if 0 <= left < index && 0 <= right < index {
                1 + self.visits(left) + self.visits(right)
            } else {
                1
            },
            _ => 1,
        }
    }
}

/// Whether a term is among those listed.
pub open spec fn listed(terms: Seq<&str>, term: Seq<u8>) -> bool {
    exists|i: int| 0 <= i < terms.len() && text_bytes(#[trigger] terms[i]) == term
}

/// Whether the terms stand in strictly ascending order.
pub open spec fn ascending(terms: Seq<&str>) -> bool {
    forall|i: int, j: int|
        0 <= i < j < terms.len() ==> precedes(
            text_bytes(#[trigger] terms[i]),
            text_bytes(#[trigger] terms[j]),
        )
}

impl<'q> CandidatePlan<'q> {
    /// Whether the plan is the cover of the query.
    pub open spec fn is_cover(self, query: QueryModel) -> bool {
        match self {
            CandidatePlan::Empty => query.cost(query.root) == 0,
            CandidatePlan::Universe => query.cost(query.root) == ALL,
            CandidatePlan::Terms(terms) => {
                &&& 0 < query.cost(query.root) < ALL
                &&& ascending(terms@)
                &&& forall|term: Seq<u8>|
                    #[trigger] listed(terms@, term) <==> query.cover(query.root).contains(term)
            },
        }
    }

    /// Whether a document, as its words in order, is among the candidates.
    pub open spec fn admits(self, document: Seq<Seq<u8>>) -> bool {
        match self {
            CandidatePlan::Empty => false,
            CandidatePlan::Universe => true,
            CandidatePlan::Terms(terms) => exists|term: Seq<u8>|
                #[trigger] listed(terms@, term) && document.contains(term),
        }
    }

    /// Builds a necessary-condition cover with bounded, fallible scratch.
    ///
    /// A conjunction selects the smaller cover; a disjunction retains both.
    /// Negation and prefix matching use the universe. The cost is a probe-count
    /// heuristic, not a selectivity estimate.
    ///
    /// # Errors
    /// Returns allocation, arithmetic, or memory-budget errors without a partial plan.
    /// The budget includes peak scratch capacity but excludes the borrowed query.
    pub fn build(query: &'q Query, memory_bytes: usize) -> (result: Result<Self>)
        ensures
            match result {
                Ok(plan) => query@.countable() && plan.is_cover(query@),
                Err(error) => out_of_memory(error) || (!query@.countable() && error
                    == Error::Limit("candidate covers")),
            },
            query@.nodes.len() * vstd::layout::size_of::<usize>() > memory_bytes ==> (result
                matches Err(error) && error == Error::Budget(BudgetError::LimitExceeded)),
    {
        let mut budget: MemoryBudget = MemoryBudget::new(memory_bytes);
        let count: usize = query.node_count();
        let room: Vec<usize> = vector(count, &mut budget)?;
        let costs: Vec<usize> = costs_of(query, room)?;
        let root: usize = query.root();
        if costs[root] == 0 || costs[root] == ALL {
            return Ok(CandidatePlan::finish(query, costs, Vec::new(), Vec::new()));
        }
        let pending: Vec<usize> = vector(count, &mut budget)?;
        let terms: Vec<&'q str> = vector(costs[root], &mut budget)?;
        Ok(CandidatePlan::finish(query, costs, pending, terms))
    }

    /// Plans in memory that was given for the costs, the pending nodes and the terms.
    ///
    /// # Errors
    /// Rejects a query with more cover terms than can be counted.
    pub fn build_in(
        query: &'q Query,
        costs: Vec<usize>,
        pending: Vec<usize>,
        terms: Vec<&'q str>,
    ) -> (result: Result<Self>)
        requires
            costs@.len() == 0,
            pending@.len() == 0,
            terms@.len() == 0,
        ensures
            if query@.countable() {
                result matches Ok(plan) && plan.is_cover(query@)
            } else {
                result matches Err(error) && error == Error::Limit("candidate covers")
            },
    {
        let costs: Vec<usize> = costs_of(query, costs)?;
        Ok(CandidatePlan::finish(query, costs, pending, terms))
    }

    /// The plan of a query with known costs.
    fn finish(
        query: &'q Query,
        costs: Vec<usize>,
        pending: Vec<usize>,
        given: Vec<&'q str>,
    ) -> (plan: Self)
        requires
            query@.wf(),
            query@.countable(),
            costs@.len() == query@.nodes.len(),
            forall|i: int| 0 <= i < costs@.len() ==> costs@[i] == #[trigger] query@.cost(i),
            pending@.len() == 0,
            given@.len() == 0,
        ensures
            plan.is_cover(query@),
    {
        let root: usize = query.root();
        if costs[root] == 0 {
            return CandidatePlan::Empty;
        }
        if costs[root] == ALL {
            return CandidatePlan::Universe;
        }
        let terms: Vec<&'q str> = collect(query, &costs, pending, given);
        // repeated clauses need one posting probe.
        let ordered: Vec<&'q str> = sorted(terms);
        proof {
            same_listed(ordered@, terms@);
        }
        let distinct: Vec<&'q str> = deduplicated(ordered);
        CandidatePlan::Terms(distinct)
    }
}

/// Two lists with the same elements list the same terms.
proof fn same_listed(values: Seq<&str>, others: Seq<&str>)
    requires
        rearranged(values, others),
    ensures
        forall|term: Seq<u8>| #[trigger] listed(values, term) <==> listed(others, term),
{
    broadcast use vstd::seq_lib::group_to_multiset_ensures;

    assert forall|term: Seq<u8>| #[trigger] listed(values, term) <==> listed(others, term) by {
        if listed(values, term) {
            let i = choose|i: int| 0 <= i < values.len() && text_bytes(#[trigger] values[i]) == term;
            assert(values.contains(values[i]));
            assert(others.to_multiset().count(values[i]) > 0);
            assert(others.contains(values[i]));
        }
        if listed(others, term) {
            let i = choose|i: int| 0 <= i < others.len() && text_bytes(#[trigger] others[i]) == term;
            assert(others.contains(others[i]));
            assert(values.to_multiset().count(others[i]) > 0);
            assert(values.contains(others[i]));
        }
    }
}

/// The cost of each node.
#[verifier::loop_isolation(false)]
fn costs_of(query: &Query, given: Vec<usize>) -> (result: Result<Vec<usize>>)
    requires
        given@.len() == 0,
    ensures
        match result {
            Ok(costs) => {
                &&& query@.countable()
                &&& query@.wf()
                &&& costs@.len() == query@.nodes.len()
                &&& forall|i: int| 0 <= i < costs@.len() ==> costs@[i] == #[trigger] query@.cost(i)
            },
            Err(error) => !query@.countable() && error == Error::Limit("candidate covers"),
        },
{
    let count: usize = query.node_count();
    let mut costs: Vec<usize> = given;
    let mut index: usize = 0;
    while index < count
        invariant
            index <= count,
            costs@.len() == index,
            forall|i: int| 0 <= i < index ==> costs@[i] == #[trigger] query@.cost(i),
        decreases count - index,
    {
        assert(crate::query::ordered(query@.nodes[index as int], index as int));
        let cost: usize = match &query.node(index).kind {
            Kind::Nothing => 0,
            Kind::Term(_) => 1,
            Kind::Phrase(terms) => if terms.len() == 0 {
                0
            } else {
                1
            },
            Kind::Prefix(_) => ALL,
            Kind::Not(_) => ALL,
            Kind::And(left, right) => {
                assert(costs@[*left as int] == query@.cost(*left as int));
                assert(costs@[*right as int] == query@.cost(*right as int));
                if costs[*left] <= costs[*right] {
                    costs[*left]
                } else {
                    costs[*right]
                }
            },
            Kind::Or(left, right) => {
                assert(costs@[*left as int] == query@.cost(*left as int));
                assert(costs@[*right as int] == query@.cost(*right as int));
                if costs[*left] == ALL || costs[*right] == ALL {
                    ALL
                } else {
                    match costs[*left].checked_add(costs[*right]) {
                        Some(sum) => sum,
                        None => {
                            assert(query@.cost(index as int) > ALL);
                            return Err(Error::Limit("candidate covers"));
                        },
                    }
                }
            },
        };
        costs.push(cost);
        index += 1;
    }
    Ok(costs)
}

/// The cover terms that are still to be visited.
spec fn pending_cover(query: QueryModel, pending: Seq<usize>) -> Set<Seq<u8>>
    decreases pending.len(),
{
    if pending.len() == 0 {
        Set::empty()
    } else {
        pending_cover(query, pending.drop_last()).union(query.cover(pending.last() as int))
    }
}

/// How many visits are still to come.
spec fn pending_visits(query: QueryModel, pending: Seq<usize>) -> nat
    decreases pending.len(),
{
    if pending.len() == 0 {
        0
    } else {
        pending_visits(query, pending.drop_last()) + query.visits(pending.last() as int)
    }
}

/// The terms of the cover, in the order of the visit.
#[verifier::loop_isolation(false)]
fn collect<'q>(
    query: &'q Query,
    costs: &Vec<usize>,
    room: Vec<usize>,
    given: Vec<&'q str>,
) -> (found: Vec<&'q str>)
    requires
        room@.len() == 0,
        given@.len() == 0,
        query@.wf(),
        costs@.len() == query@.nodes.len(),
        forall|i: int| 0 <= i < costs@.len() ==> costs@[i] == #[trigger] query@.cost(i),
        0 < query@.cost(query@.root) < ALL,
    ensures
        forall|term: Seq<u8>|
            #[trigger] listed(found@, term) <==> query@.cover(query@.root).contains(term),
{
    let root: usize = query.root();
    let mut pending: Vec<usize> = room;
    let mut terms: Vec<&'q str> = given;
    pending.push(root);
    assert(pending@.drop_last() =~= Seq::<usize>::empty());
    proof {
        reveal_with_fuel(pending_cover, 2);
    }
    loop
        invariant
            forall|i: int|
                0 <= i < pending@.len() ==> (#[trigger] pending@[i]) < query@.nodes.len()
                    && query@.cost(pending@[i] as int) < ALL,
            forall|term: Seq<u8>|
                (#[trigger] listed(terms@, term) || pending_cover(query@, pending@).contains(term))
                    <==> query@.cover(query@.root).contains(term),
        decreases pending_visits(query@, pending@),
    {
        let ghost before = pending@;
        let ghost met = terms@;
        let ghost goal = query@.cover(query@.root);
        assert forall|term: Seq<u8>|
            (#[trigger] listed(met, term) || pending_cover(query@, before).contains(term))
                <==> goal.contains(term) by {}
        let index: usize = match pending.pop() {
            Some(index) => index,
            None => {
                return terms;
            },
        };
        let ghost rest = pending@;
        assert(rest =~= before.drop_last());
        assert(before.last() == index && index < query@.nodes.len());
        if costs[index] == 0 {
            assert(query@.cover(index as int) =~= Set::<Seq<u8>>::empty());
            assert(pending_cover(query@, rest) =~= pending_cover(query@, before));
            assert forall|term: Seq<u8>|
                (#[trigger] listed(terms@, term) || pending_cover(query@, pending@).contains(term))
                    <==> query@.cover(query@.root).contains(term) by {
                assert((listed(met, term) || pending_cover(query@, before).contains(term))
                    <==> goal.contains(term));
            }
            continue;
        }
        assert(crate::query::ordered(query@.nodes[index as int], index as int));
        assert(query@.cost(index as int) == costs@[index as int]);
        match &query.node(index).kind {
            Kind::Term(term) => {
                terms.push(term.as_str());
                proof {
                    assert(terms@.drop_last() =~= met);
                    list_more(met, terms@);
                }
            },
            Kind::Phrase(phrase) => {
                if phrase.len() > 0 {
                    terms.push(phrase[0].as_str());
                    proof {
                        assert(terms@.drop_last() =~= met);
                    list_more(met, terms@);
                    }
                }
            },
            Kind::And(left, right) => {
                assert(query@.cost(*left as int) == costs@[*left as int]);
                assert(query@.cost(*right as int) == costs@[*right as int]);
                let child: usize = if costs[*left] <= costs[*right] {
                    *left
                } else {
                    *right
                };
                pending.push(child);
                assert(pending@.drop_last() =~= rest);
            },
            Kind::Or(left, right) => {
                assert(query@.cost(*left as int) == costs@[*left as int]);
                assert(query@.cost(*right as int) == costs@[*right as int]);
                pending.push(*right);
                assert(pending@.drop_last() =~= rest);
                let ghost one = pending@;
                pending.push(*left);
                assert(pending@.drop_last() =~= one);
                proof {
                    reveal_with_fuel(pending_cover, 3);
                    reveal_with_fuel(pending_visits, 3);
                }
            },
            _ => {
                assert(false);
            },
        }
        assert forall|term: Seq<u8>|
            (#[trigger] listed(terms@, term) || pending_cover(query@, pending@).contains(term))
                <==> query@.cover(query@.root).contains(term) by {
            assert((listed(met, term) || pending_cover(query@, before).contains(term))
                <==> goal.contains(term));
        }
    }
}

/// Appending a text lists it as well.
proof fn list_more(before: Seq<&str>, after: Seq<&str>)
    requires
        after.len() == before.len() + 1,
        after.drop_last() == before,
    ensures
        forall|term: Seq<u8>|
            #[trigger] listed(after, term) <==> listed(before, term) || text_bytes(after.last())
                == term,
{
    assert forall|term: Seq<u8>|
        #[trigger] listed(after, term) <==> listed(before, term) || text_bytes(after.last())
            == term by {
        if listed(after, term) {
            let i = choose|i: int| 0 <= i < after.len() && text_bytes(#[trigger] after[i]) == term;
            if i < before.len() {
                assert(before[i] == after[i]);
            }
        }
        if listed(before, term) {
            let i = choose|i: int| 0 <= i < before.len() && text_bytes(#[trigger] before[i]) == term;
            assert(after[i] == before[i]);
        }
        if text_bytes(after.last()) == term {
            assert(text_bytes(after[before.len() as int]) == term);
        }
    }
}

/// Keeps the first of each run of equal texts.
#[verifier::loop_isolation(false)]
fn deduplicated<'q>(terms: Vec<&'q str>) -> (distinct: Vec<&'q str>)
    requires
        ranked(terms@),
    ensures
        ascending(distinct@),
        forall|term: Seq<u8>| #[trigger] listed(distinct@, term) <==> listed(terms@, term),
{
    let mut distinct: Vec<&'q str> = Vec::new();
    let mut i: usize = 0;
    assert(terms@.take(0) =~= distinct@);
    while i < terms.len()
        invariant
            i <= terms@.len(),
            ascending(distinct@),
            forall|term: Seq<u8>|
                #[trigger] listed(distinct@, term) <==> listed(terms@.take(i as int), term),
            distinct@.len() > 0 ==> i > 0 && text_bytes(distinct@.last()) == text_bytes(
                terms@[i - 1],
            ),
            distinct@.len() == 0 ==> i == 0,
        decreases terms@.len() - i,
    {
        let ghost before = distinct@;
        proof {
            assert(terms@.take(i + 1).drop_last() =~= terms@.take(i as int));
            list_more(terms@.take(i as int), terms@.take(i + 1));
        }
        let count: usize = distinct.len();
        let repeated: bool = if count == 0 {
            false
        } else {
            same_bytes(distinct[count - 1].as_bytes(), terms[i].as_bytes())
        };
        if !repeated {
            distinct.push(terms[i]);
            proof {
                assert(distinct@.drop_last() =~= before);
                list_more(before, distinct@);
                if before.len() > 0 {
                    assert(terms@[i - 1].at_most(terms@[i as int]));
                    precedes_total(text_bytes(terms@[i - 1]), text_bytes(terms@[i as int]));
                    assert forall|k: int| 0 <= k < before.len() implies precedes(
                        text_bytes(#[trigger] distinct@[k]),
                        text_bytes(terms@[i as int]),
                    ) by {
                        assert(distinct@[k] == before[k]);
                        if k < before.len() - 1 {
                            assert(precedes(text_bytes(before[k]), text_bytes(before.last())));
                            precedes_transitive(
                                text_bytes(before[k]),
                                text_bytes(before.last()),
                                text_bytes(terms@[i as int]),
                            );
                        }
                    }
                }
            }
        } else {
            assert(listed(before, text_bytes(terms@[i as int]))) by {
                assert(text_bytes(before[before.len() - 1]) == text_bytes(terms@[i as int]));
            }
        }
        i += 1;
    }
    assert(terms@.take(i as int) =~= terms@);
    distinct
}

/// A node that holds of a document has a cover that meets the document: its
/// cost is not zero, and below `ALL` some cover term is a word of the document.
pub proof fn cover_sound(query: QueryModel, index: int, document: Seq<Seq<u8>>)
    requires
        query.wf(),
        0 <= index < query.nodes.len(),
        query.holds_at(index, document),
    ensures
        query.cost(index) != 0,
        query.cost(index) != ALL ==> exists|term: Seq<u8>|
            #[trigger] query.cover(index).contains(term) && document.contains(term),
    decreases index,
{
    assert(crate::query::ordered(query.nodes[index], index));
    match query.nodes[index] {
        KindModel::Term(term) => {
            assert(query.cover(index).contains(term));
        },
        KindModel::Phrase(terms) => {
            let start = choose|start: int| #[trigger] phrase_at(document, terms, start);
            assert(document.subrange(start, start + terms.len())[0] == document[start]);
            assert(document.contains(terms[0]));
            assert(query.cover(index).contains(terms[0]));
        },
        KindModel::And(left, right) => {
            cover_sound(query, left, document);
            cover_sound(query, right, document);
            let child = if query.cost(left) <= query.cost(right) {
                left
            } else {
                right
            };
            if query.cost(index) != ALL {
                let term = choose|term: Seq<u8>|
                    #[trigger] query.cover(child).contains(term) && document.contains(term);
                assert(query.cover(index) == query.cover(child));
                assert(query.cover(index).contains(term));
            }
        },
        KindModel::Or(left, right) => {
            costs_nonnegative(query, left);
            costs_nonnegative(query, right);
            if query.holds_at(left, document) {
                cover_sound(query, left, document);
                if query.cost(index) != ALL {
                    let term = choose|term: Seq<u8>|
                        #[trigger] query.cover(left).contains(term) && document.contains(term);
                    assert(query.cover(index).contains(term));
                }
            } else {
                cover_sound(query, right, document);
                if query.cost(index) != ALL {
                    let term = choose|term: Seq<u8>|
                        #[trigger] query.cover(right).contains(term) && document.contains(term);
                    assert(query.cover(index).contains(term));
                }
            }
        },
        _ => {},
    }
}

proof fn costs_nonnegative(query: QueryModel, index: int)
    requires
        query.wf(),
        0 <= index < query.nodes.len(),
    ensures
        query.cost(index) >= 0,
    decreases index,
{
    assert(crate::query::ordered(query.nodes[index], index));
    match query.nodes[index] {
        KindModel::And(left, right) => {
            costs_nonnegative(query, left);
            costs_nonnegative(query, right);
        },
        KindModel::Or(left, right) => {
            costs_nonnegative(query, left);
            costs_nonnegative(query, right);
        },
        _ => {},
    }
}

/// Every exact match is covered: a plan that is the cover of a query admits
/// every document that satisfies the query.
pub proof fn plan_covers_matches(query: QueryModel, plan: CandidatePlan<'_>, document: Seq<Seq<u8>>)
    requires
        query.wf(),
        plan.is_cover(query),
        query.holds(document),
    ensures
        plan.admits(document),
{
    cover_sound(query, query.root, document);
    if let CandidatePlan::Terms(terms) = plan {
        let term = choose|term: Seq<u8>|
            #[trigger] query.cover(query.root).contains(term) && document.contains(term);
        assert(listed(terms@, term));
    }
}

} // verus!
