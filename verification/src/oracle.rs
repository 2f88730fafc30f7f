//! Document-at-a-time evaluation, independent of dictionaries and postings.
//! Phrase windows check distinct occurrences; null remains outside the two values.

use crate::analysis::Analyzed;
use crate::budget::{BudgetError, MemoryBudget};
use crate::error::{Error, Result};
use crate::memory::{out_of_memory, vector, Work};
use crate::query::{
    phrase_at, phrase_present, prefix_present, starts_with, texts, Kind, KindModel, Query,
    QueryModel,
};
use crate::text::{bytes_start_with, same_bytes, text_bytes};
use vstd::prelude::*;
use vstd::utf8::encode_utf8;

verus! {

/// The steps of looking for a term from a position on.
pub open spec fn term_steps(words: Seq<Seq<u8>>, term: Seq<u8>, from: int) -> int
    decreases words.len() - from,
{
    if from >= words.len() {
        0
    } else if words[from] == term {
        1
    } else {
        1 + term_steps(words, term, from + 1)
    }
}

/// The steps of looking for a prefix from a position on.
pub open spec fn prefix_steps(words: Seq<Seq<u8>>, prefix: Seq<u8>, from: int) -> int
    decreases words.len() - from,
{
    if from >= words.len() {
        0
    } else if starts_with(words[from], prefix) {
        1
    } else {
        1 + prefix_steps(words, prefix, from + 1)
    }
}

/// The steps of comparing a phrase with a window, from one of its terms on.
pub open spec fn window_steps(
    words: Seq<Seq<u8>>,
    phrase: Seq<Seq<u8>>,
    start: int,
    from: int,
) -> int
    decreases phrase.len() - from,
{
    if from >= phrase.len() {
        0
    } else if words[start + from] == phrase[from] {
        1 + window_steps(words, phrase, start, from + 1)
    } else {
        1
    }
}

/// The steps of looking for a phrase from a position on.
pub open spec fn phrase_steps(words: Seq<Seq<u8>>, phrase: Seq<Seq<u8>>, start: int) -> int
    decreases words.len() - start,
{
    if start >= words.len() || phrase.len() > words.len() - start {
        0
    } else if phrase_at(words, phrase, start) {
        window_steps(words, phrase, start, 0)
    } else {
        window_steps(words, phrase, start, 0) + phrase_steps(words, phrase, start + 1)
    }
}

/// The steps of evaluating a node.
pub open spec fn node_steps(kind: KindModel, words: Seq<Seq<u8>>) -> int {
    1 + match kind {
        KindModel::Term(term) => term_steps(words, term, 0),
        KindModel::Prefix(prefix) => prefix_steps(words, prefix, 0),
        KindModel::Phrase(phrase) => phrase_steps(words, phrase, 0),
        _ => 0,
    }
}

/// The steps of evaluating a query's nodes from one on.
pub open spec fn steps_from(query: QueryModel, words: Seq<Seq<u8>>, from: int) -> int
    decreases query.nodes.len() - from,
{
    if from >= query.nodes.len() {
        0
    } else {
        node_steps(query.nodes[from], words) + steps_from(query, words, from + 1)
    }
}

proof fn steps_positive(query: QueryModel, words: Seq<Seq<u8>>, from: int)
    ensures
        steps_from(query, words, from) >= 0,
    decreases query.nodes.len() - from,
{
    if from < query.nodes.len() {
        steps_positive(query, words, from + 1);
        kind_positive(query.nodes[from], words);
    }
}

proof fn kind_positive(kind: KindModel, words: Seq<Seq<u8>>)
    ensures
        node_steps(kind, words) >= 1,
{
    match kind {
        KindModel::Term(term) => term_positive(words, term, 0),
        KindModel::Prefix(prefix) => prefix_positive(words, prefix, 0),
        KindModel::Phrase(phrase) => phrase_positive(words, phrase, 0),
        _ => {},
    }
}

proof fn term_positive(words: Seq<Seq<u8>>, term: Seq<u8>, from: int)
    ensures
        term_steps(words, term, from) >= 0,
    decreases words.len() - from,
{
    if from < words.len() {
        term_positive(words, term, from + 1);
    }
}

proof fn prefix_positive(words: Seq<Seq<u8>>, prefix: Seq<u8>, from: int)
    ensures
        prefix_steps(words, prefix, from) >= 0,
    decreases words.len() - from,
{
    if from < words.len() {
        prefix_positive(words, prefix, from + 1);
    }
}

proof fn window_positive(words: Seq<Seq<u8>>, phrase: Seq<Seq<u8>>, start: int, from: int)
    ensures
        window_steps(words, phrase, start, from) >= 0,
    decreases phrase.len() - from,
{
    if from < phrase.len() {
        window_positive(words, phrase, start, from + 1);
    }
}

proof fn phrase_positive(words: Seq<Seq<u8>>, phrase: Seq<Seq<u8>>, start: int)
    ensures
        phrase_steps(words, phrase, start) >= 0,
    decreases words.len() - start,
{
    if start < words.len() {
        window_positive(words, phrase, start, 0);
        phrase_positive(words, phrase, start + 1);
    }
}

/// What a search step count does to the work that is left.
pub open spec fn spends(before: nat, after: nat, steps: int, failed: Option<Error>) -> bool {
    match failed {
        None => steps <= before && after == before - steps,
        Some(error) => steps > before && error == Error::Limit("search work"),
    }
}

#[verifier::loop_isolation(false)]
fn has_term(document: &Analyzed, term: &str, work: &mut Work) -> (result: Result<bool>)
    ensures
        spends(
            old(work)@,
            final(work)@,
            term_steps(document@.words, text_bytes(term), 0),
            result.err(),
        ),
        result matches Ok(found) ==> found == document@.words.contains(text_bytes(term)),
{
    let ghost words = document@.words;
    let ghost wanted = text_bytes(term);
    let count: u32 = document.len();
    let mut index: u32 = 0;
    while index < count
        invariant
            index <= count,
            work@ <= old(work)@,
            old(work)@ - work@ + term_steps(words, wanted, index as int) == term_steps(
                words,
                wanted,
                0,
            ),
            forall|i: int| 0 <= i < index ==> #[trigger] words[i] != wanted,
        decreases count - index,
    {
        proof {
            term_positive(words, wanted, index + 1);
        }
        work.charge(1)?;
        if let Some(token) = document.token(index as usize) {
            if same_bytes(token.term.as_bytes(), term.as_bytes()) {
                assert(words[index as int] == wanted);
                return Ok(true);
            }
        }
        index += 1;
    }
    Ok(false)
}

#[verifier::loop_isolation(false)]
fn has_prefix(document: &Analyzed, prefix: &str, work: &mut Work) -> (result: Result<bool>)
    ensures
        spends(
            old(work)@,
            final(work)@,
            prefix_steps(document@.words, text_bytes(prefix), 0),
            result.err(),
        ),
        result matches Ok(found) ==> found == prefix_present(document@.words, text_bytes(prefix)),
{
    let ghost words = document@.words;
    let ghost wanted = text_bytes(prefix);
    let count: u32 = document.len();
    let mut index: u32 = 0;
    while index < count
        invariant
            index <= count,
            work@ <= old(work)@,
            old(work)@ - work@ + prefix_steps(words, wanted, index as int) == prefix_steps(
                words,
                wanted,
                0,
            ),
            forall|i: int| 0 <= i < index ==> !starts_with(#[trigger] words[i], wanted),
        decreases count - index,
    {
        proof {
            prefix_positive(words, wanted, index + 1);
        }
        work.charge(1)?;
        if let Some(token) = document.token(index as usize) {
            if bytes_start_with(token.term.as_bytes(), prefix.as_bytes()) {
                assert(starts_with(words[index as int], wanted));
                return Ok(true);
            }
        }
        index += 1;
    }
    Ok(false)
}

/// Whether a phrase stands at a position that leaves room for it.
#[verifier::loop_isolation(false)]
fn window(document: &Analyzed, terms: &Vec<String>, start: usize, work: &mut Work) -> (result: Result<
    bool,
>)
    requires
        start + terms@.len() <= document@.words.len(),
    ensures
        spends(
            old(work)@,
            final(work)@,
            window_steps(document@.words, texts(terms@), start as int, 0),
            result.err(),
        ),
        result matches Ok(found) ==> found == phrase_at(
            document@.words,
            texts(terms@),
            start as int,
        ),
{
    let ghost words = document@.words;
    let ghost phrase = texts(terms@);
    let ghost part = words.subrange(start as int, start + phrase.len());
    let count: u32 = document.len();
    let mut index: usize = 0;
    while index < terms.len()
        invariant
            index <= terms@.len(),
            work@ <= old(work)@,
            old(work)@ - work@ + window_steps(words, phrase, start as int, index as int)
                == window_steps(words, phrase, start as int, 0),
            forall|i: int| 0 <= i < index ==> part[i] == #[trigger] phrase[i],
        decreases terms@.len() - index,
    {
        proof {
            window_positive(words, phrase, start as int, index + 1);
        }
        work.charge(1)?;
        let equal: bool = match document.token(start + index) {
            Some(token) => same_bytes(token.term.as_bytes(), terms[index].as_str().as_bytes()),
            None => false,
        };
        assert(part[index as int] == words[start + index]);
        assert(phrase[index as int] == encode_utf8(terms@[index as int]@));
        if !equal {
            return Ok(false);
        }
        index += 1;
    }
    assert(part =~= phrase);
    Ok(true)
}

#[verifier::loop_isolation(false)]
fn has_phrase(document: &Analyzed, terms: &Vec<String>, work: &mut Work) -> (result: Result<bool>)
    requires
        terms@.len() > 0,
    ensures
        spends(
            old(work)@,
            final(work)@,
            phrase_steps(document@.words, texts(terms@), 0),
            result.err(),
        ),
        result matches Ok(found) ==> found == phrase_present(document@.words, texts(terms@)),
{
    let ghost words = document@.words;
    let ghost phrase = texts(terms@);
    let count: usize = document.len() as usize;
    let mut start: usize = 0;
    while start < count && terms.len() <= count - start
        invariant
            start <= count,
            work@ <= old(work)@,
            old(work)@ - work@ + phrase_steps(words, phrase, start as int) == phrase_steps(
                words,
                phrase,
                0,
            ),
            forall|i: int| 0 <= i < start ==> !#[trigger] phrase_at(words, phrase, i),
        decreases count - start,
    {
        proof {
            phrase_positive(words, phrase, start + 1);
            window_positive(words, phrase, start as int, 0);
        }
        if window(document, terms, start, work)? {
            return Ok(true);
        }
        start += 1;
    }
    proof {
        if phrase_present(words, phrase) {
            let at = choose|at: int| #[trigger] phrase_at(words, phrase, at);
            assert(at >= start);
        }
    }
    Ok(false)
}

/// Evaluates a query on a document.
///
/// # Errors
/// Rejects a budget too small for the values of the nodes and more steps than
/// allowed.
#[verifier::loop_isolation(false)]
pub fn matches(document: &Analyzed, query: &Query, memory_bytes: usize, max_steps: usize) -> (result:
    Result<bool>)
    ensures
        match result {
            Ok(matched) => matched == query@.holds(document@.words) && steps_from(
                query@,
                document@.words,
                0,
            ) <= max_steps,
            Err(error) => out_of_memory(error) || (error == Error::Limit("search work")
                && steps_from(query@, document@.words, 0) > max_steps),
        },
        query@.nodes.len() > 0 && query@.nodes.len() * vstd::layout::size_of::<bool>()
            > memory_bytes ==> result == Err::<bool, Error>(
            Error::Budget(BudgetError::LimitExceeded),
        ),
{
    if document.profile() != query.profile() {
        return Err(Error::InvalidProfile);
    }
    let mut budget: MemoryBudget = MemoryBudget::new(memory_bytes);
    let values: Vec<bool> = vector(query.node_count(), &mut budget)?;
    matches_in(document, query, values, max_steps)
}

/// Evaluates a query on a document in memory that was given for its values.
#[verifier::loop_isolation(false)]
pub fn matches_in(document: &Analyzed, query: &Query, given: Vec<bool>, max_steps: usize) -> (result:
    Result<bool>)
    requires
        given@.len() == 0,
    ensures
        result == (if steps_from(query@, document@.words, 0) <= max_steps {
            Ok(query@.holds(document@.words))
        } else {
            Err(Error::Limit("search work"))
        }),
{
    let mut values: Vec<bool> = given;
    let ghost words = document@.words;
    let mut work: Work = Work::new(max_steps);
    let count: usize = query.node_count();
    let mut index: usize = 0;
    while index < count
        invariant
            index <= count,
            values@.len() == index,
            work@ <= max_steps,
            max_steps - work@ + steps_from(query@, words, index as int) == steps_from(
                query@,
                words,
                0,
            ),
            forall|i: int|
                0 <= i < index ==> #[trigger] values@[i] == query@.holds_at(i, words),
        decreases count - index,
    {
        let ghost kind = query@.nodes[index as int];
        proof {
            kind_positive(kind, words);
            steps_positive(query@, words, index + 1);
        }
        work.charge(1)?;
        let value: bool = match &query.node(index).kind {
            Kind::Nothing => false,
            Kind::Term(term) => has_term(document, term.as_str(), &mut work)?,
            Kind::Prefix(prefix) => has_prefix(document, prefix.as_str(), &mut work)?,
            Kind::Phrase(terms) => has_phrase(document, terms, &mut work)?,
            Kind::Not(child) => !values[*child],
            Kind::And(left, right) => values[*left] && values[*right],
            Kind::Or(left, right) => values[*left] || values[*right],
        };
        values.push(value);
        index += 1;
    }
    Ok(values[query.root()])
}

/// Evaluates a query on a document that may be null, which stays null.
pub fn matches_nullable(
    document: Option<&Analyzed>,
    query: &Query,
    memory_bytes: usize,
    max_steps: usize,
) -> (result: Result<Option<bool>>)
    ensures
        match (document, result) {
            (None, Ok(value)) => value is None,
            (Some(document), Ok(value)) => value == Some(query@.holds(document@.words))
                && steps_from(query@, document@.words, 0) <= max_steps,
            (Some(document), Err(error)) => out_of_memory(error) || (error == Error::Limit(
                "search work",
            ) && steps_from(query@, document@.words, 0) > max_steps),
            (None, Err(_)) => false,
        },
{
    match document {
        None => Ok(None),
        Some(document) => Ok(Some(matches(document, query, memory_bytes, max_steps)?)),
    }
}

} // verus!
