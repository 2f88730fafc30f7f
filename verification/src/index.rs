//! Immutable reference postings borrow analyzed text and own only index metadata.
//! One complete live incarnation per root; candidates never certify visibility.

use crate::analysis::{Analyzed, PROFILE_ID};
use crate::budget::{BudgetError, MemoryBudget};
use crate::codec::records::{DocumentRecord, Publication};
use crate::error::{Error, Result};
use crate::identity::{group_identity, DocumentRef, RelationGeneration};
use crate::memory::{out_of_memory, vector, Work};
use crate::query::{
    phrase_at, phrase_present, prefix_present, starts_with, texts, Kind, KindModel, Query,
    QueryModel,
};
use crate::sort::{ranked, rearranged, sorted, Ranked};
use crate::text::{
    bytes_precede, bytes_start_with, precedes, precedes_total, precedes_transitive, prefix_between,
    same_bytes, text_bytes,
};
use vstd::prelude::*;
use vstd::utf8::encode_utf8;

verus! {

broadcast use group_identity;

/// A published document and its analyzed text.
#[derive(Clone, Copy, Debug)]
pub struct Document<'a> {
    identity: DocumentRef,
    text: &'a Analyzed,
}

/// The identity of a document and its words in order.
#[verifier::ext_equal]
pub struct DocumentModel {
    pub identity: DocumentRef,
    pub words: Seq<Seq<u8>>,
}

impl<'a> View for Document<'a> {
    type V = DocumentModel;

    closed spec fn view(&self) -> DocumentModel {
        DocumentModel { identity: self.identity, words: self.text@.words }
    }
}

impl<'a> Document<'a> {
    /// Rejects incomplete, removed, mismatched-profile or mismatched-length records.
    pub fn new(relation: RelationGeneration, record: DocumentRecord, text: &'a Analyzed) -> (result:
        Result<Self>)
        ensures
            if record.publication != Publication::Published || !record.live {
                result matches Err(error) && error == Error::InvalidState
            } else if record.profile != PROFILE_ID {
                result matches Err(error) && error == Error::InvalidProfile
            } else if record.token_count != text@.words.len() {
                result matches Err(error) && error == Error::InvalidDocument
            } else {
                result matches Ok(document) && document@ == (DocumentModel {
                    identity: DocumentRef {
                        relation,
                        segment: record.segment,
                        incarnation: record.incarnation,
                        root: record.root,
                    },
                    words: text@.words,
                })
            },
    {
        if record.publication != Publication::Published || !record.live {
            return Err(Error::InvalidState);
        }
        if record.profile != text.profile() {
            return Err(Error::InvalidProfile);
        }
        if record.token_count != text.len() {
            return Err(Error::InvalidDocument);
        }
        Ok(
            Document {
                identity: DocumentRef {
                    relation,
                    segment: record.segment,
                    incarnation: record.incarnation,
                    root: record.root,
                },
                text,
            },
        )
    }

    pub fn identity(self) -> (identity: DocumentRef)
        ensures
            identity == self@.identity,
    {
        self.identity
    }

    pub fn analyzed(self) -> (text: &'a Analyzed)
        ensures
            text@.words == self@.words,
    {
        self.text
    }

    pub fn length(self) -> (length: u32)
        ensures
            length == self@.words.len(),
    {
        self.text.len()
    }
}

/// Documents are ranked by their roots.
impl<'a> Ranked for Document<'a> {
    open spec fn at_most(self, other: Self) -> bool {
        self@.identity.root.key() <= other@.identity.root.key()
    }

    proof fn at_most_total(self, other: Self) {
    }

    proof fn at_most_transitive(self, middle: Self, other: Self) {
    }

    fn not_after(&self, other: &Self) -> (answer: bool) {
        self.identity.root.key() <= other.identity.root.key()
    }
}

/// What an index may hold.
#[derive(Clone, Copy, Debug)]
pub struct IndexLimits {
    pub documents: usize,
    pub tokens: usize,
    pub terms: usize,
    pub term_bytes: usize,
    pub memory_bytes: usize,
}

impl Default for IndexLimits {
    fn default() -> (limits: Self)
        ensures
            limits == (IndexLimits {
                documents: 65_536,
                tokens: 4_000_000,
                terms: 1_000_000,
                term_bytes: 1024,
                memory_bytes: 0x800_0000,
            }),
    {
        IndexLimits {
            documents: 65_536,
            tokens: 4_000_000,
            terms: 1_000_000,
            term_bytes: 1024,
            memory_bytes: 0x800_0000,
        }
    }
}

/// What a search may use.
#[derive(Clone, Copy, Debug)]
pub struct SearchLimits {
    pub expanded_terms: usize,
    pub memory_bytes: usize,
    pub work_steps: usize,
}

impl Default for SearchLimits {
    fn default() -> (limits: Self)
        ensures
            limits == (SearchLimits {
                expanded_terms: 4096,
                memory_bytes: 0x80_0000,
                work_steps: 100_000_000,
            }),
    {
        SearchLimits { expanded_terms: 4096, memory_bytes: 0x80_0000, work_steps: 100_000_000 }
    }
}

/// An occurrence of a term.
#[derive(Clone, Copy)]
pub struct Posting<'a> {
    term: &'a str,
    document: u32,
    position: u32,
}

/// Occurrences are ranked by term, document and position.
impl<'a> Ranked for Posting<'a> {
    closed spec fn at_most(self, other: Self) -> bool {
        let (left, right) = (text_bytes(self.term), text_bytes(other.term));
        precedes(left, right) || (left == right && (self.document < other.document || (self.document
            == other.document && self.position <= other.position)))
    }

    proof fn at_most_total(self, other: Self) {
        precedes_total(text_bytes(self.term), text_bytes(other.term));
    }

    proof fn at_most_transitive(self, middle: Self, other: Self) {
        let (a, b, c) = (
            text_bytes(self.term),
            text_bytes(middle.term),
            text_bytes(other.term),
        );
        if precedes(a, b) && precedes(b, c) {
            precedes_transitive(a, b, c);
        }
    }

    fn not_after(&self, other: &Self) -> (answer: bool) {
        let (left, right): (&[u8], &[u8]) = (self.term.as_bytes(), other.term.as_bytes());
        bytes_precede(left, right) || (same_bytes(left, right) && (self.document < other.document
            || (self.document == other.document && self.position <= other.position)))
    }
}

/// A term with its occurrences and the number of documents that hold it.
pub struct Term<'a> {
    text: &'a str,
    begin: usize,
    end: usize,
    frequency: u64,
}

/// Documents by increasing root.
#[verifier::ext_equal]
pub struct IndexModel {
    pub relation: RelationGeneration,
    pub documents: Seq<DocumentModel>,
}

/// The number of words of the first documents.
pub open spec fn words_before(documents: Seq<DocumentModel>, count: int) -> int
    decreases count,
{
    if count <= 0 {
        0
    } else {
        words_before(documents, count - 1) + documents[count - 1].words.len()
    }
}

/// How many of the first documents hold a term.
pub open spec fn holders(documents: Seq<DocumentModel>, term: Seq<u8>, count: int) -> int
    decreases count,
{
    if count <= 0 {
        0
    } else {
        holders(documents, term, count - 1) + if documents[count - 1].words.contains(term) {
            1int
        } else {
            0int
        }
    }
}

/// How many of the documents from one on satisfy a query.
pub open spec fn matching(documents: Seq<DocumentModel>, query: QueryModel, from: int) -> int
    decreases documents.len() - from,
{
    if from >= documents.len() {
        0
    } else {
        matching(documents, query, from + 1) + if query.holds(documents[from].words) {
            1int
        } else {
            0int
        }
    }
}

/// Why documents from one on cannot be taken, if they cannot.
pub open spec fn documents_error(
    documents: Seq<DocumentModel>,
    relation: RelationGeneration,
    limits: IndexLimits,
    from: int,
) -> Option<Error>
    decreases documents.len() - from,
{
    if from >= documents.len() {
        None
    } else if documents[from].identity.relation != relation {
        Some(Error::ForeignRelation)
    } else if words_before(documents, from + 1) > limits.tokens || words_before(
        documents,
        from + 1,
    ) > usize::MAX {
        Some(Error::Limit("tokens"))
    } else if crate::analysis::long_word(documents[from].words, limits.term_bytes) {
        Some(Error::Limit("term bytes"))
    } else {
        documents_error(documents, relation, limits, from + 1)
    }
}

/// Whether two documents have the same root.
pub open spec fn doubled(documents: Seq<DocumentModel>) -> bool {
    exists|i: int, j: int|
        0 <= i < j < documents.len() && (#[trigger] documents[i]).identity.root == (
        #[trigger] documents[j]).identity.root
}

/// Whether roots strictly increase.
pub open spec fn by_root(documents: Seq<DocumentModel>) -> bool {
    forall|i: int, j: int|
        0 <= i < j < documents.len() ==> (#[trigger] documents[i]).identity.root.key() < (
        #[trigger] documents[j]).identity.root.key()
}

/// The models of documents.
pub open spec fn models(documents: Seq<Document<'_>>) -> Seq<DocumentModel> {
    Seq::new(documents.len(), |i: int| documents[i]@)
}

/// Whether an occurrence is a word of its document.
spec fn sound(posting: Posting<'_>, documents: Seq<DocumentModel>) -> bool {
    &&& posting.document < documents.len()
    &&& posting.position < documents[posting.document as int].words.len()
    &&& documents[posting.document as int].words[posting.position as int] == text_bytes(
        posting.term,
    )
}

/// Whether a word is among the occurrences.
spec fn posted(postings: Seq<Posting<'_>>, document: int, position: int) -> bool {
    exists|i: int| #[trigger] stands(postings, i, document, position)
}

spec fn stands(postings: Seq<Posting<'_>>, at: int, document: int, position: int) -> bool {
    0 <= at < postings.len() && postings[at].document == document && postings[at].position
        == position
}

/// Whether the occurrences are exactly the words of the documents.
spec fn faithful(postings: Seq<Posting<'_>>, documents: Seq<DocumentModel>) -> bool {
    &&& forall|i: int| 0 <= i < postings.len() ==> sound(#[trigger] postings[i], documents)
    &&& forall|d: int, p: int|
        0 <= d < documents.len() && 0 <= p < documents[d].words.len() ==> #[trigger] posted(
            postings,
            d,
            p,
        )
}

/// Whether a range holds exactly the occurrences of a term.
spec fn covers(postings: Seq<Posting<'_>>, term: Term<'_>) -> bool {
    &&& term.begin < term.end <= postings.len()
    &&& forall|i: int|
        0 <= i < postings.len() ==> (term.begin <= i < term.end <==> text_bytes(
            (#[trigger] postings[i]).term,
        ) == text_bytes(term.text))
}

/// Whether an occurrence belongs to one of the terms.
spec fn listed(terms: Seq<Term<'_>>, text: Seq<u8>) -> bool {
    exists|t: int| 0 <= t < terms.len() && text_bytes((#[trigger] terms[t]).text) == text
}

/// Whether the terms are exactly those that occur, in order, each with its range.
spec fn complete(
    terms: Seq<Term<'_>>,
    postings: Seq<Posting<'_>>,
    documents: Seq<DocumentModel>,
) -> bool {
    &&& forall|t: int| 0 <= t < terms.len() ==> covers(postings, #[trigger] terms[t])
    &&& forall|t: int|
        0 <= t < terms.len() ==> (#[trigger] terms[t]).frequency == holders(
            documents,
            text_bytes(terms[t].text),
            documents.len() as int,
        )
    &&& forall|t: int, u: int|
        0 <= t < u < terms.len() ==> precedes(
            text_bytes((#[trigger] terms[t]).text),
            text_bytes((#[trigger] terms[u]).text),
        )
    &&& forall|i: int|
        0 <= i < postings.len() ==> listed(terms, text_bytes((#[trigger] postings[i]).term))
}

/// A search structure over borrowed documents.
pub struct ReferenceIndex<'a> {
    relation: RelationGeneration,
    documents: Vec<Document<'a>>,
    postings: Vec<Posting<'a>>,
    terms: Vec<Term<'a>>,
    total_length: u64,
    retained_bytes: usize,
}

impl<'a> View for ReferenceIndex<'a> {
    type V = IndexModel;

    closed spec fn view(&self) -> IndexModel {
        IndexModel { relation: self.relation, documents: models(self.documents@) }
    }
}

/// Checks documents before they are taken; the number of their words.
#[verifier::loop_isolation(false)]
fn check_documents(relation: RelationGeneration, documents: &[Document<'_>], limits: IndexLimits) -> (result:
    Result<usize>)
    ensures
        match documents_error(models(documents@), relation, limits, 0) {
            Some(error) => result == Err::<usize, Error>(error),
            None => result matches Ok(total) && total == words_before(
                models(documents@),
                documents@.len() as int,
            ) && total <= limits.tokens,
        },
{
    let ghost all = models(documents@);
    let mut total: usize = 0;
    let mut index: usize = 0;
    while index < documents.len()
        invariant
            index <= documents@.len(),
            total == words_before(all, index as int),
            total <= limits.tokens,
            documents_error(all, relation, limits, 0) == documents_error(
                all,
                relation,
                limits,
                index as int,
            ),
        decreases documents@.len() - index,
    {
        let document: Document<'_> = documents[index];
        assert(all[index as int] == document@);
        if document.identity.relation != relation {
            return Err(Error::ForeignRelation);
        }
        match total.checked_add(document.length() as usize) {
            Some(sum) => {
                total = sum;
            },
            None => {
                return Err(Error::Limit("tokens"));
            },
        }
        if total > limits.tokens {
            return Err(Error::Limit("tokens"));
        }
        if has_long_word(document.text, limits.term_bytes) {
            return Err(Error::Limit("term bytes"));
        }
        index += 1;
    }
    Ok(total)
}

#[verifier::loop_isolation(false)]
fn has_long_word(text: &Analyzed, limit: usize) -> (found: bool)
    ensures
        found == crate::analysis::long_word(text@.words, limit),
{
    let count: u32 = text.len();
    let mut index: u32 = 0;
    while index < count
        invariant
            index <= count,
            forall|i: int| 0 <= i < index ==> (#[trigger] text@.words[i]).len() <= limit,
        decreases count - index,
    {
        if let Some(token) = text.token(index as usize) {
            if token.term.as_bytes().len() > limit {
                assert(text@.words[index as int].len() > limit);
                return true;
            }
        }
        index += 1;
    }
    false
}

/// Whether neighbours in ascending order share a root.
#[verifier::loop_isolation(false)]
fn has_doubled(documents: &Vec<Document<'_>>) -> (found: bool)
    requires
        ranked(documents@),
    ensures
        found == doubled(models(documents@)),
        !found ==> by_root(models(documents@)),
{
    let ghost all = models(documents@);
    let mut index: usize = 1;
    while index < documents.len()
        invariant
            1 <= index,
            forall|i: int, j: int|
                0 <= i < j < index && j < documents@.len() ==> (
                #[trigger] all[i]).identity.root.key() < (#[trigger] all[j]).identity.root.key(),
        decreases documents@.len() - index,
    {
        let ghost at = index as int;
        proof {
            documents@[at - 1]@.identity.root.key_order(documents@[at]@.identity.root);
            assert(documents@[at - 1].at_most(documents@[at]));
        }
        if documents[index - 1].identity.root == documents[index].identity.root {
            assert(all[at - 1].identity.root == all[at].identity.root);
            return true;
        }
        assert forall|i: int, j: int|
            0 <= i < j < index + 1 && j < documents@.len() implies (
        #[trigger] all[i]).identity.root.key() < (#[trigger] all[j]).identity.root.key() by {
            if j == at && i < at - 1 {
                assert(all[i].identity.root.key() < all[at - 1].identity.root.key());
            }
        }
        index += 1;
    }
    proof {
        assert(by_root(all));
        if doubled(all) {
            let (i, j) = choose|i: int, j: int|
                0 <= i < j < all.len() && (#[trigger] all[i]).identity.root == (
                #[trigger] all[j]).identity.root;
            assert(all[i].identity.root.key() < all[j].identity.root.key());
        }
    }
    false
}

/// Whether the occurrences so far are those of the first documents and of the
/// first words of the next one.
spec fn collected(
    postings: Seq<Posting<'_>>,
    documents: Seq<DocumentModel>,
    document: int,
    position: int,
) -> bool {
    &&& forall|i: int| 0 <= i < postings.len() ==> sound(#[trigger] postings[i], documents)
    &&& forall|d: int, p: int|
        0 <= d < documents.len() && 0 <= p < documents[d].words.len() && (d < document || (d
            == document && p < position)) ==> #[trigger] posted(postings, d, p)
}

/// Collects the occurrences of all words.
#[verifier::loop_isolation(false)]
fn collect<'a>(documents: &Vec<Document<'a>>, postings: &mut Vec<Posting<'a>>)
    requires
        documents@.len() <= u32::MAX,
        old(postings)@.len() == 0,
    ensures
        faithful(final(postings)@, models(documents@)),
{
    let ghost all = models(documents@);
    let mut ordinal: usize = 0;
    while ordinal < documents.len()
        invariant
            ordinal <= documents@.len(),
            collected(postings@, all, ordinal as int, 0),
        decreases documents@.len() - ordinal,
    {
        let text: &'a Analyzed = documents[ordinal].text;
        let count: u32 = text.len();
        let mut position: u32 = 0;
        assert(all[ordinal as int].words == text@.words);
        while position < count
            invariant
                position <= count,
                collected(postings@, all, ordinal as int, position as int),
            decreases count - position,
        {
            if let Some(token) = text.token(position as usize) {
                let ghost before = postings@;
                postings.push(
                    Posting { term: token.term, document: ordinal as u32, position: token.position },
                );
                proof {
                    let now = postings@;
                    assert forall|d: int, p: int|
                        0 <= d < all.len() && 0 <= p < all[d].words.len() && (d < ordinal || (d
                            == ordinal && p < position + 1)) implies #[trigger] posted(now, d, p) by {
                        if d == ordinal && p == position {
                            assert(stands(now, before.len() as int, d, p));
                        } else {
                            assert(posted(before, d, p));
                            let i = choose|i: int| #[trigger] stands(before, i, d, p);
                            assert(stands(now, i, d, p));
                        }
                    }
                }
            }
            position += 1;
        }
        assert(collected(postings@, all, ordinal + 1, 0));
        ordinal += 1;
    }
}

/// A rearrangement keeps the occurrences.
proof fn rearranged_faithful(
    before: Seq<Posting<'_>>,
    after: Seq<Posting<'_>>,
    documents: Seq<DocumentModel>,
)
    requires
        faithful(before, documents),
        rearranged(after, before),
    ensures
        faithful(after, documents),
{
    broadcast use vstd::seq_lib::group_to_multiset_ensures;

    assert forall|i: int| 0 <= i < after.len() implies sound(#[trigger] after[i], documents) by {
        assert(after.contains(after[i]));
        assert(before.to_multiset().count(after[i]) > 0);
        assert(before.contains(after[i]));
        let j = choose|j: int| 0 <= j < before.len() && before[j] == after[i];
        assert(sound(before[j], documents));
    }
    assert forall|d: int, p: int|
        0 <= d < documents.len() && 0 <= p < documents[d].words.len() implies #[trigger] posted(
        after,
        d,
        p,
    ) by {
        assert(posted(before, d, p));
        let i = choose|i: int| #[trigger] stands(before, i, d, p);
        assert(before.contains(before[i]));
        assert(after.to_multiset().count(before[i]) > 0);
        assert(after.contains(before[i]));
        let j = choose|j: int| 0 <= j < after.len() && after[j] == before[i];
        assert(stands(after, j, d, p));
    }
}

/// A term that occurs in no posting of a document is none of its words.
proof fn absent(
    postings: Seq<Posting<'_>>,
    documents: Seq<DocumentModel>,
    text: Seq<u8>,
    document: int,
)
    requires
        faithful(postings, documents),
        0 <= document < documents.len(),
        forall|i: int|
            0 <= i < postings.len() && text_bytes((#[trigger] postings[i]).term) == text
                ==> postings[i].document != document,
    ensures
        !documents[document].words.contains(text),
{
    let words = documents[document].words;
    if words.contains(text) {
        let p = choose|p: int| 0 <= p < words.len() && words[p] == text;
        assert(posted(postings, document, p));
        let i = choose|i: int| #[trigger] stands(postings, i, document, p);
        assert(sound(postings[i], documents));
    }
}

/// Documents without a term add nothing to its holders.
proof fn holders_skip(documents: Seq<DocumentModel>, term: Seq<u8>, low: int, high: int)
    requires
        0 <= low <= high <= documents.len(),
        forall|d: int|
            low <= d < high ==> !(#[trigger] documents[d]).words.contains(term),
    ensures
        holders(documents, term, high) == holders(documents, term, low),
    decreases high - low,
{
    if low < high {
        holders_skip(documents, term, low, high - 1);
    }
}

proof fn holders_bounded(documents: Seq<DocumentModel>, term: Seq<u8>, count: int)
    ensures
        0 <= holders(documents, term, count),
        count >= 0 ==> holders(documents, term, count) <= count,
    decreases count,
{
    if count > 0 {
        holders_bounded(documents, term, count - 1);
    }
}

/// Whether two occurrences are of the same term.
spec fn alike(postings: Seq<Posting<'_>>, left: int, right: int) -> bool {
    text_bytes(postings[left].term) == text_bytes(postings[right].term)
}

/// The end of the occurrences of a term and the number of its documents.
#[verifier::loop_isolation(false)]
fn group_end(
    postings: &Vec<Posting<'_>>,
    begin: usize,
    documents: Ghost<Seq<DocumentModel>>,
) -> (result: (usize, u64))
    requires
        begin < postings@.len(),
        ranked(postings@),
        faithful(postings@, documents@),
        documents@.len() <= u32::MAX,
        begin > 0 ==> !alike(postings@, begin - 1, begin as int),
    ensures
        begin < result.0 <= postings@.len(),
        result.0 < postings@.len() ==> !alike(postings@, begin as int, result.0 as int),
        forall|i: int|
            0 <= i < postings@.len() ==> (begin <= i < result.0 <==> text_bytes(
                (#[trigger] postings@[i]).term,
            ) == text_bytes(postings@[begin as int].term)),
        result.1 == holders(
            documents@,
            text_bytes(postings@[begin as int].term),
            documents@.len() as int,
        ),
{
    let ghost list = postings@;
    let ghost text = text_bytes(list[begin as int].term);
    let ghost first = list[begin as int].document as int;
    proof {
        assert forall|i: int| 0 <= i < begin implies text_bytes((#[trigger] list[i]).term)
            != text by {
            assert(list[i].at_most(list[begin as int]));
            assert(list[begin - 1].at_most(list[begin as int]));
            if i < begin - 1 {
                assert(list[i].at_most(list[begin - 1]));
                precedes_total(text_bytes(list[begin - 1].term), text);
                precedes_total(text_bytes(list[i].term), text_bytes(list[begin - 1].term));
            }
        }
        assert forall|d: int| 0 <= d < first implies !(
        #[trigger] documents@[d]).words.contains(text) by {
            assert forall|i: int|
                0 <= i < list.len() && text_bytes((#[trigger] list[i]).term)
                    == text implies list[i].document != d by {
                if i > begin {
                    assert(list[begin as int].at_most(list[i]));
                    precedes_total(text, text);
                }
            }
            absent(list, documents@, text, d);
        }
        assert(sound(list[begin as int], documents@));
        holders_skip(documents@, text, 0, first);
        assert(documents@[first].words.contains(text)) by {
            assert(documents@[first].words[list[begin as int].position as int] == text);
        }
    }
    let size: usize = postings.len();
    assert(begin < size);
    let mut end: usize = begin + 1;
    let mut frequency: u64 = 1;
    while end < postings.len() && same_bytes(
        postings[end].term.as_bytes(),
        postings[begin].term.as_bytes(),
    )
        invariant
            begin < end <= list.len(),
            forall|i: int|
                begin <= i < end ==> text_bytes((#[trigger] list[i]).term) == text,
            frequency == holders(documents@, text, list[end - 1].document + 1),
            frequency <= end,
        decreases list.len() - end,
    {
        let ghost low = list[end - 1].document as int;
        let ghost high = list[end as int].document as int;
        proof {
            assert(list[end - 1].at_most(list[end as int]));
            precedes_total(text, text);
            assert(sound(list[end as int], documents@));
            assert(low <= high);
            if low < high {
                assert forall|d: int| low + 1 <= d < high implies !(
                #[trigger] documents@[d]).words.contains(text) by {
                    assert forall|i: int|
                        0 <= i < list.len() && text_bytes((#[trigger] list[i]).term)
                            == text implies list[i].document != d by {
                        if i < end - 1 {
                            assert(list[i].at_most(list[end - 1]));
                        }
                        if i > end {
                            assert(list[end as int].at_most(list[i]));
                        }
                    }
                    absent(list, documents@, text, d);
                }
                holders_skip(documents@, text, low + 1, high);
                assert(documents@[high].words[list[end as int].position as int] == text);
                assert(documents@[high].words.contains(text));
            }
        }
        if postings[end - 1].document != postings[end].document {
            frequency = frequency + 1;
        }
        end += 1;
    }
    proof {
        let last = list[end - 1].document as int;
        assert(sound(list[end - 1], documents@));
        assert forall|i: int| end <= i < list.len() implies text_bytes((#[trigger] list[i]).term)
            != text by {
            assert(list[begin as int].at_most(list[end as int]));
            if i > end {
                assert(list[end as int].at_most(list[i]));
                precedes_total(text, text_bytes(list[end as int].term));
                precedes_total(text_bytes(list[i].term), text_bytes(list[end as int].term));
            }
        }
        assert forall|d: int| last + 1 <= d < documents@.len() implies !(
        #[trigger] documents@[d]).words.contains(text) by {
            assert forall|i: int|
                0 <= i < list.len() && text_bytes((#[trigger] list[i]).term)
                    == text implies list[i].document != d by {
                if i < end - 1 {
                    assert(list[i].at_most(list[end - 1]));
                    precedes_total(text, text);
                }
            }
            absent(list, documents@, text, d);
        }
        holders_skip(documents@, text, last + 1, documents@.len() as int);
    }
    (end, frequency)
}

/// Whether more distinct words occur than the limit allows.
pub open spec fn vocabulary_exceeds(documents: Seq<DocumentModel>, limit: usize) -> bool {
    exists|words: Seq<Seq<u8>>| #[trigger]
        distinct_words(documents, words) && words.len() > limit
}

/// Whether the words are distinct and all occur.
pub open spec fn distinct_words(documents: Seq<DocumentModel>, words: Seq<Seq<u8>>) -> bool {
    &&& words.no_duplicates()
    &&& forall|i: int| 0 <= i < words.len() ==> occurs(documents, #[trigger] words[i])
}

/// Whether a word stands in one of the documents.
pub open spec fn occurs(documents: Seq<DocumentModel>, word: Seq<u8>) -> bool {
    exists|d: int| 0 <= d < documents.len() && (#[trigger] documents[d]).words.contains(word)
}

/// The number of distinct terms.
#[verifier::loop_isolation(false)]
fn count_terms(postings: &Vec<Posting<'_>>, documents: Ghost<Seq<DocumentModel>>) -> (result: (
    usize,
    Ghost<Seq<Seq<u8>>>,
))
    requires
        ranked(postings@),
        faithful(postings@, documents@),
        documents@.len() <= u32::MAX,
    ensures
        result.0 == result.1@.len(),
        distinct_words(documents@, result.1@),
        forall|word: Seq<u8>| #[trigger] occurs(documents@, word) ==> result.1@.contains(word),
{
    let ghost list = postings@;
    let ghost mut seen: Seq<Seq<u8>> = Seq::empty();
    let mut count: usize = 0;
    let mut begin: usize = 0;
    while begin < postings.len()
        invariant
            begin <= list.len(),
            0 < begin < list.len() ==> !alike(list, begin - 1, begin as int),
            count == seen.len(),
            count <= begin,
            distinct_words(documents@, seen),
            forall|i: int| 0 <= i < begin ==> seen.contains(text_bytes((#[trigger] list[i]).term)),
            forall|w: int|
                0 <= w < seen.len() ==> exists|i: int|
                    0 <= i < begin && text_bytes((#[trigger] list[i]).term) == #[trigger] seen[w],
        decreases list.len() - begin,
    {
        let ghost text = text_bytes(list[begin as int].term);
        let (end, _): (usize, u64) = group_end(postings, begin, documents);
        proof {
            let posting = list[begin as int];
            assert(sound(posting, documents@));
            let words = documents@[posting.document as int].words;
            assert(words[posting.position as int] == text);
            assert(words.contains(text));
            assert(occurs(documents@, text));
            assert(!seen.contains(text)) by {
                if seen.contains(text) {
                    let w = choose|w: int| 0 <= w < seen.len() && seen[w] == text;
                    let i = choose|i: int|
                        0 <= i < begin && text_bytes((#[trigger] list[i]).term) == seen[w];
                    assert(text_bytes(list[i].term) == text);
                }
            }
            let later = seen.push(text);
            assert forall|w: int| 0 <= w < later.len() implies exists|i: int|
                0 <= i < end && text_bytes((#[trigger] list[i]).term) == #[trigger] later[w] by {
                if w < seen.len() {
                    let i = choose|i: int|
                        0 <= i < begin && text_bytes((#[trigger] list[i]).term) == seen[w];
                    assert(text_bytes(list[i].term) == later[w]);
                } else {
                    assert(text_bytes(list[begin as int].term) == later[w]);
                }
            }
            assert forall|w: int| 0 <= w < later.len() implies occurs(
                documents@,
                #[trigger] later[w],
            ) by {
                if w < seen.len() {
                    assert(occurs(documents@, seen[w]));
                }
            }
            if end < list.len() {
                assert(text_bytes(list[end - 1].term) == text);
            }
            assert forall|i: int| 0 <= i < end implies later.contains(
                text_bytes((#[trigger] list[i]).term),
            ) by {
                if i < begin {
                    assert(seen.contains(text_bytes(list[i].term)));
                    let w = choose|w: int|
                        0 <= w < seen.len() && seen[w] == text_bytes(list[i].term);
                    assert(later[w] == text_bytes(list[i].term));
                } else {
                    assert(later[seen.len() as int] == text_bytes(list[i].term));
                }
            }
            seen = later;
        }
        count += 1;
        begin = end;
    }
    proof {
        assert forall|word: Seq<u8>| #[trigger] occurs(documents@, word) implies seen.contains(
            word,
        ) by {
            let d = choose|d: int|
                0 <= d < documents@.len() && (#[trigger] documents@[d]).words.contains(word);
            let p = choose|p: int|
                0 <= p < documents@[d].words.len() && documents@[d].words[p] == word;
            assert(posted(list, d, p));
            let i = choose|i: int| #[trigger] stands(list, i, d, p);
            assert(sound(list[i], documents@));
            assert(seen.contains(text_bytes(list[i].term)));
        }
    }
    (count, Ghost(seen))
}

/// Groups the occurrences by term.
#[verifier::loop_isolation(false)]
fn group_terms<'a>(
    postings: &Vec<Posting<'a>>,
    terms: &mut Vec<Term<'a>>,
    documents: Ghost<Seq<DocumentModel>>,
)
    requires
        ranked(postings@),
        faithful(postings@, documents@),
        documents@.len() <= u32::MAX,
        old(terms)@.len() == 0,
    ensures
        complete(final(terms)@, postings@, documents@),
{
    let ghost list = postings@;
    let mut begin: usize = 0;
    while begin < postings.len()
        invariant
            begin <= list.len(),
            0 < begin < list.len() ==> !alike(list, begin - 1, begin as int),
            forall|t: int|
                0 <= t < terms@.len() ==> covers(list, #[trigger] terms@[t]) && terms@[t].end
                    <= begin,
            forall|t: int|
                0 <= t < terms@.len() ==> (#[trigger] terms@[t]).frequency == holders(
                    documents@,
                    text_bytes(terms@[t].text),
                    documents@.len() as int,
                ),
            forall|t: int, u: int|
                0 <= t < u < terms@.len() ==> precedes(
                    text_bytes((#[trigger] terms@[t]).text),
                    text_bytes((#[trigger] terms@[u]).text),
                ),
            forall|i: int|
                0 <= i < begin ==> listed(terms@, text_bytes((#[trigger] list[i]).term)),
        decreases list.len() - begin,
    {
        let ghost before = terms@;
        let (end, frequency): (usize, u64) = group_end(postings, begin, documents);
        let term: Term<'a> = Term { text: postings[begin].term, begin, end, frequency };
        let ghost text = text_bytes(term.text);
        terms.push(term);
        proof {
            let now = terms@;
            assert forall|t: int, u: int| 0 <= t < u < now.len() implies precedes(
                text_bytes((#[trigger] now[t]).text),
                text_bytes((#[trigger] now[u]).text),
            ) by {
                if u == before.len() {
                    let at = before[t].begin as int;
                    assert(covers(list, before[t]));
                    assert(text_bytes(list[at].term) == text_bytes(before[t].text));
                    assert(list[at].at_most(list[begin as int]));
                }
            }
            assert forall|i: int| 0 <= i < end implies listed(
                now,
                text_bytes((#[trigger] list[i]).term),
            ) by {
                if i < begin {
                    assert(listed(before, text_bytes(list[i].term)));
                    let t = choose|t: int|
                        0 <= t < before.len() && text_bytes((#[trigger] before[t]).text)
                            == text_bytes(list[i].term);
                    assert(text_bytes(now[t].text) == text_bytes(list[i].term));
                } else {
                    assert(text_bytes(now[before.len() as int].text) == text_bytes(list[i].term));
                }
            }
            if end < list.len() {
                assert(text_bytes(list[end - 1].term) == text);
            }
        }
        begin = end;
    }
}

/// Whether both hold the same documents.
pub open spec fn same_documents(left: Seq<DocumentModel>, right: Seq<DocumentModel>) -> bool {
    &&& left.len() == right.len()
    &&& forall|document: DocumentModel|
        #![trigger left.contains(document)]
        #![trigger right.contains(document)]
        left.contains(document) == right.contains(document)
}

proof fn rearranged_documents(before: Seq<Document<'_>>, after: Seq<Document<'_>>)
    requires
        rearranged(after, before),
        after.len() == before.len(),
    ensures
        same_documents(models(after), models(before)),
{
    broadcast use vstd::seq_lib::group_to_multiset_ensures;

    assert forall|document: DocumentModel|
        models(after).contains(document) == models(before).contains(document) by {
        if models(after).contains(document) {
            let i = choose|i: int| 0 <= i < after.len() && models(after)[i] == document;
            assert(after.contains(after[i]));
            assert(before.to_multiset().count(after[i]) > 0);
            assert(before.contains(after[i]));
            let j = choose|j: int| 0 <= j < before.len() && before[j] == after[i];
            assert(models(before)[j] == document);
        }
        if models(before).contains(document) {
            let i = choose|i: int| 0 <= i < before.len() && models(before)[i] == document;
            assert(before.contains(before[i]));
            assert(after.to_multiset().count(before[i]) > 0);
            assert(after.contains(before[i]));
            let j = choose|j: int| 0 <= j < after.len() && after[j] == before[i];
            assert(models(after)[j] == document);
        }
    }
}

/// A word occurs in the same documents in whatever order.
proof fn same_doubled(left: Seq<DocumentModel>, right: Seq<DocumentModel>)
    requires
        same_documents(left, right),
    ensures
        forall|word: Seq<u8>| #[trigger] occurs(left, word) ==> occurs(right, word),
{
    assert forall|word: Seq<u8>| #[trigger] occurs(left, word) implies occurs(right, word) by {
        let d = choose|d: int| 0 <= d < left.len() && (#[trigger] left[d]).words.contains(word);
        assert(left.contains(left[d]));
        assert(right.contains(left[d]));
        let e = choose|e: int| 0 <= e < right.len() && right[e] == left[d];
        assert(right[e].words.contains(word));
    }
}

/// The number of words of all documents.
fn count_words(documents: &Vec<Document<'_>>) -> (total: u64)
    requires
        documents@.len() <= u32::MAX,
    ensures
        total == words_before(models(documents@), documents@.len() as int),
{
    let mut total: u64 = 0;
    let mut index: usize = 0;
    while index < documents.len()
        invariant
            index <= documents@.len() <= u32::MAX,
            total == words_before(models(documents@), index as int),
            total <= index * 0xFFFF_FFFF,
        decreases documents@.len() - index,
    {
        assert(index * 0xFFFF_FFFF <= 0xFFFF_FFFF * 0xFFFF_FFFF) by (nonlinear_arith)
            requires
                index <= 0xFFFF_FFFF,
        ;
        total = total + documents[index].length() as u64;
        index += 1;
    }
    total
}

/// Where all words are among distinct ones, no more occur.
proof fn vocabulary_within(documents: Seq<DocumentModel>, words: Seq<Seq<u8>>, limit: usize)
    requires
        words.len() <= limit,
        forall|word: Seq<u8>| #[trigger] occurs(documents, word) ==> words.contains(word),
    ensures
        !vocabulary_exceeds(documents, limit),
{
    if vocabulary_exceeds(documents, limit) {
        let more = choose|more: Seq<Seq<u8>>| #[trigger]
            distinct_words(documents, more) && more.len() > limit;
        more.unique_seq_to_set();
        words.lemma_cardinality_of_set();
        vstd::seq_lib::seq_to_set_is_finite(words);
        assert(more.to_set().subset_of(words.to_set())) by {
            assert forall|word: Seq<u8>| more.to_set().contains(word) implies words.to_set().contains(
                word,
            ) by {
                let i = choose|i: int| 0 <= i < more.len() && more[i] == word;
                assert(occurs(documents, more[i]));
            }
        }
        vstd::set_lib::lemma_len_subset(more.to_set(), words.to_set());
    }
}

/// A rearrangement has two documents at one root where the other has.
proof fn rearranged_doubled(left: Seq<Document<'_>>, right: Seq<Document<'_>>)
    requires
        rearranged(left, right),
        doubled(models(left)),
    ensures
        doubled(models(right)),
{
    broadcast use vstd::seq_lib::group_to_multiset_ensures;

    let all = models(left);
    let (i, j) = choose|i: int, j: int|
        0 <= i < j < all.len() && (#[trigger] all[i]).identity.root == (
        #[trigger] all[j]).identity.root;
    let (k, l) = if left[i] == left[j] {
        if right.no_duplicates() {
            right.lemma_multiset_has_no_duplicates();
            left.lemma_multiset_has_no_duplicates_conv();
            assert(left[i] != left[j]);
        }
        choose|k: int, l: int|
            0 <= k < right.len() && 0 <= l < right.len() && k != l && right[k] == right[l]
    } else {
        assert(left.contains(left[i]) && left.contains(left[j]));
        assert(right.to_multiset().count(left[i]) > 0 && right.to_multiset().count(left[j]) > 0);
        assert(right.contains(left[i]) && right.contains(left[j]));
        (
            choose|k: int| 0 <= k < right.len() && right[k] == left[i],
            choose|l: int| 0 <= l < right.len() && right[l] == left[j],
        )
    };
    let others = models(right);
    assert(others[k].identity.root == others[l].identity.root);
    if k < l {
        assert(0 <= k < l < others.len());
    } else {
        assert(0 <= l < k < others.len());
    }
}

/// Why documents that passed the first checks cannot be indexed, if they cannot.
pub open spec fn contents_error(documents: Seq<DocumentModel>, limits: IndexLimits) -> Option<Error> {
    if doubled(documents) {
        Some(Error::DuplicateDocument)
    } else if vocabulary_exceeds(documents, limits.terms) {
        Some(Error::Limit("dictionary terms"))
    } else {
        None
    }
}

/// Why documents fail the first checks, if they do.
pub open spec fn checked_error(
    documents: Seq<DocumentModel>,
    relation: RelationGeneration,
    limits: IndexLimits,
) -> Option<Error> {
    if documents.len() > limits.documents || documents.len() > u32::MAX {
        Some(Error::Limit("documents"))
    } else {
        documents_error(documents, relation, limits, 0)
    }
}

/// Whether an index is that of some documents.
pub open spec fn indexes(
    index: IndexModel,
    documents: Seq<DocumentModel>,
    relation: RelationGeneration,
) -> bool {
    &&& index.relation == relation
    &&& same_documents(index.documents, documents)
    &&& by_root(index.documents)
}

/// Why documents cannot be indexed, if they cannot.
pub open spec fn build_error(
    documents: Seq<DocumentModel>,
    relation: RelationGeneration,
    limits: IndexLimits,
    error: Error,
) -> bool {
    match checked_error(documents, relation, limits) {
        Some(refused) => error == refused,
        None => (out_of_memory(error) && documents.len() > 0) || contents_error(documents, limits)
            == Some(error),
    }
}

/// The documents by root, in room that was given.
fn ordered_in<'a>(documents: &[Document<'a>], room: Vec<Document<'a>>) -> (result: Result<
    Vec<Document<'a>>,
>)
    requires
        room@.len() == 0,
    ensures
        if doubled(models(documents@)) {
            result matches Err(error) && error == Error::DuplicateDocument
        } else {
            result matches Ok(ordered) && ordered@.len() == documents@.len() && same_documents(
                models(ordered@),
                models(documents@),
            ) && by_root(models(ordered@))
        },
{
    let mut all: Vec<Document<'a>> = room;
    let mut index: usize = 0;
    while index < documents.len()
        invariant
            index <= documents@.len(),
            all@ == documents@.take(index as int),
        decreases documents@.len() - index,
    {
        all.push(documents[index]);
        assert(all@ =~= documents@.take(index + 1));
        index += 1;
    }
    assert(all@ =~= documents@);
    let ordered: Vec<Document<'a>> = sorted(all);
    proof {
        rearranged_documents(documents@, ordered@);
        if doubled(models(ordered@)) {
            rearranged_doubled(ordered@, documents@);
        }
        if doubled(models(documents@)) {
            rearranged_doubled(documents@, ordered@);
        }
    }
    if has_doubled(&ordered) {
        return Err(Error::DuplicateDocument);
    }
    Ok(ordered)
}

/// The occurrences in documents, ranked, in room that was given.
fn postings_in<'a>(ordered: &Vec<Document<'a>>, room: Vec<Posting<'a>>) -> (postings: Vec<Posting<'a>>)
    requires
        room@.len() == 0,
        ordered@.len() <= u32::MAX,
    ensures
        ranked(postings@),
        faithful(postings@, models(ordered@)),
{
    let mut all: Vec<Posting<'a>> = room;
    collect(ordered, &mut all);
    let ghost unsorted = all@;
    let postings: Vec<Posting<'a>> = sorted(all);
    proof {
        rearranged_faithful(unsorted, postings@, models(ordered@));
    }
    postings
}

/// The number of distinct terms, where it is within the limit.
fn terms_within(
    postings: &Vec<Posting<'_>>,
    limits: IndexLimits,
    ordered: Ghost<Seq<DocumentModel>>,
    documents: Ghost<Seq<DocumentModel>>,
) -> (result: Result<usize>)
    requires
        ranked(postings@),
        faithful(postings@, ordered@),
        ordered@.len() <= u32::MAX,
        same_documents(ordered@, documents@),
    ensures
        if vocabulary_exceeds(documents@, limits.terms) {
            result == Err::<usize, Error>(Error::Limit("dictionary terms"))
        } else {
            result matches Ok(distinct) && distinct <= limits.terms && (documents@.len() == 0
                ==> distinct == 0)
        },
{
    let (distinct, words): (usize, Ghost<Seq<Seq<u8>>>) = count_terms(postings, ordered);
    proof {
        same_doubled(ordered@, documents@);
        same_doubled(documents@, ordered@);
    }
    if distinct > limits.terms {
        proof {
            assert forall|i: int| 0 <= i < words@.len() implies occurs(
                documents@,
                #[trigger] words@[i],
            ) by {
                assert(occurs(ordered@, words@[i]));
            }
            assert(distinct_words(documents@, words@));
        }
        return Err(Error::Limit("dictionary terms"));
    }
    proof {
        vocabulary_within(documents@, words@, limits.terms);
        if documents@.len() == 0 && words@.len() > 0 {
            assert(occurs(ordered@, words@[0]));
        }
    }
    Ok(distinct)
}

impl<'a> ReferenceIndex<'a> {
    #[verifier::type_invariant]
    closed spec fn inv(self) -> bool {
        &&& self.documents@.len() <= u32::MAX
        &&& by_root(models(self.documents@))
        &&& ranked(self.postings@)
        &&& faithful(self.postings@, models(self.documents@))
        &&& complete(self.terms@, self.postings@, models(self.documents@))
        &&& self.total_length == words_before(
            models(self.documents@),
            self.documents@.len() as int,
        )
    }

    /// Borrows input text; rejects duplicate roots, foreign generations and budget excess.
    pub fn build(relation: RelationGeneration, documents: &[Document<'a>], limits: IndexLimits) -> (result:
        Result<Self>)
        ensures
            match result {
                Ok(index) => {
                    &&& checked_error(models(documents@), relation, limits) is None
                    &&& contents_error(models(documents@), limits) is None
                    &&& indexes(index@, models(documents@), relation)
                    &&& index.retained() <= limits.memory_bytes
                },
                Err(error) => build_error(models(documents@), relation, limits, error),
            },
            checked_error(models(documents@), relation, limits) is None && documents@.len() > 0
                && documents@.len() * vstd::layout::size_of::<Document<'_>>() > limits.memory_bytes
                ==> (result matches Err(error) && error == Error::Budget(BudgetError::LimitExceeded)),
    {
        if documents.len() > limits.documents || documents.len() as u64 > u32::MAX as u64 {
            return Err(Error::Limit("documents"));
        }
        let total: usize = check_documents(relation, documents, limits)?;
        let mut budget: MemoryBudget = MemoryBudget::new(limits.memory_bytes);
        let room: Vec<Document<'a>> = vector(documents.len(), &mut budget)?;
        let ordered: Vec<Document<'a>> = ordered_in(documents, room)?;
        let ghost models = models(ordered@);
        let room: Vec<Posting<'a>> = vector(total, &mut budget)?;
        let postings: Vec<Posting<'a>> = postings_in(&ordered, room);
        let distinct: usize = terms_within(
            &postings,
            limits,
            Ghost(models),
            Ghost(self::models(documents@)),
        )?;
        let room: Vec<Term<'a>> = vector(distinct, &mut budget)?;
        Ok(ReferenceIndex::assemble(relation, ordered, postings, room, budget.used()))
    }

    /// Indexes documents in memory that was given for them, for their occurrences
    /// and for their terms.
    ///
    /// # Errors
    /// Rejects duplicate roots, foreign generations and excess of the other limits.
    pub fn build_in(
        relation: RelationGeneration,
        documents: &[Document<'a>],
        limits: IndexLimits,
        ordered: Vec<Document<'a>>,
        postings: Vec<Posting<'a>>,
        terms: Vec<Term<'a>>,
    ) -> (result: Result<Self>)
        requires
            ordered@.len() == 0,
            postings@.len() == 0,
            terms@.len() == 0,
        ensures
            match checked_error(models(documents@), relation, limits) {
                Some(refused) => result matches Err(error) && error == refused,
                None => match contents_error(models(documents@), limits) {
                    Some(refused) => result matches Err(error) && error == refused,
                    None => result matches Ok(index) && indexes(
                        index@,
                        models(documents@),
                        relation,
                    ) && index.retained() == 0,
                },
            },
    {
        if documents.len() > limits.documents || documents.len() as u64 > u32::MAX as u64 {
            return Err(Error::Limit("documents"));
        }
        check_documents(relation, documents, limits)?;
        let ordered: Vec<Document<'a>> = ordered_in(documents, ordered)?;
        let postings: Vec<Posting<'a>> = postings_in(&ordered, postings);
        terms_within(&postings, limits, Ghost(models(ordered@)), Ghost(models(documents@)))?;
        Ok(ReferenceIndex::assemble(relation, ordered, postings, terms, 0))
    }

    /// The index of ordered documents and their ranked occurrences.
    fn assemble(
        relation: RelationGeneration,
        ordered: Vec<Document<'a>>,
        postings: Vec<Posting<'a>>,
        room: Vec<Term<'a>>,
        retained_bytes: usize,
    ) -> (index: Self)
        requires
            ordered@.len() <= u32::MAX,
            by_root(models(ordered@)),
            ranked(postings@),
            faithful(postings@, models(ordered@)),
            room@.len() == 0,
        ensures
            index@.relation == relation,
            index@.documents == models(ordered@),
            index.retained() == retained_bytes,
    {
        let mut terms: Vec<Term<'a>> = room;
        group_terms(&postings, &mut terms, Ghost(models(ordered@)));
        let total_length: u64 = count_words(&ordered);
        ReferenceIndex {
            relation,
            documents: ordered,
            postings,
            terms,
            total_length,
            retained_bytes,
        }
    }

    pub fn relation(&self) -> (relation: RelationGeneration)
        ensures
            relation == self@.relation,
    {
        self.relation
    }

    pub fn profile(&self) -> (profile: u32)
        ensures
            profile == PROFILE_ID,
    {
        PROFILE_ID
    }

    pub fn documents(&self) -> (documents: &[Document<'a>])
        ensures
            models(documents@) == self@.documents,
    {
        self.documents.as_slice()
    }

    pub fn total_length(&self) -> (length: u64)
        ensures
            length == words_before(self@.documents, self@.documents.len() as int),
    {
        proof {
            use_type_invariant(self);
        }
        self.total_length
    }

    /// The memory that the index was charged for.
    pub closed spec fn retained(&self) -> nat {
        self.retained_bytes as nat
    }

    pub fn retained_bytes(&self) -> (bytes: usize)
        ensures
            bytes == self.retained(),
    {
        self.retained_bytes
    }

    /// How many terms the index has.
    pub closed spec fn vocabulary(&self) -> int {
        self.terms@.len() as int
    }

    /// How many occurrences of terms the index has.
    pub closed spec fn occurrences(&self) -> int {
        self.postings@.len() as int
    }

    /// The first term that does not precede a text.
    #[verifier::loop_isolation(false)]
    fn term_bound(&self, text: &str, work: &mut Work) -> (result: Result<usize>)
        ensures
            spent(old(work)@, final(work)@, result is Err, self.vocabulary()),
            match result {
                Ok(bound) => bound <= self.terms@.len() && (forall|t: int|
                    0 <= t < self.terms@.len() ==> (t < bound <==> precedes(
                        text_bytes((#[trigger] self.terms@[t]).text),
                        text_bytes(text),
                    ))),
                Err(error) => error == Error::Limit("search work"),
            },
    {
        proof {
            use_type_invariant(self);
        }
        let ghost terms = self.terms@;
        let ghost wanted = text_bytes(text);
        let mut low: usize = 0;
        let mut high: usize = self.terms.len();
        while low < high
            invariant
                low <= high <= terms.len(),
                work@ <= old(work)@,
                old(work)@ - work@ <= terms.len() - (high - low),
                forall|t: int|
                    0 <= t < low ==> precedes(text_bytes((#[trigger] terms[t]).text), wanted),
                forall|t: int|
                    high <= t < terms.len() ==> !precedes(
                        text_bytes((#[trigger] terms[t]).text),
                        wanted,
                    ),
            decreases high - low,
        {
            work.charge(1)?;
            let middle: usize = low + (high - low) / 2;
            let ghost pivot = text_bytes(terms[middle as int].text);
            if bytes_precede(self.terms[middle].text.as_bytes(), text.as_bytes()) {
                assert forall|t: int| 0 <= t <= middle implies precedes(
                    text_bytes((#[trigger] terms[t]).text),
                    wanted,
                ) by {
                    if t < middle {
                        precedes_transitive(text_bytes(terms[t].text), pivot, wanted);
                    }
                }
                low = middle + 1;
            } else {
                assert forall|t: int| middle <= t < terms.len() implies !precedes(
                    text_bytes((#[trigger] terms[t]).text),
                    wanted,
                ) by {
                    if t > middle && precedes(text_bytes(terms[t].text), wanted) {
                        precedes_transitive(pivot, text_bytes(terms[t].text), wanted);
                    }
                }
                high = middle;
            }
        }
        Ok(low)
    }

    /// The place of a term, if it occurs.
    fn lookup(&self, text: &str, work: &mut Work) -> (result: Result<Option<usize>>)
        ensures
            spent(old(work)@, final(work)@, result is Err, self.vocabulary()),
            match result {
                Ok(Some(term)) => term < self.terms@.len() && text_bytes(
                    self.terms@[term as int].text,
                ) == text_bytes(text),
                Ok(None) => !listed(self.terms@, text_bytes(text)),
                Err(error) => error == Error::Limit("search work"),
            },
    {
        let bound: usize = self.term_bound(text, work)?;
        let ghost terms = self.terms@;
        let ghost wanted = text_bytes(text);
        proof {
            use_type_invariant(self);
        }
        if bound < self.terms.len() && same_bytes(
            self.terms[bound].text.as_bytes(),
            text.as_bytes(),
        ) {
            return Ok(Some(bound));
        }
        proof {
            assert forall|t: int| 0 <= t < terms.len() implies text_bytes(
                (#[trigger] terms[t]).text,
            ) != wanted by {
                precedes_total(text_bytes(terms[t].text), wanted);
                if t > bound {
                    assert(!precedes(text_bytes(terms[bound as int].text), wanted));
                }
            }
        }
        Ok(None)
    }

    /// How many documents hold a term.
    pub fn document_frequency(&self, term: &str) -> (frequency: u64)
        ensures
            frequency == holders(
                self@.documents,
                text_bytes(term),
                self@.documents.len() as int,
            ),
    {
        proof {
            use_type_invariant(self);
        }
        let ghost wanted = text_bytes(term);
        let mut low: usize = 0;
        let mut high: usize = self.terms.len();
        let ghost terms = self.terms@;
        while low < high
            invariant
                low <= high <= terms.len(),
                terms == self.terms@,
                wanted == text_bytes(term),
                complete(terms, self.postings@, models(self.documents@)),
                forall|t: int|
                    0 <= t < low ==> precedes(text_bytes((#[trigger] terms[t]).text), wanted),
                forall|t: int|
                    high <= t < terms.len() ==> precedes(
                        wanted,
                        text_bytes((#[trigger] terms[t]).text),
                    ),
            decreases high - low,
        {
            let middle: usize = low + (high - low) / 2;
            let ghost pivot = text_bytes(terms[middle as int].text);
            let text: &[u8] = self.terms[middle].text.as_bytes();
            if same_bytes(text, term.as_bytes()) {
                return self.terms[middle].frequency;
            }
            if bytes_precede(text, term.as_bytes()) {
                assert forall|t: int| 0 <= t <= middle implies precedes(
                    text_bytes((#[trigger] terms[t]).text),
                    wanted,
                ) by {
                    if t < middle {
                        precedes_transitive(text_bytes(terms[t].text), pivot, wanted);
                    }
                }
                low = middle + 1;
            } else {
                proof {
                    precedes_total(pivot, wanted);
                }
                assert forall|t: int| middle <= t < terms.len() implies precedes(
                    wanted,
                    text_bytes((#[trigger] terms[t]).text),
                ) by {
                    if t > middle {
                        precedes_transitive(wanted, pivot, text_bytes(terms[t].text));
                    }
                }
                high = middle;
            }
        }
        proof {
            assert forall|t: int| 0 <= t < terms.len() implies text_bytes(
                (#[trigger] terms[t]).text,
            ) != wanted by {
                precedes_total(text_bytes(terms[t].text), wanted);
            }
            self.unlisted(wanted);
            assert forall|d: int| 0 <= d < self@.documents.len() implies !(
            #[trigger] self@.documents[d]).words.contains(wanted) by {}
            holders_skip(self@.documents, wanted, 0, self@.documents.len() as int);
        }
        0
    }

    /// What is not among the terms is no word of a document.
    proof fn unlisted(self, text: Seq<u8>)
        requires
            complete(self.terms@, self.postings@, models(self.documents@)),
            faithful(self.postings@, models(self.documents@)),
            !listed(self.terms@, text),
        ensures
            forall|d: int|
                0 <= d < self@.documents.len() ==> !(
                #[trigger] self@.documents[d]).words.contains(text),
    {
        let postings = self.postings@;
        let documents = models(self.documents@);
        assert forall|d: int| 0 <= d < self@.documents.len() implies !(
        #[trigger] self@.documents[d]).words.contains(text) by {
            assert forall|i: int|
                0 <= i < postings.len() && text_bytes((#[trigger] postings[i]).term)
                    == text implies postings[i].document != d by {
                assert(listed(self.terms@, text_bytes(postings[i].term)));
            }
            absent(postings, documents, text, d);
        }
    }
}

impl<'a> ReferenceIndex<'a> {
    /// The places of the terms with a prefix.
    #[verifier::loop_isolation(false)]
    fn prefix(&self, prefix: &str, work: &mut Work) -> (result: Result<(usize, usize)>)
        ensures
            spent(old(work)@, final(work)@, result is Err, 2 * self.vocabulary()),
            match result {
                Ok((begin, end)) => begin <= end <= self.terms@.len() && (forall|t: int|
                    0 <= t < self.terms@.len() ==> (begin <= t < end <==> starts_with(
                        text_bytes((#[trigger] self.terms@[t]).text),
                        text_bytes(prefix),
                    ))),
                Err(error) => error == Error::Limit("search work"),
            },
    {
        let begin: usize = self.term_bound(prefix, work)?;
        proof {
            use_type_invariant(self);
        }
        let ghost terms = self.terms@;
        let ghost wanted = text_bytes(prefix);
        let mut low: usize = begin;
        let mut high: usize = self.terms.len();
        while low < high
            invariant
                begin <= low <= high <= terms.len(),
                work@ <= old(work)@,
                old(work)@ - work@ <= 2 * terms.len() - (high - low),
                forall|t: int|
                    begin <= t < low ==> starts_with(
                        text_bytes((#[trigger] terms[t]).text),
                        wanted,
                    ),
                forall|t: int|
                    high <= t < terms.len() ==> !starts_with(
                        text_bytes((#[trigger] terms[t]).text),
                        wanted,
                    ),
            decreases high - low,
        {
            work.charge(1)?;
            let middle: usize = low + (high - low) / 2;
            let ghost pivot = text_bytes(terms[middle as int].text);
            if bytes_start_with(self.terms[middle].text.as_bytes(), prefix.as_bytes()) {
                assert forall|t: int| begin <= t <= middle implies starts_with(
                    text_bytes((#[trigger] terms[t]).text),
                    wanted,
                ) by {
                    prefix_between(wanted, text_bytes(terms[t].text), pivot);
                    precedes_total(text_bytes(terms[t].text), pivot);
                }
                low = middle + 1;
            } else {
                assert forall|t: int| middle <= t < terms.len() implies !starts_with(
                    text_bytes((#[trigger] terms[t]).text),
                    wanted,
                ) by {
                    if t > middle && starts_with(text_bytes(terms[t].text), wanted) {
                        prefix_between(wanted, pivot, text_bytes(terms[t].text));
                        precedes_total(pivot, text_bytes(terms[t].text));
                    }
                }
                high = middle;
            }
        }
        proof {
            assert forall|t: int| 0 <= t < begin implies !starts_with(
                text_bytes((#[trigger] terms[t]).text),
                wanted,
            ) by {
                if starts_with(text_bytes(terms[t].text), wanted) {
                    prefix_between(wanted, wanted, text_bytes(terms[t].text));
                }
            }
        }
        Ok((begin, low))
    }

    /// Whether a range holds exactly the occurrences of a text in a document.
    closed spec fn local(&self, begin: usize, end: usize, text: Seq<u8>, document: u32) -> bool {
        &&& begin <= end <= self.postings@.len()
        &&& forall|i: int|
            0 <= i < self.postings@.len() ==> (begin <= i < end <==> text_bytes(
                (#[trigger] self.postings@[i]).term,
            ) == text && self.postings@[i].document == document)
    }

    /// The occurrences of a term in a document.
    #[verifier::loop_isolation(false)]
    fn document_postings(&self, term: usize, document: u32, work: &mut Work) -> (result: Result<
        (usize, usize),
    >)
        requires
            term < self.terms@.len(),
        ensures
            spent(old(work)@, final(work)@, result is Err, 2 * self.occurrences()),
            match result {
                Ok((begin, end)) => self.local(
                    begin,
                    end,
                    text_bytes(self.terms@[term as int].text),
                    document,
                ),
                Err(error) => error == Error::Limit("search work"),
            },
    {
        proof {
            use_type_invariant(self);
        }
        let ghost list = self.postings@;
        let ghost text = text_bytes(self.terms@[term as int].text);
        let first: usize = self.terms[term].begin;
        let last: usize = self.terms[term].end;
        assert(covers(list, self.terms@[term as int]));
        proof {
            precedes_total(text, text);
        }
        let mut low: usize = first;
        let mut high: usize = last;
        while low < high
            invariant
                first <= low <= high <= last,
                work@ <= old(work)@,
                old(work)@ - work@ <= list.len() - (high - low),
                forall|i: int| first <= i < low ==> (#[trigger] list[i]).document < document,
                forall|i: int| high <= i < last ==> (#[trigger] list[i]).document >= document,
            decreases high - low,
        {
            work.charge(1)?;
            let middle: usize = low + (high - low) / 2;
            if self.postings[middle].document < document {
                assert forall|i: int| first <= i <= middle implies (#[trigger] list[i]).document
                    < document by {
                    if i < middle {
                        assert(list[i].at_most(list[middle as int]));
                    }
                }
                low = middle + 1;
            } else {
                assert forall|i: int| middle <= i < last implies (#[trigger] list[i]).document
                    >= document by {
                    if i > middle {
                        assert(list[middle as int].at_most(list[i]));
                    }
                }
                high = middle;
            }
        }
        let begin: usize = low;
        high = last;
        while low < high
            invariant
                begin <= low <= high <= last,
                work@ <= old(work)@,
                old(work)@ - work@ <= 2 * list.len() - (high - low),
                forall|i: int| begin <= i < low ==> (#[trigger] list[i]).document == document,
                forall|i: int| high <= i < last ==> (#[trigger] list[i]).document > document,
            decreases high - low,
        {
            work.charge(1)?;
            let middle: usize = low + (high - low) / 2;
            assert(list[middle as int].document >= document);
            if self.postings[middle].document == document {
                assert forall|i: int| begin <= i <= middle implies (#[trigger] list[i]).document
                    == document by {
                    if i < middle {
                        assert(list[i].at_most(list[middle as int]));
                        assert(list[i].document >= document);
                    }
                }
                low = middle + 1;
            } else {
                assert forall|i: int| middle <= i < last implies (#[trigger] list[i]).document
                    > document by {
                    if i > middle {
                        assert(list[middle as int].at_most(list[i]));
                    }
                }
                high = middle;
            }
        }
        Ok((begin, low))
    }

    /// A local range is empty exactly where the document lacks the text.
    proof fn local_present(&self, begin: usize, end: usize, text: Seq<u8>, document: u32)
        requires
            faithful(self.postings@, models(self.documents@)),
            self.local(begin, end, text, document),
            document < self.documents@.len(),
        ensures
            (begin < end) == self@.documents[document as int].words.contains(text),
            forall|p: int|
                0 <= p < self@.documents[document as int].words.len()
                    && #[trigger] self@.documents[document as int].words[p] == text ==> exists|i: int|
                    begin <= i < end && (#[trigger] self.postings@[i]).position == p,
            forall|i: int|
                begin <= i < end ==> (#[trigger] self.postings@[i]).position
                    < self@.documents[document as int].words.len()
                    && self@.documents[document as int].words[self.postings@[i].position as int]
                    == text,
    {
        let list = self.postings@;
        let documents = models(self.documents@);
        let words = documents[document as int].words;
        assert forall|p: int| 0 <= p < words.len() && #[trigger] words[p] == text implies exists|
            i: int,
        | begin <= i < end && (#[trigger] list[i]).position == p by {
            assert(posted(list, document as int, p));
            let i = choose|i: int| #[trigger] stands(list, i, document as int, p);
            assert(sound(list[i], documents));
            assert(begin <= i < end && list[i].position == p);
        }
        assert forall|i: int| begin <= i < end implies (#[trigger] list[i]).position < words.len()
            && words[list[i].position as int] == text by {
            assert(sound(list[i], documents));
        }
        if begin < end {
            assert(list[begin as int].position < words.len());
            assert(words[list[begin as int].position as int] == text);
        } else {
            if words.contains(text) {
                let p = choose|p: int| 0 <= p < words.len() && words[p] == text;
                let i = choose|i: int| begin <= i < end && (#[trigger] list[i]).position == p;
                assert(false);
            }
        }
    }

    /// Whether a local range holds a position.
    #[verifier::loop_isolation(false)]
    fn has_position(
        &self,
        begin: usize,
        end: usize,
        position: u32,
        work: &mut Work,
        text: Ghost<Seq<u8>>,
        document: Ghost<u32>,
    ) -> (result: Result<bool>)
        requires
            self.local(begin, end, text@, document@),
        ensures
            spent(old(work)@, final(work)@, result is Err, self.occurrences()),
            match result {
                Ok(found) => found == exists|i: int|
                    begin <= i < end && (#[trigger] self.postings@[i]).position == position,
                Err(error) => error == Error::Limit("search work"),
            },
    {
        proof {
            use_type_invariant(self);
            precedes_total(text@, text@);
        }
        let ghost list = self.postings@;
        let mut low: usize = begin;
        let mut high: usize = end;
        while low < high
            invariant
                begin <= low <= high <= end,
                work@ <= old(work)@,
                old(work)@ - work@ <= list.len() - (high - low),
                forall|i: int| begin <= i < low ==> (#[trigger] list[i]).position < position,
                forall|i: int| high <= i < end ==> (#[trigger] list[i]).position >= position,
            decreases high - low,
        {
            work.charge(1)?;
            let middle: usize = low + (high - low) / 2;
            if self.postings[middle].position < position {
                assert forall|i: int| begin <= i <= middle implies (#[trigger] list[i]).position
                    < position by {
                    if i < middle {
                        assert(list[i].at_most(list[middle as int]));
                    }
                }
                low = middle + 1;
            } else {
                assert forall|i: int| middle <= i < end implies (#[trigger] list[i]).position
                    >= position by {
                    if i > middle {
                        assert(list[middle as int].at_most(list[i]));
                    }
                }
                high = middle;
            }
        }
        if low < end && self.postings[low].position == position {
            assert(list[low as int].position == position);
            return Ok(true);
        }
        assert forall|i: int| begin <= i < end implies (#[trigger] list[i]).position
            != position by {
            if i > low {
                assert(list[low as int].at_most(list[i]));
                assert(list[low as int].position >= position);
            }
        }
        Ok(false)
    }
}

/// A node of a query, bound to the terms of an index.
pub enum Bound {
    Never,
    Term(Option<usize>),
    Prefix(usize, usize),
    Phrase(usize, usize),
    Not(usize),
    And(usize, usize),
    Or(usize, usize),
}

/// A term of a phrase, bound to the terms of an index.
#[derive(Clone, Copy)]
pub struct PhraseTerm {
    term: Option<usize>,
    offset: u32,
}

/// Whether a place is that of a text, or the text has none.
spec fn placed(terms: Seq<Term<'_>>, place: Option<usize>, text: Seq<u8>) -> bool {
    match place {
        Some(term) => term < terms.len() && text_bytes(terms[term as int].text) == text,
        None => !listed(terms, text),
    }
}

/// Whether bound terms are those of a phrase.
spec fn phrase_placed(
    terms: Seq<Term<'_>>,
    bound: Seq<PhraseTerm>,
    begin: int,
    end: int,
    phrase: Seq<Seq<u8>>,
) -> bool {
    &&& 0 <= begin && end <= bound.len() && end - begin == phrase.len() && phrase.len() > 0
    &&& forall|k: int|
        0 <= k < phrase.len() ==> placed(
            terms,
            (#[trigger] bound[begin + k]).term,
            phrase[k],
        ) && bound[begin + k].offset == k
}

/// Whether a bound node stands for a node of a query.
spec fn node_placed(
    terms: Seq<Term<'_>>,
    bound: Seq<PhraseTerm>,
    node: Bound,
    kind: KindModel,
) -> bool {
    match (node, kind) {
        (Bound::Never, KindModel::Nothing) => true,
        (Bound::Term(place), KindModel::Term(text)) => placed(terms, place, text),
        (Bound::Prefix(begin, end), KindModel::Prefix(prefix)) => begin <= end <= terms.len() && (
        forall|t: int|
            0 <= t < terms.len() ==> (begin <= t < end <==> starts_with(
                text_bytes((#[trigger] terms[t]).text),
                prefix,
            ))),
        (Bound::Phrase(begin, end), KindModel::Phrase(phrase)) => phrase_placed(
            terms,
            bound,
            begin as int,
            end as int,
            phrase,
        ),
        (Bound::Not(child), KindModel::Not(other)) => child == other,
        (Bound::And(left, right), KindModel::And(one, two)) => left == one && right == two,
        (Bound::Or(left, right), KindModel::Or(one, two)) => left == one && right == two,
        _ => false,
    }
}

/// Each word of a phrase in a document is a word of it.
proof fn phrase_words(words: Seq<Seq<u8>>, phrase: Seq<Seq<u8>>, start: int, k: int)
    requires
        phrase_at(words, phrase, start),
        0 <= k < phrase.len(),
    ensures
        0 <= start + k < words.len(),
        words[start + k] == phrase[k],
        words.contains(phrase[k]),
{
    let part = words.subrange(start, start + phrase.len());
    assert(part[k] == phrase[k]);
}

/// Whether work was spent within a bound, or did not suffice for it.
pub open spec fn spent(before: nat, after: nat, failed: bool, bound: int) -> bool {
    if failed {
        before < bound
    } else {
        after <= before && before - after <= bound
    }
}

/// How many steps it takes at most to look for a phrase in a document.
pub open spec fn phrase_bound(length: int, occurrences: int) -> int {
    length * (1 + 2 * occurrences) + occurrences * (1 + length * (1 + occurrences))
}

/// How many steps a node takes at most on one document.
pub open spec fn node_bound(kind: KindModel, vocabulary: int, occurrences: int) -> int {
    1 + match kind {
        KindModel::Term(_) => 2 * occurrences,
        KindModel::Prefix(_) => vocabulary * (1 + 2 * occurrences),
        KindModel::Phrase(terms) => phrase_bound(terms.len() as int, occurrences),
        _ => 0,
    }
}

/// How many steps the first nodes of a query take at most on one document.
pub open spec fn nodes_bound(nodes: Seq<KindModel>, vocabulary: int, occurrences: int) -> int
    decreases nodes.len(),
{
    if nodes.len() == 0 {
        0
    } else {
        nodes_bound(nodes.drop_last(), vocabulary, occurrences) + node_bound(
            nodes.last(),
            vocabulary,
            occurrences,
        )
    }
}

/// How many steps it takes at most to bind a node.
pub open spec fn binding_bound(kind: KindModel, vocabulary: int) -> int {
    1 + match kind {
        KindModel::Term(_) => vocabulary,
        KindModel::Prefix(_) => 2 * vocabulary,
        KindModel::Phrase(terms) => terms.len() * (1 + vocabulary),
        _ => 0,
    }
}

/// How many steps it takes at most to bind the first nodes of a query.
pub open spec fn bindings_bound(nodes: Seq<KindModel>, vocabulary: int) -> int
    decreases nodes.len(),
{
    if nodes.len() == 0 {
        0
    } else {
        bindings_bound(nodes.drop_last(), vocabulary) + binding_bound(nodes.last(), vocabulary)
    }
}

/// The words of the phrases among the first nodes of a query.
pub open spec fn phrase_total(nodes: Seq<KindModel>) -> int
    decreases nodes.len(),
{
    if nodes.len() == 0 {
        0
    } else {
        phrase_total(nodes.drop_last()) + match nodes.last() {
            KindModel::Phrase(terms) => terms.len() as int,
            _ => 0,
        }
    }
}

proof fn bounds_grow(nodes: Seq<KindModel>, index: int, vocabulary: int, occurrences: int)
    requires
        0 <= index <= nodes.len(),
        0 <= vocabulary,
        0 <= occurrences,
    ensures
        0 <= nodes_bound(nodes.take(index), vocabulary, occurrences) <= nodes_bound(
            nodes,
            vocabulary,
            occurrences,
        ),
        0 <= bindings_bound(nodes.take(index), vocabulary) <= bindings_bound(nodes, vocabulary),
        0 <= phrase_total(nodes.take(index)) <= phrase_total(nodes),
        index < nodes.len() ==> {
            &&& nodes_bound(nodes.take(index + 1), vocabulary, occurrences) == nodes_bound(
                nodes.take(index),
                vocabulary,
                occurrences,
            ) + node_bound(nodes[index], vocabulary, occurrences)
            &&& bindings_bound(nodes.take(index + 1), vocabulary) == bindings_bound(
                nodes.take(index),
                vocabulary,
            ) + binding_bound(nodes[index], vocabulary)
            &&& nodes_bound(nodes.take(index + 1), vocabulary, occurrences) <= nodes_bound(
                nodes,
                vocabulary,
                occurrences,
            )
            &&& bindings_bound(nodes.take(index + 1), vocabulary) <= bindings_bound(
                nodes,
                vocabulary,
            )
        },
    decreases nodes.len(),
{
    if index < nodes.len() {
        assert(nodes.take(index + 1).drop_last() =~= nodes.take(index));
        assert(nodes.take(index + 1).last() == nodes[index]);
    }
    if nodes.len() > 0 {
        let last = nodes.last();
        assert(node_bound(last, vocabulary, occurrences) >= 0 && binding_bound(last, vocabulary)
            >= 0) by {
            if let KindModel::Phrase(terms) = last {
                let length = terms.len() as int;
                assert(phrase_bound(length, occurrences) >= 0) by (nonlinear_arith)
                    requires
                        length >= 0,
                        occurrences >= 0,
                ;
                assert(length * (1 + vocabulary) >= 0) by (nonlinear_arith)
                    requires
                        length >= 0,
                        vocabulary >= 0,
                ;
            }
            assert(vocabulary * (1 + 2 * occurrences) >= 0) by (nonlinear_arith)
                requires
                    vocabulary >= 0,
                    occurrences >= 0,
            ;
        }
        let rest = nodes.drop_last();
        if index < nodes.len() {
            bounds_grow(rest, index, vocabulary, occurrences);
            assert(rest.take(index) =~= nodes.take(index));
            if index + 1 < nodes.len() {
                assert(rest.take(index + 1) =~= nodes.take(index + 1));
            } else {
                assert(nodes.take(index + 1) =~= nodes);
            }
        } else {
            bounds_grow(rest, rest.len() as int, vocabulary, occurrences);
            assert(rest.take(rest.len() as int) =~= rest);
            assert(nodes.take(index) =~= nodes);
        }
    }
}

/// One step more of several.
proof fn steps_more(done: int, total: int, each: int)
    requires
        0 <= done < total,
        0 <= each,
    ensures
        (done + 1) * each == done * each + each,
        (done + 1) * each <= total * each,
        0 <= done * each,
{
    assert((done + 1) * each == done * each + each) by (nonlinear_arith);
    assert((done + 1) * each <= total * each) by (nonlinear_arith)
        requires
            done + 1 <= total,
            0 <= each,
    ;
    assert(0 <= done * each) by (nonlinear_arith)
        requires
            0 <= done,
            0 <= each,
    ;
}

/// Finds the occurrences of each word of a phrase; where one has none, nothing.
#[verifier::loop_isolation(false)]
fn phrase_ranges(
    index: &ReferenceIndex<'_>,
    terms: &Vec<PhraseTerm>,
    begin: usize,
    end: usize,
    ranges: &mut Vec<(usize, usize)>,
    document: u32,
    work: &mut Work,
    phrase: Ghost<Seq<Seq<u8>>>,
) -> (result: Result<Option<usize>>)
    requires
        phrase_placed(index.terms@, terms@, begin as int, end as int, phrase@),
        old(ranges)@.len() >= phrase@.len(),
        document < index.documents@.len(),
    ensures
        final(ranges)@.len() == old(ranges)@.len(),
        spent(
            old(work)@,
            final(work)@,
            result is Err,
            phrase@.len() * (1 + 2 * index.occurrences()),
        ),
        match result {
            Ok(Some(anchor)) => anchor < phrase@.len() && (forall|k: int|
                0 <= k < phrase@.len() ==> index.local(
                    (#[trigger] final(ranges)@[k]).0,
                    final(ranges)@[k].1,
                    phrase@[k],
                    document,
                )),
            Ok(None) => !phrase_present(index@.documents[document as int].words, phrase@),
            Err(error) => error == Error::Limit("search work"),
        },
{
    proof {
        use_type_invariant(index);
    }
    let ghost words = index@.documents[document as int].words;
    let count: usize = end - begin;
    let ghost each = 1 + 2 * index.occurrences();
    assert(0 * each == 0);
    let mut anchor: usize = 0;
    let mut slot: usize = 0;
    while slot < count
        invariant
            slot <= count == phrase@.len(),
            ranges@.len() == old(ranges)@.len(),
            work@ <= old(work)@,
            old(work)@ - work@ <= slot * each,
            anchor < count,
            slot == 0 ==> anchor == 0,
            slot > 0 ==> anchor < slot,
            forall|k: int|
                0 <= k < slot ==> index.local(
                    (#[trigger] ranges@[k]).0,
                    ranges@[k].1,
                    phrase@[k],
                    document,
                ),
        decreases count - slot,
    {
        proof {
            steps_more(slot as int, count as int, each);
        }
        work.charge(1)?;
        assert(placed(index.terms@, terms@[begin + slot].term, phrase@[slot as int]));
        let term: usize = match terms[begin + slot].term {
            Some(term) => term,
            None => {
                proof {
                    index.unlisted(phrase@[slot as int]);
                    if phrase_present(words, phrase@) {
                        let start = choose|start: int| #[trigger] phrase_at(words, phrase@, start);
                        phrase_words(words, phrase@, start, slot as int);
                        assert(!index@.documents[document as int].words.contains(
                            phrase@[slot as int],
                        ));
                    }
                }
                return Ok(None);
            },
        };
        let range: (usize, usize) = index.document_postings(term, document, work)?;
        if range.0 >= range.1 {
            proof {
                index.local_present(range.0, range.1, phrase@[slot as int], document);
                if phrase_present(words, phrase@) {
                    let start = choose|start: int| #[trigger] phrase_at(words, phrase@, start);
                    phrase_words(words, phrase@, start, slot as int);
                }
            }
            return Ok(None);
        }
        let ghost before = ranges@;
        ranges.set(slot, range);
        if range.1 - range.0 < ranges[anchor].1.wrapping_sub(ranges[anchor].0) {
            anchor = slot;
        }
        assert forall|k: int| 0 <= k < slot + 1 implies index.local(
            (#[trigger] ranges@[k]).0,
            ranges@[k].1,
            phrase@[k],
            document,
        ) by {
            if k < slot {
                assert(ranges@[k] == before[k]);
            }
        }
        slot += 1;
    }
    Ok(Some(anchor))
}

/// Whether all words of a phrase but the anchor stand behind a start.
#[verifier::loop_isolation(false)]
fn phrase_starts(
    index: &ReferenceIndex<'_>,
    terms: &Vec<PhraseTerm>,
    begin: usize,
    end: usize,
    ranges: &Vec<(usize, usize)>,
    anchor: usize,
    start: u32,
    document: u32,
    work: &mut Work,
    phrase: Ghost<Seq<Seq<u8>>>,
) -> (result: Result<bool>)
    requires
        phrase_placed(index.terms@, terms@, begin as int, end as int, phrase@),
        ranges@.len() >= phrase@.len(),
        document < index.documents@.len(),
        anchor < phrase@.len(),
        start + anchor < index@.documents[document as int].words.len(),
        index@.documents[document as int].words[start + anchor] == phrase@[anchor as int],
        forall|k: int|
            0 <= k < phrase@.len() ==> index.local(
                (#[trigger] ranges@[k]).0,
                ranges@[k].1,
                phrase@[k],
                document,
            ),
    ensures
        spent(
            old(work)@,
            final(work)@,
            result is Err,
            phrase@.len() * (1 + index.occurrences()),
        ),
        match result {
            Ok(found) => found == phrase_at(
                index@.documents[document as int].words,
                phrase@,
                start as int,
            ),
            Err(error) => error == Error::Limit("search work"),
        },
{
    proof {
        use_type_invariant(index);
    }
    let ghost words = index@.documents[document as int].words;
    let count: usize = end - begin;
    let ghost each = 1 + index.occurrences();
    assert(0 * each == 0);
    let mut slot: usize = 0;
    while slot < count
        invariant
            slot <= count == phrase@.len(),
            work@ <= old(work)@,
            old(work)@ - work@ <= slot * each,
            forall|k: int|
                0 <= k < slot ==> start + k < words.len() && words[start + k]
                    == #[trigger] phrase@[k],
        decreases count - slot,
    {
        proof {
            steps_more(slot as int, count as int, each);
        }
        if slot != anchor {
            work.charge(1)?;
            assert(terms@[begin + slot].offset == slot);
            assert(index.local(
                ranges@[slot as int].0,
                ranges@[slot as int].1,
                phrase@[slot as int],
                document,
            ));
            proof {
                index.local_present(
                    ranges@[slot as int].0,
                    ranges@[slot as int].1,
                    phrase@[slot as int],
                    document,
                );
                if phrase_at(words, phrase@, start as int) {
                    phrase_words(words, phrase@, start as int, slot as int);
                }
            }
            let position: u32 = match start.checked_add(terms[begin + slot].offset) {
                Some(position) => position,
                None => {
                    let length: u32 = index.documents[document as usize].length();
                    assert(length == words.len());
                    return Ok(false);
                },
            };
            let (low, high): (usize, usize) = ranges[slot];
            if !index.has_position(
                low,
                high,
                position,
                work,
                Ghost(phrase@[slot as int]),
                Ghost(document),
            )? {
                return Ok(false);
            }
        }
        slot += 1;
    }
    proof {
        let part = words.subrange(start as int, start + phrase@.len());
        assert(start + (count - 1) < words.len()) by {
            assert(words[start + (count - 1)] == phrase@[count - 1]);
        }
        assert(part =~= phrase@);
    }
    Ok(true)
}

/// Whether a phrase stands in a document.
#[verifier::loop_isolation(false)]
fn phrase_found(
    index: &ReferenceIndex<'_>,
    terms: &Vec<PhraseTerm>,
    begin: usize,
    end: usize,
    ranges: &mut Vec<(usize, usize)>,
    document: u32,
    work: &mut Work,
    phrase: Ghost<Seq<Seq<u8>>>,
) -> (result: Result<bool>)
    requires
        phrase_placed(index.terms@, terms@, begin as int, end as int, phrase@),
        old(ranges)@.len() >= phrase@.len(),
        document < index.documents@.len(),
    ensures
        final(ranges)@.len() == old(ranges)@.len(),
        spent(
            old(work)@,
            final(work)@,
            result is Err,
            phrase_bound(phrase@.len() as int, index.occurrences()),
        ),
        match result {
            Ok(found) => found == phrase_present(
                index@.documents[document as int].words,
                phrase@,
            ),
            Err(error) => error == Error::Limit("search work"),
        },
{
    proof {
        use_type_invariant(index);
    }
    let ghost words = index@.documents[document as int].words;
    let anchor: usize = match phrase_ranges(
        index,
        terms,
        begin,
        end,
        ranges,
        document,
        work,
        phrase,
    )? {
        Some(anchor) => anchor,
        None => {
            return Ok(false);
        },
    };
    // probe positions only after every phrase term has a local posting list.
    let (low, high): (usize, usize) = ranges[anchor];
    let offset: u32 = terms[begin + anchor].offset;
    assert(terms@[begin + anchor].offset == anchor);
    assert(index.local(
        ranges@[anchor as int].0,
        ranges@[anchor as int].1,
        phrase@[anchor as int],
        document,
    ));
    proof {
        index.local_present(low, high, phrase@[anchor as int], document);
    }
    let ghost whole = phrase@.len() * (1 + 2 * index.occurrences());
    let ghost each = 1 + phrase@.len() * (1 + index.occurrences());
    assert(0 * each == 0);
    let ghost begun = work@;
    let mut at: usize = low;
    while at < high
        invariant
            low <= at <= high,
            work@ <= begun,
            begun - work@ <= (at - low) * each,
            ranges@.len() == old(ranges)@.len(),
            forall|i: int|
                low <= i < at && (#[trigger] index.postings@[i]).position >= offset ==> !phrase_at(
                    words,
                    phrase@,
                    index.postings@[i].position - offset,
                ),
        decreases high - at,
    {
        proof {
            assert(each >= 1) by (nonlinear_arith)
                requires
                    each == 1 + phrase@.len() * (1 + index.occurrences()),
                    index.occurrences() >= 0,
            ;
            steps_more(at - low, index.occurrences(), each);
        }
        work.charge(1)?;
        let position: u32 = index.postings[at].position;
        assert(words[index.postings@[at as int].position as int] == phrase@[anchor as int]);
        if position >= offset {
            if phrase_starts(
                index,
                terms,
                begin,
                end,
                ranges,
                anchor,
                position - offset,
                document,
                work,
                phrase,
            )? {
                return Ok(true);
            }
        }
        at += 1;
    }
    assert((at - low) * each <= index.occurrences() * each) by (nonlinear_arith)
        requires
            at - low <= index.occurrences(),
            each >= 0,
            at >= low,
    ;
    proof {
        if phrase_present(words, phrase@) {
            let start = choose|start: int| #[trigger] phrase_at(words, phrase@, start);
            phrase_words(words, phrase@, start, anchor as int);
            let p = start + anchor;
            assert(words[p] == phrase@[anchor as int]);
            let i = choose|i: int| low <= i < high && (#[trigger] index.postings@[i]).position == p;
            assert(index.postings@[i].position >= offset);
            assert(index.postings@[i].position - offset == start);
        }
    }
    Ok(false)
}

/// A document that satisfies a query; never a visibility proof.
#[derive(Clone, Copy, Debug, Eq, PartialEq, Structural)]
pub struct Candidate {
    pub document: DocumentRef,
    /// The place of the document in the index.
    pub ordinal: u32,
}

/// A query at work on the documents of an index.
pub struct Search<'i, 'a> {
    index: &'i ReferenceIndex<'a>,
    nodes: Vec<Bound>,
    phrase_terms: Vec<PhraseTerm>,
    values: Vec<bool>,
    ranges: Vec<(usize, usize)>,
    root: usize,
    next_document: usize,
    failed: bool,
    budget: MemoryBudget,
    work: Work,
    query: Ghost<QueryModel>,
}

/// What a search is about and how far it came.
#[verifier::ext_equal]
pub struct SearchModel {
    pub documents: Seq<DocumentModel>,
    pub query: QueryModel,
    pub next: int,
    pub failed: bool,
    /// How many steps the search may still take.
    pub steps: int,
    /// How many steps one document takes at most.
    pub cost: int,
}

impl<'i, 'a> View for Search<'i, 'a> {
    type V = SearchModel;

    closed spec fn view(&self) -> SearchModel {
        SearchModel {
            documents: self.index@.documents,
            query: self.query@,
            next: self.next_document as int,
            failed: self.failed,
            steps: self.work@ as int,
            cost: nodes_bound(
                self.query@.nodes,
                self.index.vocabulary(),
                self.index.occurrences(),
            ),
        }
    }
}

/// Binds the words of a phrase.
#[verifier::loop_isolation(false)]
fn bind_phrase(
    index: &ReferenceIndex<'_>,
    terms: &Vec<String>,
    bound: &mut Vec<PhraseTerm>,
    work: &mut Work,
) -> (result: Result<(usize, usize)>)
    requires
        terms@.len() > 0,
    ensures
        match result {
            Ok((begin, end)) => {
                &&& old(bound)@.is_prefix_of(final(bound)@)
                &&& phrase_placed(
                    index.terms@,
                    final(bound)@,
                    begin as int,
                    end as int,
                    texts(terms@),
                )
            },
            Err(error) => (error == Error::Limit("search work") && old(work)@ < terms@.len() * (1
                + index.vocabulary())) || (error == Error::Limit("phrase positions") && terms@.len()
                > u32::MAX),
        },
        result is Ok ==> spent(
            old(work)@,
            final(work)@,
            false,
            terms@.len() * (1 + index.vocabulary()),
        ),
{
    let ghost phrase = texts(terms@);
    let ghost before = bound@;
    let begin: usize = bound.len();
    let ghost each = 1 + index.vocabulary();
    assert(0 * each == 0);
    let mut offset: usize = 0;
    while offset < terms.len()
        invariant
            offset <= terms@.len(),
            work@ <= old(work)@,
            old(work)@ - work@ <= offset * each,
            bound@.len() == begin + offset,
            before.is_prefix_of(bound@),
            forall|k: int|
                0 <= k < offset ==> placed(
                    index.terms@,
                    (#[trigger] bound@[begin + k]).term,
                    phrase[k],
                ) && bound@[begin + k].offset == k,
        decreases terms@.len() - offset,
    {
        proof {
            steps_more(offset as int, terms@.len() as int, each);
        }
        work.charge(1)?;
        let term: Option<usize> = index.lookup(terms[offset].as_str(), work)?;
        if offset as u64 > u32::MAX as u64 {
            return Err(Error::Limit("phrase positions"));
        }
        assert(phrase[offset as int] == encode_utf8(terms@[offset as int]@));
        bound.push(PhraseTerm { term, offset: offset as u32 });
        offset += 1;
    }
    Ok((begin, bound.len()))
}

/// More bound words leave what a node stands for.
proof fn placed_later(
    terms: Seq<Term<'_>>,
    before: Seq<PhraseTerm>,
    after: Seq<PhraseTerm>,
    node: Bound,
    kind: KindModel,
)
    requires
        node_placed(terms, before, node, kind),
        before.is_prefix_of(after),
    ensures
        node_placed(terms, after, node, kind),
{
    if let Bound::Phrase(begin, end) = node {
        if let KindModel::Phrase(phrase) = kind {
            assert forall|k: int| 0 <= k < phrase.len() implies placed(
                terms,
                (#[trigger] after[begin + k]).term,
                phrase[k],
            ) && after[begin + k].offset == k by {
                assert(after[begin + k] == before[begin + k]);
            }
        }
    }
}

/// Whether a query cannot be bound within its limits: memory, or what binding takes.
pub open spec fn search_error(
    query: QueryModel,
    limits: SearchLimits,
    vocabulary: int,
    error: Error,
) -> bool {
    out_of_memory(error) || binding_error(query, limits, vocabulary, error)
}

/// Whether a query cannot be bound: the steps that binding takes, the terms that
/// prefixes stand for, or the words of its phrases are too many.
pub open spec fn binding_error(
    query: QueryModel,
    limits: SearchLimits,
    vocabulary: int,
    error: Error,
) -> bool {
    ||| error == Error::Limit("search work") && limits.work_steps < bindings_bound(
        query.nodes,
        vocabulary,
    )
    ||| error == Error::Limit("prefix expansion") && limits.expanded_terms < query.nodes.len()
        * vocabulary
    ||| error == Error::Limit("phrase terms") && phrase_total(query.nodes) > usize::MAX
    ||| error == Error::Limit("phrase positions") && exists|i: int|
        0 <= i < query.nodes.len() && (#[trigger] query.nodes[i] matches KindModel::Phrase(terms)
            && terms.len() > u32::MAX)
}

impl<'a> ReferenceIndex<'a> {
    /// Binds a node of a query.
    fn bind(
        &self,
        kind: &Kind,
        limits: SearchLimits,
        expanded: &mut usize,
        bound: &mut Vec<PhraseTerm>,
        work: &mut Work,
        model: Ghost<KindModel>,
    ) -> (result: Result<Bound>)
        requires
            model@ == (crate::query::Node { kind: *kind })@,
            model@ matches KindModel::Phrase(terms) ==> terms.len() > 0,
        ensures
            match result {
                Ok(node) => old(bound)@.is_prefix_of(final(bound)@) && node_placed(
                    self.terms@,
                    final(bound)@,
                    node,
                    model@,
                ),
                Err(error) => {
                    ||| error == Error::Limit("search work") && old(work)@ < binding_bound(
                        model@,
                        self.vocabulary(),
                    ) - 1
                    ||| error == Error::Limit("prefix expansion") && limits.expanded_terms < old(expanded) + self.vocabulary()
                    ||| error == Error::Limit("phrase positions") && (
                    model@ matches KindModel::Phrase(terms) && terms.len() > u32::MAX)
                },
            },
            result is Ok ==> {
                &&& spent(
                    old(work)@,
                    final(work)@,
                    false,
                    binding_bound(model@, self.vocabulary()) - 1,
                )
                &&& *old(expanded) <= *final(expanded) <= *old(expanded) + self.vocabulary()
            },
    {
        match kind {
            Kind::Nothing => Ok(Bound::Never),
            Kind::Term(term) => Ok(Bound::Term(self.lookup(term.as_str(), work)?)),
            Kind::Prefix(prefix) => {
                let (begin, end): (usize, usize) = self.prefix(prefix.as_str(), work)?;
                match expanded.checked_add(end - begin) {
                    Some(sum) => {
                        *expanded = sum;
                    },
                    None => {
                        return Err(Error::Limit("prefix expansion"));
                    },
                }
                if *expanded > limits.expanded_terms {
                    return Err(Error::Limit("prefix expansion"));
                }
                Ok(Bound::Prefix(begin, end))
            },
            Kind::Phrase(terms) => {
                let (begin, end): (usize, usize) = bind_phrase(self, terms, bound, work)?;
                Ok(Bound::Phrase(begin, end))
            },
            Kind::Not(child) => Ok(Bound::Not(*child)),
            Kind::And(left, right) => Ok(Bound::And(*left, *right)),
            Kind::Or(left, right) => Ok(Bound::Or(*left, *right)),
        }
    }
}

/// The number of words of the phrases of a query, and of the longest one.
#[verifier::loop_isolation(false)]
fn phrase_sizes(query: &Query) -> (result: Result<(usize, usize)>)
    ensures
        match result {
            Ok((_, longest)) => forall|i: int|
                #![trigger query@.nodes[i]]
                0 <= i < query@.nodes.len() ==> (query@.nodes[i] matches KindModel::Phrase(terms)
                    ==> terms.len() <= longest),
            Err(error) => error == Error::Limit("phrase terms") && phrase_total(query@.nodes)
                > usize::MAX,
        },
{
    let count: usize = query.node_count();
    let mut total: usize = 0;
    let mut longest: usize = 0;
    let mut index: usize = 0;
    assert(query@.nodes.take(0) =~= Seq::empty());
    while index < count
        invariant
            index <= count,
            total == phrase_total(query@.nodes.take(index as int)),
            forall|i: int|
                #![trigger query@.nodes[i]]
                0 <= i < index ==> (query@.nodes[i] matches KindModel::Phrase(terms)
                    ==> terms.len() <= longest),
        decreases count - index,
    {
        proof {
            assert(query@.nodes.take(index + 1).drop_last() =~= query@.nodes.take(index as int));
            assert(query@.nodes.take(index + 1).last() == query@.nodes[index as int]);
            bounds_grow(query@.nodes, index + 1, 0, 0);
        }
        if let Kind::Phrase(terms) = &query.node(index).kind {
            match total.checked_add(terms.len()) {
                Some(sum) => {
                    total = sum;
                },
                None => {
                    return Err(Error::Limit("phrase terms"));
                },
            }
            if terms.len() > longest {
                longest = terms.len();
            }
        }
        index += 1;
    }
    Ok((total, longest))
}

impl<'a> ReferenceIndex<'a> {
    /// Compiles once; all documents share bounded boolean and phrase scratch.
    ///
    /// # Errors
    /// Rejects budgets too small for the compiled query, more steps than allowed
    /// and prefixes of too many terms.
    pub fn search(&self, query: &Query, limits: SearchLimits) -> (result: Result<Search<'_, 'a>>)
        ensures
            match result {
                Ok(search) => self.searches(search, query@, limits) && search.retained()
                    <= limits.memory_bytes,
                Err(error) => search_error(query@, limits, self.vocabulary(), error),
            },
            query@.nodes.len() * vstd::layout::size_of::<Bound>() > limits.memory_bytes ==> (result
                matches Err(error) && error == Error::Budget(BudgetError::LimitExceeded)),
    {
        let mut budget: MemoryBudget = MemoryBudget::new(limits.memory_bytes);
        let count: usize = query.node_count();
        let nodes: Vec<Bound> = vector(count, &mut budget)?;
        let (phrase_count, longest): (usize, usize) = phrase_sizes(query)?;
        let phrase_terms: Vec<PhraseTerm> = vector(phrase_count, &mut budget)?;
        let (nodes, phrase_terms, work): (Vec<Bound>, Vec<PhraseTerm>, Work) = self.bind_all(
            query,
            limits,
            nodes,
            phrase_terms,
        )?;
        let values: Vec<bool> = vector(count, &mut budget)?;
        let ranges: Vec<(usize, usize)> = vector(longest, &mut budget)?;
        Ok(self.begin(query, limits, nodes, phrase_terms, values, ranges, longest, budget, work))
    }

    /// Compiles in memory that was given for the nodes, the words of phrases, the
    /// values of nodes and the ranges of a phrase.
    ///
    /// # Errors
    /// Rejects more steps than allowed and prefixes of too many terms.
    pub fn search_in(
        &self,
        query: &Query,
        limits: SearchLimits,
        nodes: Vec<Bound>,
        phrase_terms: Vec<PhraseTerm>,
        values: Vec<bool>,
        ranges: Vec<(usize, usize)>,
    ) -> (result: Result<Search<'_, 'a>>)
        requires
            nodes@.len() == 0,
            phrase_terms@.len() == 0,
            values@.len() == 0,
            ranges@.len() == 0,
        ensures
            match result {
                Ok(search) => self.searches(search, query@, limits) && search.retained() == 0,
                Err(error) => binding_error(query@, limits, self.vocabulary(), error),
            },
    {
        let (_, longest): (usize, usize) = phrase_sizes(query)?;
        let (nodes, phrase_terms, work): (Vec<Bound>, Vec<PhraseTerm>, Work) = self.bind_all(
            query,
            limits,
            nodes,
            phrase_terms,
        )?;
        let budget: MemoryBudget = MemoryBudget::new(0);
        Ok(self.begin(query, limits, nodes, phrase_terms, values, ranges, longest, budget, work))
    }

    /// Whether a search of a query stands at its beginning.
    pub open spec fn searches(&self, search: Search<'_, '_>, query: QueryModel, limits: SearchLimits) -> bool {
        &&& search.wf()
        &&& search@ == (SearchModel {
            documents: self@.documents,
            query,
            next: 0,
            failed: false,
            steps: search@.steps,
            cost: nodes_bound(query.nodes, self.vocabulary(), self.occurrences()),
        })
        &&& limits.work_steps - bindings_bound(query.nodes, self.vocabulary()) <= search@.steps
            <= limits.work_steps
    }

    /// A search with a bound query.
    fn begin(
        &self,
        query: &Query,
        limits: SearchLimits,
        nodes: Vec<Bound>,
        phrase_terms: Vec<PhraseTerm>,
        values: Vec<bool>,
        ranges: Vec<(usize, usize)>,
        longest: usize,
        budget: MemoryBudget,
        work: Work,
    ) -> (search: Search<'_, 'a>)
        requires
            nodes@.len() == query@.nodes.len(),
            forall|i: int|
                0 <= i < nodes@.len() ==> node_placed(
                    self.terms@,
                    phrase_terms@,
                    #[trigger] nodes@[i],
                    query@.nodes[i],
                ),
            forall|i: int|
                #![trigger query@.nodes[i]]
                0 <= i < query@.nodes.len() ==> (query@.nodes[i] matches KindModel::Phrase(terms)
                    ==> terms.len() <= longest),
            values@.len() == 0,
            ranges@.len() == 0,
            limits.work_steps - bindings_bound(query@.nodes, self.vocabulary()) <= work@
                <= limits.work_steps,
        ensures
            self.searches(search, query@, limits),
            search.retained() == budget@.used,
    {
        let count: usize = query.node_count();
        let mut values: Vec<bool> = values;
        values.resize(count, false);
        let mut ranges: Vec<(usize, usize)> = ranges;
        ranges.resize(longest, (0, 0));
        Search {
            index: self,
            nodes,
            phrase_terms,
            values,
            ranges,
            root: query.root(),
            next_document: 0,
            failed: false,
            budget,
            work,
            query: Ghost(query@),
        }
    }

    /// Binds all nodes of a query.
    #[verifier::loop_isolation(false)]
    fn bind_all(
        &self,
        query: &Query,
        limits: SearchLimits,
        given: Vec<Bound>,
        words: Vec<PhraseTerm>,
    ) -> (result: Result<(Vec<Bound>, Vec<PhraseTerm>, Work)>)
        requires
            given@.len() == 0,
            words@.len() == 0,
        ensures
            match result {
                Ok((nodes, phrase_terms, work)) => {
                    &&& nodes@.len() == query@.nodes.len()
                    &&& forall|i: int|
                        0 <= i < nodes@.len() ==> node_placed(
                            self.terms@,
                            phrase_terms@,
                            #[trigger] nodes@[i],
                            query@.nodes[i],
                        )
                    &&& limits.work_steps - bindings_bound(query@.nodes, self.vocabulary()) <= work@
                        <= limits.work_steps
                },
                Err(error) => binding_error(query@, limits, self.vocabulary(), error),
            },
    {
        let ghost size = self.vocabulary();
        let mut work: Work = Work::new(limits.work_steps);
        let count: usize = query.node_count();
        let mut nodes: Vec<Bound> = given;
        let mut phrase_terms: Vec<PhraseTerm> = words;
        let mut expanded: usize = 0;
        let mut index: usize = 0;
        assert(query@.nodes.take(0) =~= Seq::empty());
        assert(0 * size == 0);
        while index < count
            invariant
                index <= count,
                work@ <= limits.work_steps,
                limits.work_steps - work@ <= bindings_bound(query@.nodes.take(index as int), size),
                expanded <= index * size,
                nodes@.len() == index,
                forall|i: int|
                    0 <= i < index ==> node_placed(
                        self.terms@,
                        phrase_terms@,
                        #[trigger] nodes@[i],
                        query@.nodes[i],
                    ),
            decreases count - index,
        {
            proof {
                bounds_grow(query@.nodes, index as int, size, 0);
                steps_more(index as int, count as int, size);
                assert(query@.nodes[index as int] matches KindModel::Phrase(terms) ==> terms.len()
                    > 0);
            }
            work.charge(1)?;
            let ghost before = phrase_terms@;
            let ghost earlier = nodes@;
            let node: Bound = self.bind(
                &query.node(index).kind,
                limits,
                &mut expanded,
                &mut phrase_terms,
                &mut work,
                Ghost(query@.nodes[index as int]),
            )?;
            nodes.push(node);
            assert forall|i: int| 0 <= i < index + 1 implies node_placed(
                self.terms@,
                phrase_terms@,
                #[trigger] nodes@[i],
                query@.nodes[i],
            ) by {
                if i < index {
                    assert(nodes@[i] == earlier[i]);
                    placed_later(
                        self.terms@,
                        before,
                        phrase_terms@,
                        earlier[i],
                        query@.nodes[i],
                    );
                }
            }
            index += 1;
        }
        assert(query@.nodes.take(index as int) =~= query@.nodes);
        Ok((nodes, phrase_terms, work))
    }

    /// The number of candidates of a query.
    pub fn candidate_count(&self, query: &Query, limits: SearchLimits) -> (result: Result<u64>)
        ensures
            match result {
                Ok(count) => count == matching(self@.documents, query@, 0),
                Err(error) => search_error(query@, limits, self.vocabulary(), error) || (error
                    == Error::Limit("search work") && limits.work_steps < bindings_bound(
                    query@.nodes,
                    self.vocabulary(),
                ) + self@.documents.len() * nodes_bound(
                    query@.nodes,
                    self.vocabulary(),
                    self.occurrences(),
                )),
            },
            query@.nodes.len() * vstd::layout::size_of::<Bound>() > limits.memory_bytes ==> result
                == Err::<u64, Error>(Error::Budget(BudgetError::LimitExceeded)),
    {
        let search: Search<'_, 'a> = self.search(query, limits)?;
        search.count()
    }
}

impl<'i, 'a> Search<'i, 'a> {
    /// The number of candidates from here on.
    ///
    /// # Errors
    /// Rejects more steps than the search may still take.
    #[verifier::loop_isolation(false)]
    pub fn count(self) -> (result: Result<u64>)
        requires
            self.wf(),
            !self@.failed,
        ensures
            match result {
                Ok(count) => count == matching(self@.documents, self@.query, self@.next),
                Err(error) => error == Error::Limit("search work") && self@.steps < (
                self@.documents.len() - self@.next) * self@.cost,
            },
    {
        let ghost begun = self@;
        let ghost cost = begun.cost;
        proof {
            use_type_invariant(self.index);
        }
        let mut search: Search<'i, 'a> = self;
        let mut count: u64 = 0;
        proof {
            bounds_grow(
                begun.query.nodes,
                begun.query.nodes.len() as int,
                self.index.vocabulary(),
                self.index.occurrences(),
            );
            assert(0 * cost == 0);
        }
        loop
            invariant
                search.wf(),
                !search@.failed,
                search@.documents == begun.documents,
                search@.query == begun.query,
                search@.cost == cost,
                cost >= 0,
                begun.steps <= (search@.next - begun.next) * cost + search@.steps,
                begun.next <= search@.next <= begun.documents.len(),
                begun.documents.len() <= u32::MAX,
                count <= search@.next,
                count + matching(begun.documents, begun.query, search@.next) == matching(
                    begun.documents,
                    begun.query,
                    begun.next,
                ),
            decreases begun.documents.len() - search@.next,
        {
            let ghost from = search@.next;
            let ghost total = begun.documents.len() as int;
            let ghost start = begun.next;
            proof {
                assert((from - start) * cost + (total - from) * cost == (total - start) * cost)
                    by (nonlinear_arith);
            }
            match search.next() {
                None => {
                    proof {
                        matching_skip(begun.documents, begun.query, from, total);
                    }
                    return Ok(count);
                },
                Some(Err(error)) => {
                    return Err(error);
                },
                Some(Ok(candidate)) => {
                    proof {
                        let now = search@.next;
                        assert((from - start) * cost + (now - from) * cost == (now - start) * cost)
                            by (nonlinear_arith);
                        matching_skip(
                            begun.documents,
                            begun.query,
                            from,
                            candidate.ordinal as int,
                        );
                    }
                    count += 1;
                },
            }
        }
    }
}

/// Documents that do not match count nothing.
proof fn matching_skip(documents: Seq<DocumentModel>, query: QueryModel, from: int, to: int)
    requires
        0 <= from <= to <= documents.len(),
        forall|d: int|
            from <= d < to ==> !query.holds((#[trigger] documents[d]).words),
    ensures
        matching(documents, query, from) == matching(documents, query, to),
    decreases to - from,
{
    if from < to {
        matching_skip(documents, query, from + 1, to);
    }
}

/// What the next step of a search gives: the first candidate from here on, or
/// the end, or a failure that ends the search.
pub open spec fn next_candidate(
    before: SearchModel,
    after: SearchModel,
    item: Option<Result<Candidate>>,
) -> bool {
    &&& after.documents == before.documents
    &&& after.query == before.query
    &&& after.cost == before.cost
    &&& !after.failed ==> before.steps - (after.next - before.next) * before.cost <= after.steps
        <= before.steps
    &&& before.next <= after.next <= before.documents.len()
    &&& match item {
        None => before.failed && after == before || (!after.failed && forall|d: int|
            before.next <= d < before.documents.len() ==> !before.query.holds(
                (#[trigger] before.documents[d]).words,
            )),
        Some(Ok(candidate)) => {
            let at = candidate.ordinal as int;
            &&& !before.failed && !after.failed
            &&& before.next <= at < before.documents.len()
            &&& after.next == at + 1
            &&& candidate.document == before.documents[at].identity
            &&& before.query.holds(before.documents[at].words)
            &&& forall|d: int|
                before.next <= d < at ==> !before.query.holds(
                    (#[trigger] before.documents[d]).words,
                )
        },
        Some(Err(error)) => !before.failed && after.failed && error == Error::Limit("search work")
            && before.steps < (before.documents.len() - before.next) * before.cost,
    }
}

/// Whether a search went through states and gave candidates on its way.
pub open spec fn searched(states: Seq<SearchModel>, found: Seq<Candidate>) -> bool {
    &&& states.len() == found.len() + 1
    &&& forall|i: int|
        0 <= i < found.len() ==> #[trigger] next_candidate(
            states[i],
            states[i + 1],
            Some(Ok(found[i])),
        )
}

/// What a search gave so far is every document so far that satisfies the query,
/// each once and in order.
proof fn searched_so_far(states: Seq<SearchModel>, found: Seq<Candidate>)
    requires
        searched(states, found),
        states[0].next == 0,
        !states[0].failed,
    ensures
        states.last().documents == states[0].documents,
        states.last().query == states[0].query,
        !states.last().failed,
        0 <= states.last().next,
        forall|d: int|
            0 <= d < states.last().next && d < states[0].documents.len() ==> (
            states[0].query.holds((#[trigger] states[0].documents[d]).words) <==> given(found, d)),
        forall|i: int|
            0 <= i < found.len() ==> (#[trigger] found[i]).ordinal < states.last().next
                && found[i].ordinal < states[0].documents.len() && found[i].document
                == states[0].documents[found[i].ordinal as int].identity,
        forall|i: int, j: int|
            0 <= i < j < found.len() ==> (#[trigger] found[i]).ordinal < (
            #[trigger] found[j]).ordinal,
    decreases found.len(),
{
    if found.len() > 0 {
        let n = found.len() - 1;
        let before = states.drop_last();
        let rest = found.drop_last();
        assert forall|i: int| 0 <= i < rest.len() implies #[trigger] next_candidate(
            before[i],
            before[i + 1],
            Some(Ok(rest[i])),
        ) by {
            assert(next_candidate(states[i], states[i + 1], Some(Ok(found[i]))));
        }
        searched_so_far(before, rest);
        assert(next_candidate(states[n], states[n + 1], Some(Ok(found[n]))));
        assert(before.last() == states[n]);
        let documents = states[0].documents;
        assert forall|d: int| 0 <= d < states.last().next && d < documents.len() implies (
        states[0].query.holds((#[trigger] documents[d]).words) <==> given(found, d)) by {
            if given(rest, d) {
                let i = choose|i: int| 0 <= i < rest.len() && (#[trigger] rest[i]).ordinal == d;
                assert(found[i].ordinal == d);
            }
            if given(found, d) && d < states[n].next {
                let i = choose|i: int| 0 <= i < found.len() && (#[trigger] found[i]).ordinal == d;
                assert(i < n);
                assert(rest[i].ordinal == d);
            }
            if d == found[n].ordinal {
                assert(given(found, d));
            }
            if d >= states[n].next && d != found[n].ordinal {
                assert(!states[n].query.holds(states[n].documents[d].words));
                if given(found, d) {
                    let i = choose|i: int|
                        0 <= i < found.len() && (#[trigger] found[i]).ordinal == d;
                    if i < n {
                        assert(rest[i].ordinal < states[n].next);
                    }
                }
            }
        }
        assert forall|i: int, j: int| 0 <= i < j < found.len() implies (
        #[trigger] found[i]).ordinal < (#[trigger] found[j]).ordinal by {
            assert(found[i] == rest[i]);
            if j < n {
                assert(found[j] == rest[j]);
            }
        }
        assert forall|i: int| 0 <= i < found.len() implies (#[trigger] found[i]).ordinal
            < states.last().next && found[i].ordinal < documents.len() && found[i].document
            == documents[found[i].ordinal as int].identity by {
            if i < n {
                assert(found[i] == rest[i]);
            }
        }
    }
}

/// Whether a document is among candidates.
pub open spec fn given(found: Seq<Candidate>, ordinal: int) -> bool {
    exists|i: int| 0 <= i < found.len() && (#[trigger] found[i]).ordinal == ordinal
}

/// A whole search is direct evaluation: it gives exactly the documents that
/// satisfy the query, each once and in the order of the index.
pub proof fn search_is_evaluation(states: Seq<SearchModel>, found: Seq<Candidate>, end: SearchModel)
    requires
        searched(states, found),
        states[0].next == 0,
        !states[0].failed,
        next_candidate(states.last(), end, None),
    ensures
        forall|d: int|
            0 <= d < states[0].documents.len() ==> (states[0].query.holds(
                (#[trigger] states[0].documents[d]).words,
            ) <==> given(found, d)),
        forall|i: int, j: int|
            0 <= i < j < found.len() ==> (#[trigger] found[i]).ordinal < (
            #[trigger] found[j]).ordinal,
        forall|i: int|
            0 <= i < found.len() ==> (#[trigger] found[i]).ordinal < states[0].documents.len()
                && found[i].document == states[0].documents[found[i].ordinal as int].identity,
{
    searched_so_far(states, found);
    assert forall|d: int| 0 <= d < states[0].documents.len() implies (states[0].query.holds(
        (#[trigger] states[0].documents[d]).words,
    ) <==> given(found, d)) by {
        if d >= states.last().next {
            assert(!states.last().query.holds(states.last().documents[d].words));
            if given(found, d) {
                let i = choose|i: int| 0 <= i < found.len() && (#[trigger] found[i]).ordinal == d;
                assert(found[i].ordinal < states.last().next);
            }
        }
    }
}

impl<'i, 'a> Search<'i, 'a> {
    /// Whether the compiled query stands for the query.
    pub closed spec fn wf(&self) -> bool {
        &&& self.query@.wf()
        &&& self.root == self.query@.root
        &&& self.next_document <= self.index.documents@.len()
        &&& self.nodes@.len() == self.query@.nodes.len()
        &&& self.values@.len() == self.nodes@.len()
        &&& forall|i: int|
            0 <= i < self.nodes@.len() ==> node_placed(
                self.index.terms@,
                self.phrase_terms@,
                #[trigger] self.nodes@[i],
                self.query@.nodes[i],
            )
        &&& forall|i: int|
            #![trigger self.query@.nodes[i]]
            0 <= i < self.query@.nodes.len() ==> (
            self.query@.nodes[i] matches KindModel::Phrase(terms) ==> terms.len()
                <= self.ranges@.len())
    }

    /// Whether a term of a range occurs in a document.
    #[verifier::loop_isolation(false)]
    fn any_term(index: &ReferenceIndex<'_>, begin: usize, end: usize, document: u32, work: &mut Work, prefix: Ghost<
        Seq<u8>,
    >) -> (result: Result<bool>)
        requires
            begin <= end <= index.terms@.len(),
            document < index.documents@.len(),
            forall|t: int|
                0 <= t < index.terms@.len() ==> (begin <= t < end <==> starts_with(
                    text_bytes((#[trigger] index.terms@[t]).text),
                    prefix@,
                )),
        ensures
            spent(
                old(work)@,
                final(work)@,
                result is Err,
                index.vocabulary() * (1 + 2 * index.occurrences()),
            ),
            match result {
                Ok(found) => found == prefix_present(
                    index@.documents[document as int].words,
                    prefix@,
                ),
                Err(error) => error == Error::Limit("search work"),
            },
    {
        proof {
            use_type_invariant(index);
        }
        let ghost words = index@.documents[document as int].words;
        let ghost each = 1 + 2 * index.occurrences();
        assert(0 * each == 0);
        let mut term: usize = begin;
        while term < end
            invariant
                begin <= term <= end,
                work@ <= old(work)@,
                old(work)@ - work@ <= (term - begin) * each,
                forall|t: int|
                    begin <= t < term ==> !words.contains(
                        text_bytes((#[trigger] index.terms@[t]).text),
                    ),
            decreases end - term,
        {
            proof {
                steps_more(term - begin, index.vocabulary(), each);
            }
            work.charge(1)?;
            let ghost text = text_bytes(index.terms@[term as int].text);
            let (low, high): (usize, usize) = index.document_postings(term, document, work)?;
            proof {
                index.local_present(low, high, text, document);
            }
            if low < high {
                proof {
                    let p = choose|p: int| 0 <= p < words.len() && words[p] == text;
                    assert(starts_with(words[p], prefix@));
                }
                return Ok(true);
            }
            term += 1;
        }
        assert((term - begin) * each <= index.vocabulary() * each) by (nonlinear_arith)
            requires
                0 <= term - begin <= index.vocabulary(),
                each >= 0,
        ;
        proof {
            if prefix_present(words, prefix@) {
                let p = choose|p: int|
                    0 <= p < words.len() && starts_with(#[trigger] words[p], prefix@);
                assert(words.contains(words[p]));
                if !listed(index.terms@, words[p]) {
                    index.unlisted(words[p]);
                    assert(!index@.documents[document as int].words.contains(words[p]));
                }
                let t = choose|t: int|
                    0 <= t < index.terms@.len() && text_bytes((#[trigger] index.terms@[t]).text)
                        == words[p];
                assert(begin <= t < end);
            }
        }
        Ok(false)
    }

    /// Evaluates the query on a document.
    #[verifier::loop_isolation(false)]
    fn matches(&mut self, document: u32) -> (result: Result<bool>)
        requires
            old(self).wf(),
            document < old(self).index.documents@.len(),
        ensures
            final(self)@ == (SearchModel { steps: final(self)@.steps, ..old(self)@ }),
            final(self).index == old(self).index,
            if result is Err {
                old(self)@.steps < old(self)@.cost
            } else {
                old(self)@.steps - old(self)@.cost <= final(self)@.steps <= old(self)@.steps
            },
            match result {
                Ok(matched) => final(self).wf() && matched == old(self)@.query.holds(
                    old(self)@.documents[document as int].words,
                ),
                Err(error) => error == Error::Limit("search work"),
            },
    {
        let index: &'i ReferenceIndex<'a> = self.index;
        let ghost begun = self.work@;
        let ghost vocabulary = index.vocabulary();
        let ghost occurrences = index.occurrences();
        let ghost query = self.query@;
        let ghost words = index@.documents[document as int].words;
        proof {
            use_type_invariant(index);
        }
        let mut slot: usize = 0;
        assert(query.nodes.take(0) =~= Seq::empty());
        while slot < self.nodes.len()
            invariant
                slot <= self.nodes@.len(),
                self.wf(),
                self@ == (SearchModel { steps: self@.steps, ..old(self)@ }),
                self.work@ <= begun,
                begun - self.work@ <= nodes_bound(
                    query.nodes.take(slot as int),
                    vocabulary,
                    occurrences,
                ),
                self.index == old(self).index,
                self.index == index,
                self.query@ == query,
                forall|i: int|
                    0 <= i < slot ==> #[trigger] self.values@[i] == query.holds_at(i, words),
            decreases self.nodes@.len() - slot,
        {
            proof {
                bounds_grow(query.nodes, slot as int, vocabulary, occurrences);
            }
            self.work.charge(1)?;
            let ghost kind = query.nodes[slot as int];
            assert(node_placed(
                index.terms@,
                self.phrase_terms@,
                self.nodes@[slot as int],
                query.nodes[slot as int],
            ));
            assert(crate::query::ordered(query.nodes[slot as int], slot as int));
            let value: bool = match &self.nodes[slot] {
                Bound::Never => false,
                Bound::Term(None) => {
                    proof {
                        let text = kind->Term_0;
                        index.unlisted(text);
                        assert(!index@.documents[document as int].words.contains(text));
                    }
                    false
                },
                Bound::Term(Some(term)) => {
                    let (low, high): (usize, usize) = index.document_postings(
                        *term,
                        document,
                        &mut self.work,
                    )?;
                    proof {
                        index.local_present(low, high, kind->Term_0, document);
                    }
                    low < high
                },
                Bound::Prefix(begin, end) => Self::any_term(
                    index,
                    *begin,
                    *end,
                    document,
                    &mut self.work,
                    Ghost(kind->Prefix_0),
                )?,
                Bound::Phrase(begin, end) => phrase_found(
                    index,
                    &self.phrase_terms,
                    *begin,
                    *end,
                    &mut self.ranges,
                    document,
                    &mut self.work,
                    Ghost(kind->Phrase_0),
                )?,
                Bound::Not(child) => !self.values[*child],
                Bound::And(left, right) => self.values[*left] && self.values[*right],
                Bound::Or(left, right) => self.values[*left] || self.values[*right],
            };
            self.values.set(slot, value);
            slot += 1;
        }
        assert(query.nodes.take(slot as int) =~= query.nodes);
        Ok(self.values[self.root])
    }

    /// The next candidate.
    #[verifier::loop_isolation(false)]
    pub fn next(&mut self) -> (item: Option<Result<Candidate>>)
        requires
            old(self).wf() || old(self)@.failed,
        ensures
            old(self).wf() ==> next_candidate(old(self)@, final(self)@, item),
            old(self)@.failed ==> item is None && *final(self) == *old(self),
            final(self).wf() || final(self)@.failed,
    {
        if self.failed {
            return None;
        }
        proof {
            use_type_invariant(self.index);
        }
        let ghost start = self.next_document as int;
        let ghost documents = self@.documents;
        let ghost query = self@.query;
        let ghost cost = self@.cost;
        let ghost begun = self@.steps;
        proof {
            bounds_grow(
                query.nodes,
                query.nodes.len() as int,
                self.index.vocabulary(),
                self.index.occurrences(),
            );
            assert(0 * cost == 0);
        }
        while self.next_document < self.index.documents.len()
            invariant
                self.wf(),
                !self.failed,
                self.index == old(self).index,
                self@.documents == documents,
                self@.query == query,
                self@.cost == cost,
                cost >= 0,
                begun - (self.next_document - start) * cost <= self@.steps <= begun,
                start <= self.next_document <= documents.len(),
                documents.len() <= u32::MAX,
                forall|d: int|
                    start <= d < self.next_document ==> !query.holds(
                        (#[trigger] documents[d]).words,
                    ),
            decreases documents.len() - self.next_document,
        {
            proof {
                steps_more(self.next_document - start, documents.len() - start, cost);
            }
            let ordinal: usize = self.next_document;
            self.next_document = self.next_document + 1;
            match self.matches(ordinal as u32) {
                Ok(false) => {},
                Ok(true) => {
                    return Some(
                        Ok(
                            Candidate {
                                document: self.index.documents[ordinal].identity,
                                ordinal: ordinal as u32,
                            },
                        ),
                    );
                },
                Err(error) => {
                    self.failed = true;
                    return Some(Err(error));
                },
            }
        }
        None
    }

    /// The memory that the search was charged for.
    pub closed spec fn retained(&self) -> nat {
        self.budget@.used
    }

    pub fn retained_bytes(&self) -> (bytes: usize)
        ensures
            bytes == self.retained(),
    {
        self.budget.used()
    }
}

} // verus!
