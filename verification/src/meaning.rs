//! What queries mean: how the answers of related queries and documents relate.

use crate::query::{
    phrase_at, phrase_present, prefix_present, starts_with, KindModel, QueryModel,
};
use vstd::prelude::*;

verus! {

/// The answer of a node is that of its children, joined as the node says.
pub proof fn nodes_join_answers(query: QueryModel, index: int, document: Seq<Seq<u8>>)
    requires
        query.wf(),
        0 <= index < query.nodes.len(),
    ensures
        query.nodes[index] is Nothing ==> !query.holds_at(index, document),
        query.nodes[index] matches KindModel::Not(child) ==> query.holds_at(index, document)
            != query.holds_at(child, document),
        query.nodes[index] matches KindModel::And(left, right) ==> (query.holds_at(index, document)
            <==> query.holds_at(left, document) && query.holds_at(right, document)),
        query.nodes[index] matches KindModel::Or(left, right) ==> (query.holds_at(index, document)
            <==> query.holds_at(left, document) || query.holds_at(right, document)),
{
    assert(crate::query::ordered(query.nodes[index], index));
}

/// A term asks for one of the words; a word that is there may stand anywhere.
pub proof fn terms_ask_for_words(
    query: QueryModel,
    index: int,
    before: Seq<Seq<u8>>,
    word: Seq<u8>,
    behind: Seq<Seq<u8>>,
)
    requires
        query.nodes[index] matches KindModel::Term(term),
    ensures
        query.holds_at(index, before + seq![word] + behind) <==> query.nodes[index]->Term_0 == word
            || query.holds_at(index, before) || query.holds_at(index, behind),
        !query.holds_at(index, Seq::empty()),
{
    let term = query.nodes[index]->Term_0;
    let all = before + seq![word] + behind;
    if all.contains(term) {
        let i = choose|i: int| 0 <= i < all.len() && all[i] == term;
        if i < before.len() {
            assert(before[i] == term);
        } else if i > before.len() {
            assert(behind[i - before.len() - 1] == term);
        }
    }
    if term == word {
        assert(all[before.len() as int] == term);
    }
    if before.contains(term) {
        let i = choose|i: int| 0 <= i < before.len() && before[i] == term;
        assert(all[i] == term);
    }
    if behind.contains(term) {
        let i = choose|i: int| 0 <= i < behind.len() && behind[i] == term;
        assert(all[before.len() + 1 + i] == term);
    }
}

/// A phrase of one word asks for that word.
pub proof fn one_word_phrases_are_terms(document: Seq<Seq<u8>>, word: Seq<u8>)
    ensures
        phrase_present(document, seq![word]) == document.contains(word),
{
    if document.contains(word) {
        let i = choose|i: int| 0 <= i < document.len() && document[i] == word;
        assert(document.subrange(i, i + 1) =~= seq![word]);
        assert(phrase_at(document, seq![word], i));
    }
    if phrase_present(document, seq![word]) {
        let start = choose|start: int| #[trigger] phrase_at(document, seq![word], start);
        assert(document.subrange(start, start + 1)[0] == word);
        assert(document[start] == word);
    }
}

/// A document has the phrases that its parts have, and a phrase that is there has
/// each of its words and each of its own parts there, too.
pub proof fn phrases_are_runs_of_words(
    before: Seq<Seq<u8>>,
    phrase: Seq<Seq<u8>>,
    behind: Seq<Seq<u8>>,
    from: int,
    to: int,
)
    requires
        0 <= from <= to <= phrase.len(),
    ensures
        phrase_present(before + phrase + behind, phrase),
        phrase_present(before + phrase + behind, phrase.subrange(from, to)),
{
    let all = before + phrase + behind;
    let part = phrase.subrange(from, to);
    let start = before.len() as int;
    assert(all.subrange(start, start + phrase.len()) =~= phrase);
    assert(phrase_at(all, phrase, start));
    assert(all.subrange(start + from, start + from + part.len()) =~= part);
    assert(phrase_at(all, part, start + from));
}

/// A phrase that is there splits the document: its words stand next to each other.
pub proof fn phrases_split_documents(document: Seq<Seq<u8>>, phrase: Seq<Seq<u8>>)
    requires
        phrase_present(document, phrase),
    ensures
        exists|before: Seq<Seq<u8>>, behind: Seq<Seq<u8>>|
            document == #[trigger] (before + phrase + behind),
{
    let start = choose|start: int| #[trigger] phrase_at(document, phrase, start);
    let before = document.take(start);
    let behind = document.skip(start + phrase.len());
    assert(document.subrange(start, start + phrase.len()) == phrase);
    assert forall|i: int| 0 <= i < phrase.len() implies phrase[i] == document[start + i] by {
        assert(document.subrange(start, start + phrase.len())[i] == document[start + i]);
    }
    assert(document =~= before + phrase + behind);
}

/// A prefix asks for a word that begins with it: whatever begins with a word's
/// prefix begins with the shorter ones, and the empty prefix asks for any word.
pub proof fn prefixes_ask_for_beginnings(
    document: Seq<Seq<u8>>,
    prefix: Seq<u8>,
    rest: Seq<u8>,
)
    ensures
        document.contains(prefix + rest) ==> prefix_present(document, prefix),
        prefix_present(document, prefix + rest) ==> prefix_present(document, prefix),
        prefix_present(document, Seq::empty()) == (document.len() > 0),
        prefix_present(document, prefix) ==> exists|tail: Seq<u8>|
            document.contains(#[trigger] (prefix + tail)),
{
    let long = prefix + rest;
    if document.contains(long) {
        let i = choose|i: int| 0 <= i < document.len() && document[i] == long;
        assert(long.take(prefix.len() as int) =~= prefix);
        assert(starts_with(document[i], prefix));
    }
    if prefix_present(document, long) {
        let i = choose|i: int| 0 <= i < document.len() && starts_with(#[trigger] document[i], long);
        assert(document[i].take(prefix.len() as int) =~= document[i].take(long.len() as int).take(
            prefix.len() as int,
        ));
        assert(long.take(prefix.len() as int) =~= prefix);
        assert(starts_with(document[i], prefix));
    }
    if document.len() > 0 {
        assert(document[0].take(0) =~= Seq::empty());
        assert(starts_with(document[0], Seq::empty()));
    }
    if prefix_present(document, prefix) {
        let i = choose|i: int|
            0 <= i < document.len() && starts_with(#[trigger] document[i], prefix);
        let tail = document[i].skip(prefix.len() as int);
        assert(document[i] =~= prefix + tail);
        assert(document.contains(prefix + tail));
    }
}

} // verus!
