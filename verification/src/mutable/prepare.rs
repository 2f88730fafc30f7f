//! Encoding of analyzed documents: each distinct word once, with its positions.

use crate::analysis::{Analyzed, Token, PROFILE_ID};
use crate::budget::{BudgetError, MemoryBudget};
use crate::codec::bytes::{
    group_bytes, le_u16_of_bytes, le_u32_of_bytes, u16_array, u16_bytes, u32_array, u32_bytes,
    var_bytes_len,
};
use crate::codec::dictionary::strictly_ordered;
use crate::codec::positions::{
    base, delta_bytes, encode, encoded, increasing, increasing_accepted, parse_of_encode,
};
use crate::error::{Error, Result};
use crate::memory::{out_of_memory, vector};
use crate::mutable::document::{
    check_terms, document_entries, document_header, document_outcomes, entry_positions, document_magic, document_term_at, position_set, positions_fresh,
    validated, PreparedDocument, TermEntry, MAX_DOCUMENT_BYTES, MAX_DOCUMENT_TOKENS, MAX_TERM_BYTES,
};
use crate::sort::{ranked, rearranged, sorted, Ranked};
use crate::text::{
    bytes_precede, precedes, precedes_total, precedes_transitive, same_bytes, text_bytes,
};
use vstd::prelude::*;
use vstd::utf8::{encode_utf8_valid_utf8, valid_utf8};

verus! {

broadcast use group_bytes;

/// The positions of a word.
pub open spec fn occurrences(words: Seq<Seq<u8>>, term: Seq<u8>) -> Seq<u32>
    decreases words.len(),
{
    if words.len() == 0 {
        Seq::empty()
    } else if words.last() == term {
        occurrences(words.drop_last(), term).push((words.len() - 1) as u32)
    } else {
        occurrences(words.drop_last(), term)
    }
}

/// The stored form of a word with its positions.
pub open spec fn entry_code(words: Seq<Seq<u8>>, term: Seq<u8>) -> Seq<u8> {
    let positions = encoded(occurrences(words, term));
    u16_bytes(term.len() as u16) + u16_bytes(0) + u32_bytes(positions.len() as u32) + term
        + positions
}

/// The stored forms of words.
pub open spec fn entries_code(words: Seq<Seq<u8>>, terms: Seq<Seq<u8>>) -> Seq<u8>
    decreases terms.len(),
{
    if terms.len() == 0 {
        Seq::empty()
    } else {
        entries_code(words, terms.drop_last()) + entry_code(words, terms.last())
    }
}

/// The stored form of a document, by its words and its vocabulary.
pub open spec fn document_code(words: Seq<Seq<u8>>, terms: Seq<Seq<u8>>) -> Seq<u8> {
    document_magic() + u32_bytes(PROFILE_ID) + u32_bytes(words.len() as u32) + u32_bytes(
        terms.len() as u32,
    ) + entries_code(words, terms)
}

/// Whether terms are the distinct words of a document, in order.
pub open spec fn vocabulary_of(words: Seq<Seq<u8>>, terms: Seq<Seq<u8>>) -> bool {
    &&& strictly_ordered(terms)
    &&& forall|term: Seq<u8>| #[trigger] terms.contains(term) == words.contains(term)
}

/// Whether a document's words can be stored.
pub open spec fn storable(words: Seq<Seq<u8>>, terms: Seq<Seq<u8>>) -> bool {
    &&& vocabulary_of(words, terms)
    &&& words.len() <= MAX_DOCUMENT_TOKENS
    &&& forall|i: int|
        0 <= i < words.len() ==> 0 < (#[trigger] words[i]).len() <= MAX_TERM_BYTES && valid_utf8(
            words[i],
        )
    &&& document_code(words, terms).len() <= MAX_DOCUMENT_BYTES
}

/// A position is listed exactly where the word stands.
pub proof fn occurrences_exact(words: Seq<Seq<u8>>, term: Seq<u8>)
    requires
        words.len() <= u32::MAX,
    ensures
        increasing(occurrences(words, term)),
        occurrences(words, term).len() <= words.len(),
        forall|i: int|
            0 <= i < occurrences(words, term).len() ==> (#[trigger] occurrences(words, term)[i])
                < words.len() && words[occurrences(words, term)[i] as int] == term,
        forall|p: int|
            0 <= p < words.len() && #[trigger] words[p] == term ==> occurrences(
                words,
                term,
            ).contains(p as u32),
    decreases words.len(),
{
    if words.len() > 0 {
        let less = words.drop_last();
        occurrences_exact(less, term);
        let before = occurrences(less, term);
        let all = occurrences(words, term);
        assert forall|i: int| 0 <= i < all.len() implies (#[trigger] all[i]) < words.len()
            && words[all[i] as int] == term by {
            if i < before.len() {
                assert(all[i] == before[i]);
                assert(less[before[i] as int] == words[before[i] as int]);
            }
        }
        assert forall|p: int| 0 <= p < words.len() && #[trigger] words[p] == term implies all.contains(
            p as u32,
        ) by {
            if p < less.len() {
                assert(less[p] == term);
                assert(before.contains(p as u32));
                let k = choose|k: int| 0 <= k < before.len() && before[k] == p as u32;
                assert(all[k] == p as u32);
            } else {
                assert(all[all.len() - 1] == p as u32);
            }
        }
        assert forall|i: int, j: int| 0 <= i < j < all.len() implies all[i] < all[j] by {
            if j < before.len() {
                assert(all[i] == before[i] && all[j] == before[j]);
            } else {
                assert(all[i] == before[i]);
                assert(before[i] < less.len());
            }
        }
    }
}

/// Where the stored form of a word stands.
pub open spec fn entry_place(words: Seq<Seq<u8>>, terms: Seq<Seq<u8>>, index: int) -> int {
    16 + entries_code(words, terms.take(index)).len() as int
}

proof fn entries_at(words: Seq<Seq<u8>>, terms: Seq<Seq<u8>>, index: int)
    requires
        0 <= index < terms.len(),
    ensures
        entry_place(words, terms, index + 1) == entry_place(words, terms, index) + entry_code(
            words,
            terms[index],
        ).len(),
        entry_place(words, terms, index + 1) <= document_code(words, terms).len(),
        document_code(words, terms).subrange(
            entry_place(words, terms, index),
            entry_place(words, terms, index + 1),
        ) == entry_code(words, terms[index]),
    decreases terms.len(),
{
    assert(terms.take(index + 1).drop_last() =~= terms.take(index));
    let low = entries_code(words, terms.take(index)).len() as int;
    let high = entries_code(words, terms.take(index + 1)).len() as int;
    if index == terms.len() - 1 {
        assert(terms.take(index + 1) =~= terms);
        assert(terms.take(index) =~= terms.drop_last());
        assert(document_code(words, terms).subrange(16 + low, 16 + high) =~= entry_code(
            words,
            terms[index],
        ));
    } else {
        let less = terms.drop_last();
        entries_at(words, less, index);
        assert(less.take(index) =~= terms.take(index));
        assert(less.take(index + 1) =~= terms.take(index + 1));
        let one = document_code(words, less);
        let all = document_code(words, terms);
        assert(all.subrange(16 + low, 16 + high) =~= one.subrange(16 + low, 16 + high)) by {
            assert forall|i: int| 16 <= i < one.len() implies all[i] == one[i] by {
                assert(all[i] == entries_code(words, terms)[i - 16]);
                assert(one[i] == entries_code(words, less)[i - 16]);
            }
        }
    }
}

/// A stored word is read back.
#[verifier::rlimit(40)]
#[verifier::spinoff_prover]
proof fn entry_read(words: Seq<Seq<u8>>, terms: Seq<Seq<u8>>, index: int)
    requires
        storable(words, terms),
        0 <= index < terms.len(),
    ensures
        ({
            let bytes = document_code(words, terms);
            let entry = TermEntry {
                term: terms[index],
                positions: encoded(occurrences(words, terms[index])),
            };
            document_term_at(
                bytes,
                entry_place(words, terms, index),
                index == terms.len() - 1,
            ) == Ok::<(TermEntry, int), Error>((entry, entry_place(words, terms, index + 1)))
        }),
{
    let bytes = document_code(words, terms);
    let term = terms[index];
    let positions = encoded(occurrences(words, term));
    let at = entry_place(words, terms, index);
    let end = entry_place(words, terms, index + 1);
    let code = entry_code(words, term);
    entries_at(words, terms, index);
    assert(terms.contains(term));
    assert(words.contains(term));
    let w = choose|w: int| 0 <= w < words.len() && words[w] == term;
    assert(0 < words[w].len() <= MAX_TERM_BYTES && valid_utf8(words[w]));
    let part = bytes.subrange(at, end);
    assert(part == code);
    assert(code.len() == 8 + term.len() + positions.len());
    assert(bytes.subrange(at, at + 2) =~= part.subrange(0, 2));
    assert(part.subrange(0, 2) =~= u16_bytes(term.len() as u16));
    le_u16_of_bytes(bytes, at, term.len() as u16);
    assert(bytes.subrange(at + 2, at + 4) =~= part.subrange(2, 4));
    assert(part.subrange(2, 4) =~= u16_bytes(0));
    le_u16_of_bytes(bytes, at + 2, 0);
    assert(bytes.subrange(at + 4, at + 8) =~= part.subrange(4, 8));
    assert(part.subrange(4, 8) =~= u32_bytes(positions.len() as u32));
    le_u32_of_bytes(bytes, at + 4, positions.len() as u32);
    assert(bytes.subrange(at + 8, at + 8 + term.len()) =~= part.subrange(8, 8 + term.len() as int));
    assert(part.subrange(8, 8 + term.len() as int) =~= term);
    assert(bytes.subrange(at + 8 + term.len(), end) =~= part.subrange(
        8 + term.len() as int,
        part.len() as int,
    ));
    assert(part.subrange(8 + term.len() as int, part.len() as int) =~= positions);
    if index == terms.len() - 1 {
        assert(terms.take(index + 1) =~= terms);
        assert(end == bytes.len());
    }
}

/// The positions that the first words of the vocabulary cover.
spec fn covered(words: Seq<Seq<u8>>, terms: Seq<Seq<u8>>, count: int) -> Set<int>
    decreases count,
{
    if count <= 0 {
        Set::empty()
    } else {
        covered(words, terms, count - 1).union(position_set(occurrences(words, terms[count - 1])))
    }
}

proof fn covered_exact(words: Seq<Seq<u8>>, terms: Seq<Seq<u8>>, count: int)
    requires
        words.len() <= MAX_DOCUMENT_TOKENS,
        0 <= count <= terms.len(),
    ensures
        forall|p: int|
            #[trigger] covered(words, terms, count).contains(p) <==> 0 <= p < words.len()
                && terms.take(count).contains(words[p]),
    decreases count,
{
    if count > 0 {
        covered_exact(words, terms, count - 1);
        let term = terms[count - 1];
        occurrences_exact(words, term);
        let positions = occurrences(words, term);
        assert forall|p: int|
            #[trigger] covered(words, terms, count).contains(p) <==> 0 <= p < words.len()
                && terms.take(count).contains(words[p]) by {
            let before = terms.take(count - 1);
            let all = terms.take(count);
            if position_set(positions).contains(p) {
                let k = choose|k: int| 0 <= k < positions.len() && positions[k] == p as u32;
                assert(words[positions[k] as int] == term);
                assert(all[count - 1] == term);
            }
            if 0 <= p < words.len() && before.contains(words[p]) {
                let k = choose|k: int| 0 <= k < before.len() && before[k] == words[p];
                assert(all[k] == words[p]);
            }
            if 0 <= p < words.len() && all.contains(words[p]) {
                let k = choose|k: int| 0 <= k < all.len() && all[k] == words[p];
                if k < count - 1 {
                    assert(before[k] == words[p]);
                } else {
                    assert(words[p] == term);
                    assert(positions.contains(p as u32));
                }
            }
            assert(covered(words, terms, count - 1).contains(p) <==> 0 <= p < words.len()
                && before.contains(words[p]));
        }
    }
}

proof fn checked_from(words: Seq<Seq<u8>>, terms: Seq<Seq<u8>>, index: int)
    requires
        storable(words, terms),
        0 <= index <= terms.len(),
    ensures
        check_terms(
            document_code(words, terms),
            entry_place(words, terms, index),
            (terms.len() - index) as nat,
            words.len() as u32,
            if index == 0 {
                Seq::empty()
            } else {
                terms[index - 1]
            },
            covered(words, terms, index),
        ) == Ok::<Set<int>, Error>(covered(words, terms, terms.len() as int)),
    decreases terms.len() - index,
{
    if index < terms.len() {
        let term = terms[index];
        let previous = if index == 0 {
            Seq::empty()
        } else {
            terms[index - 1]
        };
        entry_read(words, terms, index);
        assert(terms.contains(term));
        assert(words.contains(term));
        let w = choose|w: int| 0 <= w < words.len() && words[w] == term;
        assert(words[w].len() > 0);
        if index > 0 {
            assert(precedes(terms[index - 1], terms[index]));
        }
        let positions = occurrences(words, term);
        occurrences_exact(words, term);
        entries_at(words, terms, index);
        parse_of_encode(positions, MAX_DOCUMENT_TOKENS);
        assert(positions.contains(w as u32));
        covered_exact(words, terms, index);
        assert forall|i: int| 0 <= i < positions.len() implies (#[trigger] positions[i])
            < words.len() as u32 && !covered(words, terms, index).contains(
            positions[i] as int,
        ) by {
            if covered(words, terms, index).contains(positions[i] as int) {
                let early = terms.take(index);
                assert(early.contains(words[positions[i] as int]));
                let k = choose|k: int| 0 <= k < early.len() && early[k] == term;
                assert(precedes(terms[k], terms[index]));
                precedes_total(terms[k], terms[index]);
            }
        }
        assert(positions_fresh(positions, words.len() as u32, covered(words, terms, index)));
        checked_from(words, terms, index + 1);
    }
}

/// Distinct words are no more than words.
proof fn vocabulary_small(words: Seq<Seq<u8>>, terms: Seq<Seq<u8>>)
    requires
        vocabulary_of(words, terms),
    ensures
        terms.len() <= words.len(),
{
    assert(terms.no_duplicates()) by {
        assert forall|i: int, j: int| 0 <= i < terms.len() && 0 <= j < terms.len() && i
            != j implies terms[i] != terms[j] by {
            if i < j {
                assert(precedes(terms[i], terms[j]));
                precedes_total(terms[i], terms[j]);
            } else {
                assert(precedes(terms[j], terms[i]));
                precedes_total(terms[j], terms[i]);
            }
        }
    }
    terms.unique_seq_to_set();
    vstd::seq_lib::seq_to_set_is_finite(words);
    words.lemma_cardinality_of_set();
    assert(terms.to_set().subset_of(words.to_set())) by {
        assert forall|term: Seq<u8>| terms.to_set().contains(term) implies words.to_set().contains(
            term,
        ) by {
            assert(terms.contains(term));
            assert(words.contains(term));
        }
    }
    vstd::set_lib::lemma_len_subset(terms.to_set(), words.to_set());
}

/// The stored form of a document is sound: it announces and holds all words.
pub proof fn document_code_valid(words: Seq<Seq<u8>>, terms: Seq<Seq<u8>>)
    requires
        storable(words, terms),
    ensures
        validated(document_code(words, terms)) == Ok::<(u32, u32), Error>(
            (words.len() as u32, terms.len() as u32),
        ),
{
    let bytes = document_code(words, terms);
    let tokens = words.len() as u32;
    vocabulary_small(words, terms);
    assert(bytes.take(4) =~= document_magic());
    assert(bytes.subrange(4, 8) =~= u32_bytes(PROFILE_ID));
    assert(bytes.subrange(8, 12) =~= u32_bytes(tokens));
    assert(bytes.subrange(12, 16) =~= u32_bytes(terms.len() as u32));
    le_u32_of_bytes(bytes, 4, PROFILE_ID);
    le_u32_of_bytes(bytes, 8, tokens);
    le_u32_of_bytes(bytes, 12, terms.len() as u32);
    assert(document_header(bytes) == Ok::<(u32, u32), Error>((tokens, terms.len() as u32)));
    if terms.len() == 0 {
        if words.len() > 0 {
            assert(words.contains(words[0]));
            assert(terms.contains(words[0]));
        }
    } else {
        checked_from(words, terms, 0);
        assert(terms.take(0) =~= Seq::empty());
        let seen = covered(words, terms, terms.len() as int);
        covered_exact(words, terms, terms.len() as int);
        assert(terms.take(terms.len() as int) =~= terms);
        let all = vstd::set_lib::set_int_range(0, tokens as int);
        vstd::set_lib::lemma_int_range(0, tokens as int);
        assert(seen =~= all) by {
            assert forall|p: int| seen.contains(p) == all.contains(p) by {
                if 0 <= p < words.len() {
                    assert(words.contains(words[p]));
                    assert(terms.contains(words[p]));
                }
            }
        }
    }
}

/// Words are ranked by their bytes and positions.
impl<'a> Ranked for Token<'a> {
    open spec fn at_most(self, other: Self) -> bool {
        precedes(text_bytes(self.term), text_bytes(other.term)) || (text_bytes(self.term)
            == text_bytes(other.term) && self.position <= other.position)
    }

    proof fn at_most_total(self, other: Self) {
        precedes_total(text_bytes(self.term), text_bytes(other.term));
    }

    proof fn at_most_transitive(self, middle: Self, other: Self) {
        let (a, b, c) = (
            text_bytes(self.term),
            text_bytes(middle.term),
            text_bytes(other.term),
        );
        if precedes(a, b) && precedes(b, c) {
            precedes_transitive(a, b, c);
        }
    }

    fn not_after(&self, other: &Self) -> (answer: bool) {
        bytes_precede(self.term.as_bytes(), other.term.as_bytes()) || (same_bytes(
            self.term.as_bytes(),
            other.term.as_bytes(),
        ) && self.position <= other.position)
    }
}

/// Whether sorted tokens are the words of a document, each once.
spec fn token_list(tokens: Seq<Token<'_>>, words: Seq<Seq<u8>>) -> bool {
    &&& ranked(tokens)
    &&& forall|i: int|
        0 <= i < tokens.len() ==> (#[trigger] tokens[i]).position < words.len()
            && words[tokens[i].position as int] == text_bytes(tokens[i].term)
    &&& forall|i: int, j: int|
        0 <= i < j < tokens.len() ==> (#[trigger] tokens[i]).position != (
        #[trigger] tokens[j]).position
    &&& forall|p: int| 0 <= p < words.len() ==> #[trigger] token_at(tokens, p)
}

spec fn token_at(tokens: Seq<Token<'_>>, position: int) -> bool {
    exists|i: int| 0 <= i < tokens.len() && (#[trigger] tokens[i]).position == position
}

/// Sorting keeps the words of a document.
proof fn sorted_tokens(before: Seq<Token<'_>>, after: Seq<Token<'_>>, words: Seq<Seq<u8>>)
    requires
        ranked(after),
        rearranged(after, before),
        before.len() == words.len(),
        words.len() <= u32::MAX,
        forall|i: int|
            0 <= i < before.len() ==> text_bytes((#[trigger] before[i]).term) == words[i]
                && before[i].position == i,
    ensures
        token_list(after, words),
{
    broadcast use vstd::seq_lib::group_to_multiset_ensures;

    assert(before.no_duplicates());
    before.lemma_multiset_has_no_duplicates();
    after.lemma_multiset_has_no_duplicates_conv();
    assert forall|i: int| 0 <= i < after.len() implies (#[trigger] after[i]).position < words.len()
        && words[after[i].position as int] == text_bytes(after[i].term) && before[
        after[i].position as int
    ] == after[i] by {
        assert(after.contains(after[i]));
        assert(before.to_multiset().count(after[i]) > 0);
        assert(before.contains(after[i]));
        let j = choose|j: int| 0 <= j < before.len() && before[j] == after[i];
        assert(before[j].position == j);
    }
    assert forall|p: int| 0 <= p < words.len() implies #[trigger] token_at(after, p) by {
        assert(before.contains(before[p]));
        assert(after.to_multiset().count(before[p]) > 0);
        assert(after.contains(before[p]));
        let i = choose|i: int| 0 <= i < after.len() && after[i] == before[p];
        assert(after[i].position == p);
    }
}

/// Increasing positions with the same members are the same.
proof fn increasing_unique(left: Seq<u32>, right: Seq<u32>)
    requires
        increasing(left),
        increasing(right),
        forall|p: u32| #[trigger] left.contains(p) == right.contains(p),
    ensures
        left == right,
    decreases left.len(),
{
    if left.len() == 0 {
        if right.len() > 0 {
            assert(right.contains(right[0]));
            assert(left.contains(right[0]));
        }
        assert(left =~= right);
    } else {
        let top = left.last();
        assert(left.contains(top)) by {
            assert(left[left.len() - 1] == top);
        }
        assert(right.contains(top));
        let k = choose|k: int| 0 <= k < right.len() && right[k] == top;
        let other = right.last();
        assert(right.contains(other)) by {
            assert(right[right.len() - 1] == other);
        }
        assert(left.contains(other));
        let m = choose|m: int| 0 <= m < left.len() && left[m] == other;
        assert(top == other) by {
            if k < right.len() - 1 {
                assert(right[k] < right[right.len() - 1]);
            }
            if m < left.len() - 1 {
                assert(left[m] < left[left.len() - 1]);
            }
        }
        let less = left.drop_last();
        let fewer = right.drop_last();
        assert forall|p: u32| #[trigger] less.contains(p) == fewer.contains(p) by {
            if less.contains(p) {
                let i = choose|i: int| 0 <= i < less.len() && less[i] == p;
                assert(left[i] == p && left[i] < left[left.len() - 1]);
                assert(left.contains(p));
                let j = choose|j: int| 0 <= j < right.len() && right[j] == p;
                assert(fewer[j] == p);
            }
            if fewer.contains(p) {
                let i = choose|i: int| 0 <= i < fewer.len() && fewer[i] == p;
                assert(right[i] == p && right[i] < right[right.len() - 1]);
                assert(right.contains(p));
                assert(left.contains(p) == right.contains(p));
                let j = choose|j: int| 0 <= j < left.len() && left[j] == p;
                assert(less[j] == p);
            }
        }
        increasing_unique(less, fewer);
        assert(left =~= less.push(top));
        assert(right =~= fewer.push(other));
    }
}

/// The end of the tokens of one word.
#[verifier::loop_isolation(false)]
fn word_end(tokens: &Vec<Token<'_>>, begin: usize) -> (end: usize)
    requires
        begin < tokens@.len(),
        ranked(tokens@),
        begin > 0 ==> text_bytes(tokens@[begin - 1].term) != text_bytes(tokens@[begin as int].term),
    ensures
        begin < end <= tokens@.len(),
        forall|i: int|
            0 <= i < tokens@.len() ==> (begin <= i < end <==> text_bytes(
                (#[trigger] tokens@[i]).term,
            ) == text_bytes(tokens@[begin as int].term)),
{
    let ghost list = tokens@;
    let ghost text = text_bytes(list[begin as int].term);
    proof {
        assert forall|i: int| 0 <= i < begin implies text_bytes((#[trigger] list[i]).term)
            != text by {
            assert(list[begin - 1].at_most(list[begin as int]));
            if i < begin - 1 {
                assert(list[i].at_most(list[begin - 1]));
                precedes_total(text_bytes(list[begin - 1].term), text);
                precedes_total(text_bytes(list[i].term), text_bytes(list[begin - 1].term));
            }
        }
    }
    let total: usize = tokens.len();
    let mut end: usize = begin + 1;
    while end < total && same_bytes(
        tokens[end].term.as_bytes(),
        tokens[begin].term.as_bytes(),
    )
        invariant
            begin < end <= total == list.len(),
            forall|i: int| begin <= i < end ==> text_bytes((#[trigger] list[i]).term) == text,
        decreases total - end,
    {
        end += 1;
    }
    proof {
        assert forall|i: int| end <= i < list.len() implies text_bytes((#[trigger] list[i]).term)
            != text by {
            assert(list[begin as int].at_most(list[end as int]));
            if i > end {
                assert(list[end as int].at_most(list[i]));
                precedes_total(text, text_bytes(list[end as int].term));
                precedes_total(text_bytes(list[i].term), text_bytes(list[end as int].term));
            }
        }
    }
    end
}

/// Where the words of the vocabulary start among sorted tokens.
spec fn starts_of(tokens: Seq<Token<'_>>, starts: Seq<usize>) -> Seq<Seq<u8>> {
    Seq::new(starts.len(), |k: int| text_bytes(tokens[starts[k] as int].term))
}

/// Finds the distinct words among sorted tokens.
#[verifier::loop_isolation(false)]
fn find_words(
    tokens: &Vec<Token<'_>>,
    starts: &mut Vec<usize>,
    words: Ghost<Seq<Seq<u8>>>,
) -> (result: Result<()>)
    requires
        token_list(tokens@, words@),
        old(starts)@.len() == 0,
    ensures
        match result {
            Ok(_) => {
                &&& vocabulary_of(words@, starts_of(tokens@, final(starts)@))
                &&& forall|k: int|
                    0 <= k < final(starts)@.len() ==> (#[trigger] final(starts)@[k]) < tokens@.len()
                        && (final(starts)@[k] > 0 ==> text_bytes(
                        tokens@[final(starts)@[k] - 1].term,
                    ) != text_bytes(tokens@[final(starts)@[k] as int].term))
                &&& forall|i: int|
                    0 <= i < words@.len() ==> 0 < (#[trigger] words@[i]).len() <= MAX_TERM_BYTES
            },
            Err(error) => error == Error::Limit("term bytes") && exists|i: int|
                0 <= i < words@.len() && ((#[trigger] words@[i]).len() == 0 || words@[i].len()
                    > MAX_TERM_BYTES),
        },
{
    let ghost list = tokens@;
    let total: usize = tokens.len();
    let mut begin: usize = 0;
    while begin < total
        invariant
            begin <= total == list.len(),
            0 < begin < list.len() ==> text_bytes(list[begin - 1].term) != text_bytes(
                list[begin as int].term,
            ),
            forall|k: int|
                0 <= k < starts@.len() ==> (#[trigger] starts@[k]) < begin && (starts@[k] > 0
                    ==> text_bytes(list[starts@[k] - 1].term) != text_bytes(
                    list[starts@[k] as int].term,
                )),
            strictly_ordered(starts_of(list, starts@)),
            forall|i: int|
                0 <= i < begin ==> starts_of(list, starts@).contains(
                    text_bytes((#[trigger] list[i]).term),
                ) && 0 < text_bytes(list[i].term).len() <= MAX_TERM_BYTES,
        decreases total - begin,
    {
        let term: &[u8] = tokens[begin].term.as_bytes();
        let ghost text = text_bytes(list[begin as int].term);
        if term.len() == 0 || term.len() > MAX_TERM_BYTES {
            proof {
                let p = list[begin as int].position as int;
                assert(words@[p] == text);
            }
            return Err(Error::Limit("term bytes"));
        }
        let end: usize = word_end(tokens, begin);
        let ghost before = starts@;
        starts.push(begin);
        proof {
            let old_terms = starts_of(list, before);
            let terms = starts_of(list, starts@);
            assert(terms =~= old_terms.push(text));
            assert forall|i: int, j: int| 0 <= i < j < terms.len() implies precedes(
                #[trigger] terms[i],
                #[trigger] terms[j],
            ) by {
                if j == before.len() {
                    let at = before[i] as int;
                    assert(list[at].at_most(list[begin as int]));
                    assert(text_bytes(list[at].term) != text);
                } else {
                    assert(precedes(old_terms[i], old_terms[j]));
                }
            }
            assert forall|i: int| 0 <= i < end implies terms.contains(
                text_bytes((#[trigger] list[i]).term),
            ) && 0 < text_bytes(list[i].term).len() <= MAX_TERM_BYTES by {
                if i < begin {
                    assert(old_terms.contains(text_bytes(list[i].term)));
                    let k = choose|k: int|
                        0 <= k < old_terms.len() && old_terms[k] == text_bytes(list[i].term);
                    assert(terms[k] == text_bytes(list[i].term));
                } else {
                    assert(terms[before.len() as int] == text);
                }
            }
            if end < list.len() {
                assert(text_bytes(list[end - 1].term) == text);
            }
        }
        begin = end;
    }
    proof {
        let terms = starts_of(list, starts@);
        assert forall|term: Seq<u8>| #[trigger] terms.contains(term) == words@.contains(term) by {
            if terms.contains(term) {
                let k = choose|k: int| 0 <= k < terms.len() && terms[k] == term;
                let token = list[starts@[k] as int];
                assert(words@[token.position as int] == term);
            }
            if words@.contains(term) {
                let p = choose|p: int| 0 <= p < words@.len() && words@[p] == term;
                assert(token_at(list, p));
                let i = choose|i: int| 0 <= i < list.len() && (#[trigger] list[i]).position == p;
                assert(text_bytes(list[i].term) == term);
            }
        }
        assert forall|p: int| 0 <= p < words@.len() implies 0 < (#[trigger] words@[p]).len()
            <= MAX_TERM_BYTES by {
            assert(token_at(list, p));
            let i = choose|i: int| 0 <= i < list.len() && (#[trigger] list[i]).position == p;
            assert(text_bytes(list[i].term) == words@[p]);
        }
    }
    Ok(())
}

/// The positions of a word among sorted tokens.
#[verifier::loop_isolation(false)]
fn word_positions(
    tokens: &Vec<Token<'_>>,
    begin: usize,
    words: Ghost<Seq<Seq<u8>>>,
) -> (positions: Vec<u32>)
    requires
        token_list(tokens@, words@),
        words@.len() <= MAX_DOCUMENT_TOKENS,
        begin < tokens@.len(),
        begin > 0 ==> text_bytes(tokens@[begin - 1].term) != text_bytes(tokens@[begin as int].term),
    ensures
        positions@ == occurrences(words@, text_bytes(tokens@[begin as int].term)),
{
    let ghost list = tokens@;
    let ghost text = text_bytes(list[begin as int].term);
    let end: usize = word_end(tokens, begin);
    let mut positions: Vec<u32> = Vec::new();
    let mut index: usize = begin;
    while index < end
        invariant
            begin <= index <= end,
            positions@.len() == index - begin,
            forall|i: int|
                0 <= i < positions@.len() ==> #[trigger] positions@[i] == list[begin + i].position,
        decreases end - index,
    {
        positions.push(tokens[index].position);
        index += 1;
    }
    proof {
        let goal = occurrences(words@, text);
        occurrences_exact(words@, text);
        assert forall|i: int, j: int| 0 <= i < j < positions@.len() implies positions@[i]
            < positions@[j] by {
            assert(list[begin + i].at_most(list[begin + j]));
            precedes_total(text, text);
            assert(list[begin + i].position != list[begin + j].position);
        }
        assert forall|p: u32| #[trigger] positions@.contains(p) == goal.contains(p) by {
            if positions@.contains(p) {
                let i = choose|i: int| 0 <= i < positions@.len() && positions@[i] == p;
                assert(positions@[i] == list[begin + i].position);
                assert(words@[list[begin + i].position as int] == text);
            }
            if goal.contains(p) {
                let k = choose|k: int| 0 <= k < goal.len() && goal[k] == p;
                assert(words@[goal[k] as int] == text);
                assert(token_at(list, p as int));
                let i = choose|i: int| 0 <= i < list.len() && (#[trigger] list[i]).position == p;
                assert(text_bytes(list[i].term) == text);
                assert(positions@[i - begin] == p);
            }
        }
        increasing_unique(positions@, goal);
    }
    positions
}

/// Deltas take at most five bytes each.
proof fn deltas_small(positions: Seq<u32>)
    requires
        increasing(positions),
    ensures
        delta_bytes(positions).len() <= 5 * positions.len(),
    decreases positions.len(),
{
    if positions.len() > 0 {
        let index = positions.len() - 1;
        deltas_small(positions.drop_last());
        if index > 0 {
            assert(positions[index - 1] < positions[index]);
        }
        var_bytes_len((positions[index] - base(positions, index)) as nat);
    }
}

/// Appends bytes to a vector.
fn append(bytes: &mut Vec<u8>, more: &[u8])
    ensures
        final(bytes)@ == old(bytes)@ + more@,
{
    bytes.extend_from_slice(more);
    assert(bytes@ =~= old(bytes)@ + more@);
}

/// The positions of a word as it stores them.
fn encoded_positions(positions: &Vec<u32>, words: Ghost<Seq<Seq<u8>>>, term: Ghost<Seq<u8>>) -> (code:
    Vec<u8>)
    requires
        words@.len() <= MAX_DOCUMENT_TOKENS,
        positions@ == occurrences(words@, term@),
    ensures
        code@ == encoded(positions@),
        code@.len() <= 4 + 5 * words@.len(),
{
    proof {
        occurrences_exact(words@, term@);
        deltas_small(positions@);
        increasing_accepted(positions@, 0);
    }
    let room: usize = 4 + 5 * positions.len();
    let mut output: Vec<u8> = Vec::new();
    output.resize(room, 0);
    let size: usize = match encode(positions.as_slice(), output.as_mut_slice(), MAX_DOCUMENT_TOKENS) {
        Ok(size) => size,
        Err(_) => 0,
    };
    output.truncate(size);
    assert(output@ =~= encoded(positions@));
    output
}

/// Appends the stored form of a word.
fn append_entry(
    bytes: &mut Vec<u8>,
    term: &[u8],
    positions: &Vec<u32>,
    words: Ghost<Seq<Seq<u8>>>,
)
    requires
        words@.len() <= MAX_DOCUMENT_TOKENS,
        0 < term@.len() <= MAX_TERM_BYTES,
        positions@ == occurrences(words@, term@),
    ensures
        final(bytes)@ == old(bytes)@ + entry_code(words@, term@),
{
    let code: Vec<u8> = encoded_positions(positions, words, Ghost(term@));
    append(bytes, &u16_array(term.len() as u16));
    append(bytes, &u16_array(0));
    append(bytes, &u32_array(code.len() as u32));
    append(bytes, term);
    append(bytes, code.as_slice());
    assert(bytes@ =~= old(bytes)@ + entry_code(words@, term@));
}

/// Whether a document has a word that cannot be stored.
pub open spec fn bad_word(words: Seq<Seq<u8>>) -> bool {
    exists|i: int|
        0 <= i < words.len() && ((#[trigger] words[i]).len() == 0 || words[i].len()
            > MAX_TERM_BYTES)
}

/// Why the words of a document cannot be stored.
pub open spec fn storing_error(words: Seq<Seq<u8>>, error: Error) -> bool {
    if words.len() > MAX_DOCUMENT_TOKENS {
        error == Error::Limit("document positions")
    } else if bad_word(words) {
        error == Error::Limit("term bytes")
    } else {
        error == Error::Limit("document payload") && exists|terms: Seq<Seq<u8>>| #[trigger]
            vocabulary_of(words, terms) && document_code(words, terms).len() > MAX_DOCUMENT_BYTES
    }
}

/// Why a document cannot be prepared.
pub open spec fn prepare_error(words: Seq<Seq<u8>>, error: Error) -> bool {
    storing_error(words, error) || (words.len() <= MAX_DOCUMENT_TOKENS && out_of_memory(error))
}

/// Whether bytes are the stored form of words.
pub open spec fn prepared(words: Seq<Seq<u8>>, bytes: Seq<u8>) -> bool {
    words.len() <= MAX_DOCUMENT_TOKENS && exists|terms: Seq<Seq<u8>>| #[trigger]
        storable(words, terms) && bytes == document_code(words, terms)
}

/// The words of a document in order, in memory that was given.
fn ordered_tokens<'a>(document: &'a Analyzed, room: Vec<Token<'a>>) -> (tokens: Vec<Token<'a>>)
    requires
        room@.len() == 0,
    ensures
        token_list(tokens@, document@.words),
        forall|i: int| 0 <= i < document@.words.len() ==> valid_utf8(#[trigger] document@.words[i]),
{
    let unsorted: Vec<Token<'_>> = document.tokens_in(room);
    let ghost before = unsorted@;
    let count: u32 = document.len();
    let tokens: Vec<Token<'_>> = sorted(unsorted);
    proof {
        sorted_tokens(before, tokens@, document@.words);
        assert forall|i: int| 0 <= i < document@.words.len() implies valid_utf8(
            #[trigger] document@.words[i],
        ) by {
            assert(text_bytes(before[i].term) == document@.words[i]);
            encode_utf8_valid_utf8(before[i].term@);
        }
    }
    tokens
}

/// Whether words start at places of a list of tokens.
spec fn words_start(tokens: Seq<Token<'_>>, starts: Seq<usize>, words: Seq<Seq<u8>>) -> bool {
    &&& token_list(tokens, words)
    &&& words.len() <= MAX_DOCUMENT_TOKENS
    &&& vocabulary_of(words, starts_of(tokens, starts))
    &&& forall|k: int|
        0 <= k < starts.len() ==> (#[trigger] starts[k]) < tokens.len() && (starts[k] > 0
            ==> text_bytes(tokens[starts[k] - 1].term) != text_bytes(
            tokens[starts[k] as int].term,
        ))
    &&& forall|i: int| 0 <= i < words.len() ==> 0 < (#[trigger] words[i]).len() <= MAX_TERM_BYTES
}

/// A term of the vocabulary is one of the words.
proof fn term_known(words: Seq<Seq<u8>>, terms: Seq<Seq<u8>>, index: int)
    requires
        vocabulary_of(words, terms),
        forall|i: int| 0 <= i < words.len() ==> 0 < (#[trigger] words[i]).len() <= MAX_TERM_BYTES,
        0 <= index < terms.len(),
    ensures
        0 < terms[index].len() <= MAX_TERM_BYTES,
        entries_code(words, terms.take(index + 1)) == entries_code(words, terms.take(index))
            + entry_code(words, terms[index]),
        16 + entries_code(words, terms.take(index + 1)).len() <= document_code(words, terms).len(),
{
    let term = terms[index];
    assert(terms.contains(term));
    assert(words.contains(term));
    let w = choose|w: int| 0 <= w < words.len() && words[w] == term;
    assert(0 < words[w].len() <= MAX_TERM_BYTES);
    assert(terms.take(index + 1).drop_last() =~= terms.take(index));
    entries_at(words, terms, index);
}

/// The size of the stored form of a document, where it can be stored.
#[verifier::loop_isolation(false)]
fn stored_size(
    tokens: &Vec<Token<'_>>,
    starts: &Vec<usize>,
    words: Ghost<Seq<Seq<u8>>>,
) -> (result: Result<usize>)
    requires
        words_start(tokens@, starts@, words@),
    ensures
        ({
            let size = document_code(words@, starts_of(tokens@, starts@)).len();
            if size > MAX_DOCUMENT_BYTES {
                result == Err::<usize, Error>(Error::Limit("document payload"))
            } else {
                result == Ok::<usize, Error>(size as usize)
            }
        }),
{
    let ghost terms = starts_of(tokens@, starts@);
    let mut size: usize = 16;
    let mut index: usize = 0;
    assert(terms.take(0) =~= Seq::empty());
    assert(entries_code(words@, terms.take(0)).len() == 0);
    while index < starts.len()
        invariant
            index <= starts@.len(),
            size == 16 + entries_code(words@, terms.take(index as int)).len(),
            size <= MAX_DOCUMENT_BYTES,
        decreases starts@.len() - index,
    {
        let begin: usize = starts[index];
        let positions: Vec<u32> = word_positions(tokens, begin, words);
        let term: &[u8] = tokens[begin].term.as_bytes();
        proof {
            assert(terms[index as int] == term@);
            term_known(words@, terms, index as int);
        }
        let code: Vec<u8> = encoded_positions(&positions, words, Ghost(term@));
        let added: usize = 8 + term.len() + code.len();
        if added > MAX_DOCUMENT_BYTES - size {
            return Err(Error::Limit("document payload"));
        }
        size = size + added;
        index += 1;
    }
    assert(terms.take(index as int) =~= terms);
    Ok(size)
}

/// Writes the stored form of a document into memory that was given.
#[verifier::loop_isolation(false)]
fn write_document(
    tokens: &Vec<Token<'_>>,
    starts: &Vec<usize>,
    count: u32,
    room: Vec<u8>,
    words: Ghost<Seq<Seq<u8>>>,
) -> (document: PreparedDocument)
    requires
        words_start(tokens@, starts@, words@),
        count == words@.len(),
        room@.len() == 0,
        storable(words@, starts_of(tokens@, starts@)),
    ensures
        document@ == document_code(words@, starts_of(tokens@, starts@)),
{
    let ghost terms = starts_of(tokens@, starts@);
    proof {
        vocabulary_small(words@, terms);
        document_code_valid(words@, terms);
    }
    let mut bytes: Vec<u8> = room;
    let magic: [u8; 4] = [0x50u8, 0x44u8, 0x30u8, 0x32u8];
    assert(magic@ =~= document_magic());
    append(&mut bytes, &magic);
    append(&mut bytes, &u32_array(PROFILE_ID));
    append(&mut bytes, &u32_array(count));
    append(&mut bytes, &u32_array(starts.len() as u32));
    let ghost head = bytes@;
    assert(terms.take(0) =~= Seq::empty());
    assert(head =~= head + entries_code(words@, terms.take(0)));
    let mut index: usize = 0;
    while index < starts.len()
        invariant
            index <= starts@.len(),
            bytes@ == head + entries_code(words@, terms.take(index as int)),
        decreases starts@.len() - index,
    {
        let begin: usize = starts[index];
        let positions: Vec<u32> = word_positions(tokens, begin, words);
        let term: &[u8] = tokens[begin].term.as_bytes();
        proof {
            assert(terms[index as int] == term@);
            term_known(words@, terms, index as int);
            assert(head + entries_code(words@, terms.take(index as int)) + entry_code(
                words@,
                term@,
            ) =~= head + entries_code(words@, terms.take(index + 1)));
        }
        append_entry(&mut bytes, term, &positions, words);
        index += 1;
    }
    assert(terms.take(index as int) =~= terms);
    assert(head =~= document_magic() + u32_bytes(PROFILE_ID) + u32_bytes(words@.len() as u32)
        + u32_bytes(terms.len() as u32));
    assert(bytes@ =~= document_code(words@, terms));
    PreparedDocument::of_parts(bytes, count, starts.len() as u32)
}

impl PreparedDocument {
    /// Sorts borrowed token references and encodes each term once.
    ///
    /// # Errors
    /// Rejects limits, overflow, allocation failure or insufficient peak budget.
    /// The budget includes the borrowed analyzer's retained allocation.
    pub fn prepare(document: &Analyzed, memory_bytes: usize) -> (result: Result<Self>)
        ensures
            match result {
                Ok(document_bytes) => prepared(document@.words, document_bytes@),
                Err(error) => prepare_error(document@.words, error),
            },
            document@.words.len() <= MAX_DOCUMENT_TOKENS && document@.retained
                + document@.words.len() * vstd::layout::size_of::<Token<'_>>() > memory_bytes ==> (
            result matches Err(error) && error == Error::Budget(BudgetError::LimitExceeded)),
    {
        let ghost words = document@.words;
        if document.len() > MAX_DOCUMENT_TOKENS {
            return Err(Error::Limit("document positions"));
        }
        let mut budget: MemoryBudget = MemoryBudget::new(memory_bytes);
        match budget.charge(document.retained_bytes()) {
            Ok(_) => {},
            Err(error) => {
                assert(words.len() * vstd::layout::size_of::<Token<'_>>() >= 0) by (nonlinear_arith);
                return Err(Error::Budget(error));
            },
        }
        let room: Vec<Token<'_>> = vector(document.len() as usize, &mut budget)?;
        let tokens: Vec<Token<'_>> = ordered_tokens(document, room);
        let mut starts: Vec<usize> = Vec::new();
        find_words(&tokens, &mut starts, Ghost(words))?;
        let size: usize = stored_size(&tokens, &starts, Ghost(words))?;
        let room: Vec<u8> = vector(size, &mut budget)?;
        assert(storable(words, starts_of(tokens@, starts@)));
        Ok(write_document(&tokens, &starts, document.len(), room, Ghost(words)))
    }

    /// Prepares a document in memory that was given for its tokens and for its
    /// stored form.
    ///
    /// # Errors
    /// Rejects documents that are too large to be stored.
    pub fn prepare_in<'a>(document: &'a Analyzed, tokens: Vec<Token<'a>>, bytes: Vec<u8>) -> (result:
        Result<Self>)
        requires
            tokens@.len() == 0,
            bytes@.len() == 0,
        ensures
            match result {
                Ok(document_bytes) => prepared(document@.words, document_bytes@),
                Err(error) => storing_error(document@.words, error),
            },
    {
        let ghost words = document@.words;
        if document.len() > MAX_DOCUMENT_TOKENS {
            return Err(Error::Limit("document positions"));
        }
        let tokens: Vec<Token<'_>> = ordered_tokens(document, tokens);
        let mut starts: Vec<usize> = Vec::new();
        find_words(&tokens, &mut starts, Ghost(words))?;
        stored_size(&tokens, &starts, Ghost(words))?;
        assert(storable(words, starts_of(tokens@, starts@)));
        Ok(write_document(&tokens, &starts, document.len(), bytes, Ghost(words)))
    }
}

proof fn outcomes_from(words: Seq<Seq<u8>>, terms: Seq<Seq<u8>>, index: int)
    requires
        storable(words, terms),
        0 <= index <= terms.len(),
    ensures
        ({
            let outcomes = document_outcomes(
                document_code(words, terms),
                entry_place(words, terms, index),
                (terms.len() - index) as nat,
            );
            &&& outcomes.len() == terms.len() - index
            &&& forall|k: int|
                0 <= k < outcomes.len() ==> #[trigger] outcomes[k] == Ok::<TermEntry, Error>(
                    stored_entry(words, terms[index + k]),
                )
        }),
    decreases terms.len() - index,
{
    if index < terms.len() {
        entry_read(words, terms, index);
        outcomes_from(words, terms, index + 1);
        let outcomes = document_outcomes(
            document_code(words, terms),
            entry_place(words, terms, index),
            (terms.len() - index) as nat,
        );
        let rest = document_outcomes(
            document_code(words, terms),
            entry_place(words, terms, index + 1),
            (terms.len() - index - 1) as nat,
        );
        assert forall|k: int| 0 <= k < outcomes.len() implies #[trigger] outcomes[k] == Ok::<
            TermEntry,
            Error,
        >(stored_entry(words, terms[index + k])) by {
            if k > 0 {
                assert(outcomes[k] == rest[k - 1]);
            }
        }
    }
}

/// A word as a document stores it.
pub open spec fn stored_entry(words: Seq<Seq<u8>>, term: Seq<u8>) -> TermEntry {
    TermEntry { term, positions: encoded(occurrences(words, term)) }
}

/// A stored document reads back as its words: each distinct word once, in order,
/// with exactly the positions at which it stands.
pub proof fn prepared_read_back(words: Seq<Seq<u8>>, terms: Seq<Seq<u8>>)
    requires
        storable(words, terms),
    ensures
        document_entries(document_code(words, terms)).len() == terms.len(),
        forall|k: int|
            0 <= k < terms.len() ==> (#[trigger] document_entries(
                document_code(words, terms),
            )[k]).term == terms[k] && entry_positions(
                document_entries(document_code(words, terms))[k],
            ) == occurrences(words, terms[k]),
{
    document_code_valid(words, terms);
    vocabulary_small(words, terms);
    outcomes_from(words, terms, 0);
    assert(terms.take(0) =~= Seq::empty());
    let entries = document_entries(document_code(words, terms));
    assert forall|k: int| 0 <= k < terms.len() implies (#[trigger] entries[k]).term == terms[k]
        && entry_positions(entries[k]) == occurrences(words, terms[k]) by {
        occurrences_exact(words, terms[k]);
        entries_at(words, terms, k);
        parse_of_encode(occurrences(words, terms[k]), MAX_DOCUMENT_TOKENS);
        let outcomes = document_outcomes(document_code(words, terms), 16, terms.len());
        assert(outcomes[k] == Ok::<TermEntry, Error>(stored_entry(words, terms[0 + k])));
    }
}

} // verus!
