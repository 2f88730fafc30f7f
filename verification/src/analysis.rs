//! Unicode normalization and folding, then word segmentation.
//! Normalized bytes and token ranges are owned; no locale or hidden stopword state.

use crate::budget::MemoryBudget;
use crate::error::{Error, Result};
use crate::memory::{out_of_memory, reserve_held};
use crate::normalize::{profile_error, profile_text, profile_text_in, profiled, Scalar};
use crate::text::{text_bytes, utf8};
use unicode_segmentation::UnicodeSegmentation;
use vstd::prelude::*;
use vstd::utf8::{encode_utf8, valid_utf8};

verus! {

/// The version of the analysis that documents and queries share.
pub const PROFILE_ID: u32 = 1;

/// The words of a text: where each one starts and how long it is, in bytes.
pub uninterp spec fn word_ranges(text: Seq<char>) -> Seq<(usize, usize)>;

/// Calls `unicode_segmentation::UnicodeSegmentation::unicode_word_indices`: the
/// offset and the length of each word. They depend on the text alone. The words
/// are non-empty parts of the text, in order and apart from one another.
#[verifier::external_body]
fn words(text: &str) -> (ranges: Vec<(usize, usize)>)
    ensures
        ranges@ == word_ranges(text@),
        forall|i: int| 0 <= i < ranges@.len() ==> word_inside(text_bytes(text), #[trigger] ranges@[i]),
        forall|i: int, j: int|
            0 <= i < j < ranges@.len() ==> (#[trigger] ranges@[i]).0 + ranges@[i].1 <= (
            #[trigger] ranges@[j]).0,
{
    text.unicode_word_indices().map(|word| (word.0, word.1.len())).collect()
}

/// Whether a range is a non-empty text inside the bytes.
pub open spec fn word_inside(bytes: Seq<u8>, range: (usize, usize)) -> bool {
    &&& range.1 > 0
    &&& range.0 + range.1 <= bytes.len()
    &&& valid_utf8(bytes.subrange(range.0 as int, range.0 + range.1))
}

/// Reads `unicode_normalization::UNICODE_VERSION`: the tables are those of
/// Unicode 16.
#[verifier::external_body]
fn normalization_version() -> (version: (u8, u8, u8))
    ensures
        version == (16u8, 0u8, 0u8),
{
    unicode_normalization::UNICODE_VERSION
}

/// Reads `unicode_segmentation::UNICODE_VERSION`: the tables are those of
/// Unicode 16.
#[verifier::external_body]
fn segmentation_version() -> (version: (u64, u64, u64))
    ensures
        version == (16u64, 0u64, 0u64),
{
    unicode_segmentation::UNICODE_VERSION
}

/// Reads `unicode_case_mapping::UNICODE_VERSION`: the tables are those of
/// Unicode 16.
#[verifier::external_body]
fn folding_version() -> (version: (u64, u64, u64))
    ensures
        version == (16u64, 0u64, 0u64),
{
    unicode_case_mapping::UNICODE_VERSION
}

/// What an analysis may use.
#[derive(Clone, Copy, Debug)]
pub struct AnalysisLimits {
    pub input_bytes: usize,
    pub normalized_bytes: usize,
    pub tokens: u32,
    pub term_bytes: usize,
    pub memory_bytes: usize,
}

impl Default for AnalysisLimits {
    fn default() -> (limits: Self)
        ensures
            limits == (AnalysisLimits {
                input_bytes: 0x10_0000,
                normalized_bytes: 0x20_0000,
                tokens: 262_144,
                term_bytes: 1024,
                memory_bytes: 0x80_0000,
            }),
    {
        AnalysisLimits {
            input_bytes: 0x10_0000,
            normalized_bytes: 0x20_0000,
            tokens: 262_144,
            term_bytes: 1024,
            memory_bytes: 0x80_0000,
        }
    }
}

/// Where a word of a normalized text stands.
#[derive(Clone, Copy, Debug)]
pub struct TokenRange {
    start: u32,
    end: u32,
}

/// A word of a document and its position.
#[derive(Clone, Copy, Debug, Eq, PartialEq)]
pub struct Token<'a> {
    pub term: &'a str,
    pub position: u32,
}

/// A normalized text and its words in order, as bytes.
#[verifier::ext_equal]
pub struct AnalyzedModel {
    pub normalized: Seq<u8>,
    pub words: Seq<Seq<u8>>,
    pub retained: nat,
    pub peak: nat,
}

/// The words of a text as bytes.
pub open spec fn words_of(text: Seq<char>) -> Seq<Seq<u8>> {
    words_at(encode_utf8(text), word_ranges(text))
}

/// The parts of bytes at ranges.
pub open spec fn words_at(bytes: Seq<u8>, ranges: Seq<(usize, usize)>) -> Seq<Seq<u8>> {
    Seq::new(
        ranges.len(),
        |i: int| bytes.subrange(ranges[i].0 as int, ranges[i].0 + ranges[i].1),
    )
}

/// Whether a text has a word that is longer than the limit.
pub open spec fn long_word(words: Seq<Seq<u8>>, limit: usize) -> bool {
    exists|i: int| 0 <= i < words.len() && (#[trigger] words[i]).len() > limit
}

/// An analyzed document.
#[derive(Debug)]
pub struct Analyzed {
    normalized: String,
    tokens: Vec<TokenRange>,
    retained_bytes: usize,
    peak_bytes: usize,
}

impl View for Analyzed {
    type V = AnalyzedModel;

    closed spec fn view(&self) -> AnalyzedModel {
        let bytes = encode_utf8(self.normalized@);
        AnalyzedModel {
            normalized: bytes,
            words: Seq::new(
                self.tokens@.len(),
                |i: int| bytes.subrange(self.tokens@[i].start as int, self.tokens@[i].end as int),
            ),
            retained: self.retained_bytes as nat,
            peak: self.peak_bytes as nat,
        }
    }
}

/// Why words cannot be taken, if they cannot: a word is too long, or comes behind
/// as many words as are allowed. The first such word decides.
pub open spec fn words_error(words: Seq<Seq<u8>>, limits: AnalysisLimits) -> Option<Error> {
    let looked_at = if words.len() > limits.tokens {
        words.take(limits.tokens + 1)
    } else {
        words
    };
    if long_word(looked_at, limits.term_bytes) {
        Some(Error::Limit("term bytes"))
    } else if words.len() > limits.tokens {
        Some(Error::Limit("element count"))
    } else {
        None
    }
}

/// What an analysis of a text gives, in memory that was given or not.
pub open spec fn analyzed(
    text: &str,
    limits: AnalysisLimits,
    given: bool,
    result: core::result::Result<AnalyzedModel, Error>,
) -> bool {
    match result {
        Ok(model) => {
            &&& text_bytes(text).len() <= limits.input_bytes
            &&& profiled(text@) == Some(model.normalized)
            &&& model.normalized.len() <= limits.normalized_bytes
            &&& exists|normalized: Seq<char>|
                model.normalized == #[trigger] encode_utf8(normalized) && model.words == words_of(
                    normalized,
                )
            &&& words_error(model.words, limits) is None
            &&& model.retained <= model.peak
        },
        Err(error) => if text_bytes(text).len() > limits.input_bytes {
            error == Error::Limit("document bytes")
        } else {
            ||| !given && out_of_memory(error) && text@.len() > 0
            ||| profile_error(text@, limits.normalized_bytes, given, error)
            ||| error == Error::Limit("normalized bytes") && (profiled(text@) matches Some(bytes)
                && bytes.len() > u32::MAX)
            ||| exists|normalized: Seq<char>|
                profiled(text@) == Some(#[trigger] encode_utf8(normalized)) && words_error(
                    words_of(normalized),
                    limits,
                ) == Some(error)
        },
    }
}

/// The outcome of an analysis as its model.
pub open spec fn analyzed_model(result: Result<Analyzed>) -> Result<AnalyzedModel> {
    match result {
        Ok(document) => Ok(document@),
        Err(error) => Err(error),
    }
}

impl Analyzed {
    #[verifier::type_invariant]
    closed spec fn inv(self) -> bool {
        &&& forall|i: int|
            0 <= i < self.tokens@.len() ==> token_inside(
                encode_utf8(self.normalized@),
                #[trigger] self.tokens@[i],
            )
        &&& self.tokens@.len() <= u32::MAX
    }

    /// Rejects size, token, allocation and profile errors without returning partial text.
    #[verifier::loop_isolation(false)]
    pub fn analyze(text: &str, limits: AnalysisLimits) -> (result: Result<Self>)
        ensures
            analyzed(text, limits, false, analyzed_model(result)),
    {
        if !tables_agree() {
            return Err(Error::InvalidProfile);
        }
        if text.as_bytes().len() > limits.input_bytes {
            return Err(Error::Limit("document bytes"));
        }
        let mut budget: MemoryBudget = MemoryBudget::new(limits.memory_bytes);
        let (normalized, peak): (String, usize) = profile_text(
            text,
            limits.normalized_bytes,
            &mut budget,
        )?;
        let ghost bytes = encode_utf8(normalized@);
        if normalized.as_str().as_bytes().len() as u64 > u32::MAX as u64 {
            return Err(Error::Limit("normalized bytes"));
        }
        let ranges: Vec<(usize, usize)> = words(normalized.as_str());
        let ghost all = words_of(normalized@);
        assert(words_at(bytes, ranges@) =~= all);
        assert(bytes == encode_utf8(normalized@));
        proof {
            if text@.len() == 0 {
                assert(text@ =~= Seq::<char>::empty());
                vstd::utf8::is_ascii_chars_encode_utf8(text@);
                assert(bytes.len() == 0);
                if ranges@.len() > 0 {
                    assert(word_inside(bytes, ranges@[0]));
                }
            }
        }
        Analyzed::tokenize(normalized, &ranges, limits, &mut budget, peak)
    }

    /// Analyzes a text in memory that was given for the normalized bytes, for the
    /// sequences at hand of both compositions and for the words.
    ///
    /// # Errors
    /// Rejects size, token and profile errors without returning partial text.
    #[verifier::loop_isolation(false)]
    pub fn analyze_in(
        text: &str,
        limits: AnalysisLimits,
        bytes: Vec<u8>,
        pending: Vec<Scalar>,
        folding: Vec<Scalar>,
        tokens: Vec<TokenRange>,
    ) -> (result: Result<Self>)
        requires
            bytes@.len() == 0,
            pending@.len() == 0,
            folding@.len() == 0,
            tokens@.len() == 0,
        ensures
            analyzed(text, limits, true, analyzed_model(result)),
    {
        if !tables_agree() {
            return Err(Error::InvalidProfile);
        }
        if text.as_bytes().len() > limits.input_bytes {
            return Err(Error::Limit("document bytes"));
        }
        let normalized: String = profile_text_in(
            text,
            limits.normalized_bytes,
            bytes,
            pending,
            folding,
        )?;
        if normalized.as_str().as_bytes().len() as u64 > u32::MAX as u64 {
            return Err(Error::Limit("normalized bytes"));
        }
        let ranges: Vec<(usize, usize)> = words(normalized.as_str());
        let ghost all = words_of(normalized@);
        assert(words_at(encode_utf8(normalized@), ranges@) =~= all);
        Analyzed::tokenize_in(normalized, &ranges, limits, tokens)
    }

    /// Takes the words of a normalized text by their ranges, in memory that was given.
    ///
    /// # Errors
    /// Rejects a word that is too long and too many words.
    #[verifier::loop_isolation(false)]
    pub fn tokenize_in(
        normalized: String,
        ranges: &Vec<(usize, usize)>,
        limits: AnalysisLimits,
        tokens: Vec<TokenRange>,
    ) -> (result: Result<Self>)
        requires
            encode_utf8(normalized@).len() <= u32::MAX,
            forall|i: int|
                0 <= i < ranges@.len() ==> word_inside(
                    encode_utf8(normalized@),
                    #[trigger] ranges@[i],
                ),
            tokens@.len() == 0,
        ensures
            ({
                let words = words_at(encode_utf8(normalized@), ranges@);
                match words_error(words, limits) {
                    Some(error) => result matches Err(e) && e == error,
                    None => result matches Ok(document) && document@ == (AnalyzedModel {
                        normalized: encode_utf8(normalized@),
                        words,
                        retained: 0,
                        peak: 0,
                    }),
                }
            }),
    {
        let ghost bytes = encode_utf8(normalized@);
        let ghost all = words_at(bytes, ranges@);
        let mut tokens: Vec<TokenRange> = tokens;
        let mut index: usize = 0;
        while index < ranges.len()
            invariant
                index <= ranges@.len(),
                taken_so_far(bytes, ranges@, limits, tokens@, index as int),
            decreases ranges@.len() - index,
        {
            let (start, length): (usize, usize) = ranges[index];
            proof {
                word_judged(bytes, ranges@, limits, tokens@, index as int);
            }
            if length > limits.term_bytes {
                return Err(Error::Limit("term bytes"));
            }
            if index as u64 >= limits.tokens as u64 {
                return Err(Error::Limit("element count"));
            }
            tokens.push(TokenRange { start: start as u32, end: (start + length) as u32 });
            index += 1;
        }
        let document: Analyzed = Analyzed { normalized, tokens, retained_bytes: 0, peak_bytes: 0 };
        proof {
            words_taken(bytes, ranges@, limits, document.tokens@);
            assert(document@.words =~= all);
        }
        Ok(document)
    }

    /// Takes the words of a normalized text by their ranges.
    ///
    /// # Errors
    /// Rejects a word that is too long, too many words and allocation errors.
    #[verifier::loop_isolation(false)]
    pub fn tokenize(
        normalized: String,
        ranges: &Vec<(usize, usize)>,
        limits: AnalysisLimits,
        budget: &mut MemoryBudget,
        peak: usize,
    ) -> (result: Result<Self>)
        requires
            encode_utf8(normalized@).len() <= u32::MAX,
            forall|i: int|
                0 <= i < ranges@.len() ==> word_inside(
                    encode_utf8(normalized@),
                    #[trigger] ranges@[i],
                ),
        ensures
            ({
                let words = words_at(encode_utf8(normalized@), ranges@);
                match result {
                    Ok(document) => {
                        &&& document@.normalized == encode_utf8(normalized@)
                        &&& document@.words == words
                        &&& words_error(words, limits) is None
                        &&& document@.retained == final(budget)@.used
                        &&& final(budget)@.used >= old(budget)@.used + words.len()
                            * vstd::layout::size_of::<TokenRange>()
                        &&& document@.peak == if peak > final(budget)@.used {
                            peak as nat
                        } else {
                            final(budget)@.used
                        }
                    },
                    Err(error) => (out_of_memory(error) && ranges@.len() > 0) || words_error(
                        words,
                        limits,
                    ) == Some(error),
                }
            }),
    {
        let ghost bytes = encode_utf8(normalized@);
        let ghost all = words_at(bytes, ranges@);
        let ghost size = vstd::layout::size_of::<TokenRange>();
        let mut tokens: Vec<TokenRange> = Vec::new();
        let mut held: usize = 0;
        let mut index: usize = 0;
        assert(0 * size == 0) by (nonlinear_arith);
        while index < ranges.len()
            invariant
                index <= ranges@.len(),
                tokens@.len() <= held,
                budget@.used == old(budget)@.used + held * size,
                taken_so_far(bytes, ranges@, limits, tokens@, index as int),
            decreases ranges@.len() - index,
        {
            let (start, length): (usize, usize) = ranges[index];
            proof {
                word_judged(bytes, ranges@, limits, tokens@, index as int);
            }
            if length > limits.term_bytes {
                return Err(Error::Limit("term bytes"));
            }
            let ghost before = held;
            reserve_held(&mut tokens, &mut held, 1, limits.tokens as usize, budget)?;
            proof {
                assert(before * size + (held - before) * size == held * size) by (nonlinear_arith);
            }
            tokens.push(TokenRange { start: start as u32, end: (start + length) as u32 });
            index += 1;
        }
        let retained_bytes: usize = budget.used();
        let peak_bytes: usize = if peak > retained_bytes {
            peak
        } else {
            retained_bytes
        };
        let document: Analyzed = Analyzed { normalized, tokens, retained_bytes, peak_bytes };
        proof {
            words_taken(bytes, ranges@, limits, document.tokens@);
            assert(document@.words =~= all);
            let count = ranges@.len();
            assert(count * size <= held * size) by (nonlinear_arith)
                requires
                    count <= held,
            ;
        }
        Ok(document)
    }

    pub fn profile(&self) -> (profile: u32)
        ensures
            profile == PROFILE_ID,
    {
        PROFILE_ID
    }

    pub fn len(&self) -> (len: u32)
        ensures
            len == self@.words.len(),
    {
        proof {
            use_type_invariant(self);
        }
        self.tokens.len() as u32
    }

    pub fn is_empty(&self) -> (empty: bool)
        ensures
            empty == (self@.words.len() == 0),
    {
        self.tokens.len() == 0
    }

    pub fn normalized(&self) -> (text: &str)
        ensures
            text_bytes(text) == self@.normalized,
    {
        self.normalized.as_str()
    }

    pub fn retained_bytes(&self) -> (bytes: usize)
        ensures
            bytes == self@.retained,
    {
        self.retained_bytes
    }

    pub fn peak_bytes(&self) -> (bytes: usize)
        ensures
            bytes == self@.peak,
    {
        self.peak_bytes
    }

    /// The word at a position.
    pub fn token(&self, index: usize) -> (token: Option<Token<'_>>)
        ensures
            match token {
                Some(token) => index < self@.words.len() && text_bytes(token.term)
                    == self@.words[index as int] && token.position == index,
                None => index >= self@.words.len(),
            },
    {
        proof {
            use_type_invariant(self);
        }
        if index >= self.tokens.len() {
            return None;
        }
        let range: TokenRange = self.tokens[index];
        assert(token_inside(encode_utf8(self.normalized@), self.tokens@[index as int]));
        let bytes: &[u8] = self.normalized.as_str().as_bytes();
        match utf8(&bytes[range.start as usize..range.end as usize]) {
            Some(term) => Some(Token { term, position: index as u32 }),
            None => None,
        }
    }

    /// All words in order.
    pub fn tokens(&self) -> (tokens: Vec<Token<'_>>)
        ensures
            tokens@.len() == self@.words.len(),
            forall|i: int|
                0 <= i < tokens@.len() ==> text_bytes((#[trigger] tokens@[i]).term)
                    == self@.words[i] && tokens@[i].position == i,
    {
        self.tokens_in(Vec::new())
    }

    /// All words in order, in memory that was given.
    pub fn tokens_in<'a>(&'a self, room: Vec<Token<'a>>) -> (tokens: Vec<Token<'a>>)
        requires
            room@.len() == 0,
        ensures
            tokens@.len() == self@.words.len(),
            forall|i: int|
                0 <= i < tokens@.len() ==> text_bytes((#[trigger] tokens@[i]).term)
                    == self@.words[i] && tokens@[i].position == i,
    {
        let count: u32 = self.len();
        let mut tokens: Vec<Token<'a>> = room;
        let mut index: usize = 0;
        loop
            invariant
                count == self@.words.len(),
                tokens@.len() == index <= self@.words.len(),
                forall|i: int|
                    0 <= i < tokens@.len() ==> text_bytes((#[trigger] tokens@[i]).term)
                        == self@.words[i] && tokens@[i].position == i,
            decreases self@.words.len() - index,
        {
            match self.token(index) {
                None => {
                    return tokens;
                },
                Some(token) => {
                    tokens.push(token);
                    index += 1;
                },
            }
        }
    }
}

/// Whether all tables are those of Unicode 16.
fn tables_agree() -> (agree: bool)
    ensures
        agree,
{
    let normalizing: (u8, u8, u8) = normalization_version();
    let segmenting: (u64, u64, u64) = segmentation_version();
    let folding: (u64, u64, u64) = folding_version();
    normalizing.0 == 16 && normalizing.1 == 0 && normalizing.2 == 0 && segmenting.0 == 16
        && segmenting.1 == 0 && segmenting.2 == 0 && folding.0 == 16 && folding.1 == 0 && folding.2
        == 0
}

/// Whether the first words were taken.
spec fn taken_so_far(
    bytes: Seq<u8>,
    ranges: Seq<(usize, usize)>,
    limits: AnalysisLimits,
    tokens: Seq<TokenRange>,
    count: int,
) -> bool {
    &&& tokens.len() == count
    &&& count <= limits.tokens
    &&& forall|i: int|
        0 <= i < count ==> token_inside(bytes, #[trigger] tokens[i]) && tokens[i].start
            == ranges[i].0 && tokens[i].end == ranges[i].0 + ranges[i].1 && ranges[i].1
            <= limits.term_bytes
}

/// What the next word leads to.
proof fn word_judged(
    bytes: Seq<u8>,
    ranges: Seq<(usize, usize)>,
    limits: AnalysisLimits,
    tokens: Seq<TokenRange>,
    index: int,
)
    requires
        bytes.len() <= u32::MAX,
        0 <= index < ranges.len(),
        forall|i: int| 0 <= i < ranges.len() ==> word_inside(bytes, #[trigger] ranges[i]),
        taken_so_far(bytes, ranges, limits, tokens, index),
    ensures
        ({
            let words = words_at(bytes, ranges);
            let (start, length) = ranges[index];
            &&& start + length <= u32::MAX
            &&& word_inside(bytes, ranges[index])
            &&& length > limits.term_bytes ==> words_error(words, limits) == Some(
                Error::Limit("term bytes"),
            )
            &&& length <= limits.term_bytes && index >= limits.tokens ==> words_error(words, limits)
                == Some(Error::Limit("element count"))
        }),
{
    let words = words_at(bytes, ranges);
    assert(word_inside(bytes, ranges[index]));
    let looked_at = if words.len() > limits.tokens {
        words.take(limits.tokens + 1)
    } else {
        words
    };
    assert(looked_at[index].len() == ranges[index].1);
    if ranges[index].1 <= limits.term_bytes && index >= limits.tokens {
        assert forall|i: int| 0 <= i < looked_at.len() implies (#[trigger] looked_at[i]).len()
            <= limits.term_bytes by {
            assert(word_inside(bytes, ranges[i]));
            if i < index {
                assert(token_inside(bytes, tokens[i]));
            }
        }
    }
}

/// Where all words were taken, nothing is wrong with them.
proof fn words_taken(
    bytes: Seq<u8>,
    ranges: Seq<(usize, usize)>,
    limits: AnalysisLimits,
    tokens: Seq<TokenRange>,
)
    requires
        taken_so_far(bytes, ranges, limits, tokens, ranges.len() as int),
        forall|i: int| 0 <= i < ranges.len() ==> word_inside(bytes, #[trigger] ranges[i]),
    ensures
        words_error(words_at(bytes, ranges), limits) is None,
{
    let words = words_at(bytes, ranges);
    assert forall|i: int| 0 <= i < words.len() implies (#[trigger] words[i]).len()
        <= limits.term_bytes by {
        assert(token_inside(bytes, tokens[i]));
        assert(word_inside(bytes, ranges[i]));
    }
}

/// Whether a range of a token is a text inside the bytes.
spec fn token_inside(bytes: Seq<u8>, range: TokenRange) -> bool {
    &&& range.start < range.end <= bytes.len()
    &&& valid_utf8(bytes.subrange(range.start as int, range.end as int))
}

} // verus!
