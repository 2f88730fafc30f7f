//! Budgeted streaming normalization: composition, simple folding, composition.
//! Canonical order keeps equal classes in their order; composition honors blocking.

use crate::budget::{Account, MemoryBudget};
use crate::error::{Error, Result};
use crate::memory::{give_back, out_of_memory, reserve_held, string_from_utf8};
use vstd::prelude::*;
use vstd::std_specs::iter::IteratorSpec;
use vstd::string::is_ascii;
use vstd::utf8::{
    encode_scalar, encode_utf8, encode_utf8_valid_utf8, is_ascii_chars, is_ascii_chars_encode_utf8,
    valid_utf8,
};

verus! {

/// The full canonical decomposition of a character.
pub uninterp spec fn canonical_decomposition(value: char) -> Seq<char>;

/// The canonical combining class of a character.
pub uninterp spec fn combining_class(value: char) -> u8;

/// The canonical composition of two characters.
pub uninterp spec fn canonical_composition(first: char, second: char) -> Option<char>;

/// The simple case folding of a character that has one.
pub uninterp spec fn simple_folding(value: char) -> Option<u32>;

/// Appends a character to a list.
fn keep(list: &mut Vec<char>, value: char)
    ensures
        final(list)@ == old(list)@.push(value),
{
    list.push(value);
}

/// Calls `unicode_normalization::char::decompose_canonical`: the characters that
/// it hands over, in order. They depend on the character alone.
#[verifier::external_body]
fn decompose(value: char) -> (list: Vec<char>)
    ensures
        list@ == canonical_decomposition(value),
{
    let mut list: Vec<char> = Vec::new();
    unicode_normalization::char::decompose_canonical(value, |part| keep(&mut list, part));
    list
}

/// Calls `unicode_normalization::char::canonical_combining_class`, which depends
/// on the character alone.
#[verifier::external_body]
fn class(value: char) -> (class: u8)
    ensures
        class == combining_class(value),
{
    unicode_normalization::char::canonical_combining_class(value)
}

/// Calls `unicode_normalization::char::compose`, which depends on the two
/// characters alone.
#[verifier::external_body]
fn compose(first: char, second: char) -> (joined: Option<char>)
    ensures
        joined == canonical_composition(first, second),
{
    unicode_normalization::char::compose(first, second)
}

/// Calls `unicode_case_mapping::case_folded`, which depends on the character
/// alone; the code of the folded character is not zero.
#[verifier::external_body]
fn case_folded(value: char) -> (folded: Option<u32>)
    ensures
        folded == simple_folding(value),
        folded matches Some(code) ==> code != 0,
{
    unicode_case_mapping::case_folded(value).map(|code| code.get())
}

/// Whether a number is the code of a character: no surrogate, and in range.
pub open spec fn scalar_code(code: u32) -> bool {
    code < 0xD800 || 0xE000 <= code <= 0x10FFFF
}

/// Calls `char::from_u32`: the character with that code, for the codes that
/// characters have.
#[verifier::external_body]
fn from_code(code: u32) -> (value: Option<char>)
    ensures
        match value {
            Some(value) => scalar_code(code) && value as u32 == code,
            None => !scalar_code(code),
        },
{
    char::from_u32(code)
}

/// Calls `char::encode_utf8`: the encoding of the character, and how many bytes
/// of the array hold it.
#[verifier::external_body]
fn encoded(value: char) -> (code: ([u8; 4], usize))
    ensures
        code.1 <= 4,
        code.0@.take(code.1 as int) == encode_scalar(value as u32),
{
    let mut bytes: [u8; 4] = [0u8; 4];
    let length: usize = value.encode_utf8(&mut bytes).len();
    (bytes, length)
}

/// The character whose code a folding gives; a character without one stays.
pub open spec fn folded_to(value: char, mapped: Option<u32>) -> Option<char> {
    match mapped {
        None => Some(value),
        Some(code) => if scalar_code(code) {
            Some(code as char)
        } else {
            None
        },
    }
}

/// The folded form of a character.
pub open spec fn folded_char(value: char) -> Option<char> {
    folded_to(value, simple_folding(value))
}

/// Takes the code that a folding gives.
///
/// # Errors
/// Rejects codes that no character has.
pub fn fold_to(value: char, mapped: Option<u32>) -> (result: Result<char>)
    ensures
        match folded_to(value, mapped) {
            Some(folded) => result == Ok::<char, Error>(folded),
            None => result == Err::<char, Error>(Error::InvalidProfile),
        },
        match mapped {
            None => result == Ok::<char, Error>(value),
            Some(code) => if code < 0xD800 || 0xE000 <= code <= 0x10FFFF {
                result matches Ok(folded) && folded as u32 == code
            } else {
                result == Err::<char, Error>(Error::InvalidProfile)
            },
        },
{
    match mapped {
        None => Ok(value),
        Some(code) => match from_code(code) {
            Some(folded) => {
                proof {
                    vstd::utf8::char_u32_cast(folded, code);
                }
                Ok(folded)
            },
            None => Err(Error::InvalidProfile),
        },
    }
}

fn fold(value: char) -> (result: Result<char>)
    ensures
        match folded_char(value) {
            Some(folded) => result == Ok::<char, Error>(folded),
            None => result == Err::<char, Error>(Error::InvalidProfile),
        },
{
    fold_to(value, case_folded(value))
}

/// The marks by increasing class from `least` on; those of one class in their order.
pub open spec fn by_class(marks: Seq<char>, least: int) -> Seq<char>
    decreases 256 - least,
{
    if least > 255 {
        Seq::empty()
    } else {
        marks.filter(|value: char| combining_class(value) == least) + by_class(marks, least + 1)
    }
}

/// A starter joined with the marks behind it. A mark is joined unless one of its
/// class or a higher one stands between.
pub open spec fn composing(first: char, marks: Seq<char>, previous: u8) -> (char, Seq<char>)
    decreases marks.len(),
{
    if marks.len() == 0 {
        (first, Seq::empty())
    } else {
        let mark = marks[0];
        let joined = if previous == 0 || previous < combining_class(mark) {
            canonical_composition(first, mark)
        } else {
            None
        };
        match joined {
            Some(joined) => composing(joined, marks.drop_first(), previous),
            None => {
                let (starter, rest) = composing(first, marks.drop_first(), combining_class(mark));
                (starter, seq![mark] + rest)
            },
        }
    }
}

/// A combining sequence in canonical order, composed where it has a starter.
pub open spec fn composed(pending: Seq<char>) -> Seq<char> {
    if pending.len() == 0 {
        pending
    } else if combining_class(pending[0]) == 0 {
        let (starter, rest) = composing(pending[0], by_class(pending.drop_first(), 0), 0);
        seq![starter] + rest
    } else {
        by_class(pending, 0)
    }
}

/// The sequence at hand after one more decomposed character, and what is
/// complete before it.
pub open spec fn one_taken(pending: Seq<char>, value: char) -> (Seq<char>, Seq<char>) {
    if combining_class(value) == 0 && pending.len() > 0 {
        let whole = composed(pending);
        let joined = if whole.len() == 1 && combining_class(whole[0]) == 0 {
            canonical_composition(whole[0], value)
        } else {
            None
        };
        match joined {
            Some(joined) => (seq![joined], Seq::empty()),
            None => (seq![value], whole),
        }
    } else {
        (pending.push(value), Seq::empty())
    }
}

/// The sequence at hand after decomposed characters, and what is complete before it.
pub open spec fn taken(parts: Seq<char>) -> (Seq<char>, Seq<char>)
    decreases parts.len(),
{
    if parts.len() == 0 {
        (Seq::empty(), Seq::empty())
    } else {
        let (pending, done) = taken(parts.drop_last());
        let (next, more) = one_taken(pending, parts.last());
        (next, done + more)
    }
}

/// The canonical decompositions of characters, one behind the other.
pub open spec fn decompositions(values: Seq<char>) -> Seq<char>
    decreases values.len(),
{
    if values.len() == 0 {
        Seq::empty()
    } else {
        decompositions(values.drop_last()) + canonical_decomposition(values.last())
    }
}

/// Normalization form C of characters.
pub open spec fn nfc(values: Seq<char>) -> Seq<char> {
    let (pending, done) = taken(decompositions(values));
    done + composed(pending)
}

/// Whether all characters can be folded.
pub open spec fn foldable(values: Seq<char>) -> bool {
    forall|i: int| 0 <= i < values.len() ==> folded_char(#[trigger] values[i]) is Some
}

/// The characters, each folded.
pub open spec fn folded(values: Seq<char>) -> Seq<char> {
    values.map_values(|value: char| folded_char(value)->Some_0)
}

/// The lower-case form of an ASCII byte.
pub open spec fn ascii_lower(byte: u8) -> u8 {
    if 65 <= byte <= 90 {
        (byte + 32) as u8
    } else {
        byte
    }
}

/// The normalized form of a text as bytes; nothing where a character has no
/// valid folding.
pub open spec fn profiled(text: Seq<char>) -> Option<Seq<u8>> {
    if is_ascii_chars(text) {
        Some(encode_utf8(text).map_values(|byte: u8| ascii_lower(byte)))
    } else if foldable(nfc(text)) {
        Some(encode_utf8(nfc(folded(nfc(text)))))
    } else {
        None
    }
}

/// Receives normalized characters.
trait Receiver: Sized {
    spec fn wf(&self) -> bool;

    /// The characters received so far.
    spec fn received(&self) -> Seq<char>;

    /// What bounds the output, and whether its memory was given.
    spec fn bound(&self) -> (usize, bool);

    /// How many bytes were charged for that are given back at the end.
    spec fn charged(&self) -> int;

    /// Whether receiving all those characters may fail so.
    spec fn fails_on(bound: (usize, bool), all: Seq<char>, error: Error) -> bool;

    /// What fails on some characters may fail on more.
    proof fn fails_later(bound: (usize, bool), all: Seq<char>, more: Seq<char>, error: Error)
        requires
            Self::fails_on(bound, all, error),
        ensures
            Self::fails_on(bound, all + more, error),
    ;

    fn receive(&mut self, value: char, budget: &mut MemoryBudget) -> (result: Result<()>)
        requires
            old(self).wf(),
        ensures
            final(self).bound() == old(self).bound(),
            result is Ok ==> final(budget)@.used - final(self).charged() >= old(budget)@.used
                - old(self).charged(),
            match result {
                Ok(_) => final(self).wf() && final(self).received() == old(self).received().push(
                    value,
                ),
                Err(error) => Self::fails_on(
                    old(self).bound(),
                    old(self).received().push(value),
                    error,
                ),
            },
    ;
}

/// Whether no charge was lost: what is left of the account's total beyond what
/// will be given back did not shrink.
spec fn paid<R: Receiver>(before: (R, Account), after: (R, Account)) -> bool {
    after.1.used - after.0.charged() >= before.1.used - before.0.charged()
}

/// A character of a combining sequence and its place in it.
#[derive(Clone, Copy, Debug)]
pub struct Scalar {
    value: char,
    order: u32,
}

/// Composes a stream of characters.
pub struct Nfc {
    pending: Vec<Scalar>,
    held: usize,
    given: bool,
    parts: Ghost<Seq<char>>,
}

/// The characters of a sequence.
spec fn values_of(list: Seq<Scalar>) -> Seq<char> {
    Seq::new(list.len(), |i: int| list[i].value)
}

/// Why a combining sequence of decomposed characters cannot be held: memory that
/// was not given, or its length.
pub open spec fn overlong(given: bool, parts: Seq<char>, error: Error) -> bool {
    ||| !given && out_of_memory(error)
    ||| error == Error::Limit("element count") && parts.len() >= u32::MAX
    ||| error == Error::Limit("combining sequence") && parts.len() > u32::MAX
}

/// The sequence at hand is no longer than what was taken.
proof fn pending_short(parts: Seq<char>)
    ensures
        taken(parts).0.len() <= parts.len(),
    decreases parts.len(),
{
    if parts.len() > 0 {
        pending_short(parts.drop_last());
    }
}

/// Nothing of a class between the bounds changes nothing.
proof fn classes_skipped(marks: Seq<char>, least: int, next: int)
    requires
        0 <= least <= next <= 256,
        forall|i: int|
            0 <= i < marks.len() ==> !(least <= combining_class(#[trigger] marks[i]) < next),
    ensures
        by_class(marks, least) == by_class(marks, next),
    decreases next - least,
{
    if least < next {
        classes_skipped(marks, least + 1, next);
        let pred = |value: char| combining_class(value) == least;
        none_kept(marks, pred);
        assert(by_class(marks, least) =~= by_class(marks, least + 1));
    }
}

/// A filter that nothing passes leaves nothing.
proof fn none_kept(marks: Seq<char>, pred: spec_fn(char) -> bool)
    requires
        forall|i: int| 0 <= i < marks.len() ==> !pred(#[trigger] marks[i]),
    ensures
        marks.filter(pred) == Seq::<char>::empty(),
    decreases marks.len(),
{
    reveal(Seq::filter);
    if marks.len() > 0 {
        none_kept(marks.drop_last(), pred);
    }
}

/// Ordering leaves out some marks at most.
proof fn classes_shorter(marks: Seq<char>, least: int)
    requires
        0 <= least <= 256,
    ensures
        by_class(marks, least).len() <= marks.filter(|value: char| combining_class(value) >= least).len(),
        by_class(marks, least).len() <= marks.len(),
    decreases 256 - least,
{
    let rest = |value: char| combining_class(value) >= least;
    if least < 256 {
        classes_shorter(marks, least + 1);
        kept_apart(
            marks,
            |value: char| combining_class(value) == least,
            |value: char| combining_class(value) >= least + 1,
            rest,
        );
    }
    kept_fewer(marks, rest);
}

proof fn kept_fewer(marks: Seq<char>, pred: spec_fn(char) -> bool)
    ensures
        marks.filter(pred).len() <= marks.len(),
    decreases marks.len(),
{
    reveal(Seq::filter);
    if marks.len() > 0 {
        kept_fewer(marks.drop_last(), pred);
    }
}

/// What two rules keep that exclude each other is kept by their union.
proof fn kept_apart(
    marks: Seq<char>,
    one: spec_fn(char) -> bool,
    other: spec_fn(char) -> bool,
    either: spec_fn(char) -> bool,
)
    requires
        forall|value: char| #[trigger] either(value) == (one(value) || other(value)),
        forall|value: char| !(#[trigger] one(value) && other(value)),
    ensures
        marks.filter(one).len() + marks.filter(other).len() == marks.filter(either).len(),
    decreases marks.len(),
{
    reveal(Seq::filter);
    if marks.len() > 0 {
        kept_apart(marks.drop_last(), one, other, either);
        assert(either(marks.last()) == (one(marks.last()) || other(marks.last())));
        assert(!(one(marks.last()) && other(marks.last())));
    }
}

/// One mark or none is in order.
proof fn single_ordered(marks: Seq<char>)
    requires
        marks.len() <= 1,
    ensures
        by_class(marks, 0) == marks,
{
    if marks.len() == 0 {
        classes_skipped(marks, 0, 256);
        assert(marks =~= Seq::empty());
    } else {
        let class = combining_class(marks[0]) as int;
        classes_skipped(marks, 0, class);
        classes_skipped(marks, class + 1, 256);
        reveal(Seq::filter);
        let pred = |value: char| combining_class(value) == class;
        assert(marks.drop_last().filter(pred) =~= Seq::<char>::empty());
        assert(marks.filter(pred) =~= marks);
        assert(by_class(marks, class) =~= marks);
    }
}

/// What is complete stays complete.
proof fn done_grows(parts: Seq<char>, more: Seq<char>)
    ensures
        taken(parts).1.is_prefix_of(taken(parts + more).1),
    decreases more.len(),
{
    if more.len() > 0 {
        done_grows(parts, more.drop_last());
        assert((parts + more).drop_last() =~= parts + more.drop_last());
    } else {
        assert(parts + more =~= parts);
    }
}

impl Nfc {
    /// The decomposed characters so far.
    pub closed spec fn parts(&self) -> Seq<char> {
        self.parts@
    }

    /// The sequence at hand.
    closed spec fn at_hand(&self) -> Seq<char> {
        values_of(self.pending@)
    }

    /// Whether the memory of the sequence was given.
    pub closed spec fn given(&self) -> bool {
        self.given
    }

    /// How many bytes were charged for.
    pub closed spec fn charged(&self) -> int {
        self.held * vstd::layout::size_of::<Scalar>()
    }

    pub closed spec fn wf(&self) -> bool {
        &&& self.at_hand() == taken(self.parts@).0
        &&& !self.given ==> self.pending@.len() <= self.held
    }

    pub fn new() -> (state: Self)
        ensures
            state.wf(),
            state.parts().len() == 0,
            !state.given(),
            state.charged() == 0,
    {
        let state: Nfc = Nfc { pending: Vec::new(), held: 0, given: false, parts: Ghost(Seq::empty()) };
        assert(state.at_hand() =~= Seq::<char>::empty());
        assert(0 * vstd::layout::size_of::<Scalar>() == 0) by (nonlinear_arith);
        state
    }

    /// Composes in memory that was given.
    pub fn new_in(pending: Vec<Scalar>) -> (state: Self)
        requires
            pending@.len() == 0,
        ensures
            state.wf(),
            state.parts().len() == 0,
            state.given(),
            state.charged() == 0,
    {
        let state: Nfc = Nfc { pending, held: 0, given: true, parts: Ghost(Seq::empty()) };
        assert(state.at_hand() =~= Seq::<char>::empty());
        assert(0 * vstd::layout::size_of::<Scalar>() == 0) by (nonlinear_arith);
        state
    }

    /// Puts the marks from an index on into canonical order.
    #[verifier::loop_isolation(false)]
    fn reorder(&mut self, begin: usize)
        requires
            begin <= old(self).pending@.len(),
        ensures
            final(self).parts() == old(self).parts(),
            final(self).held == old(self).held,
            final(self).given == old(self).given,
            final(self).pending@.len() <= old(self).pending@.len(),
            final(self).at_hand() == old(self).at_hand().take(begin as int) + by_class(
                old(self).at_hand().skip(begin as int),
                0,
            ),
    {
        let ghost lead = self.at_hand().take(begin as int);
        let ghost marks = self.at_hand().skip(begin as int);
        let count: usize = self.pending.len() - begin;
        if count < 2 {
            proof {
                single_ordered(marks);
                assert(self.at_hand() =~= lead + marks);
            }
            return;
        }
        let mut sorted: Vec<Scalar> = Vec::new();
        let mut least: u16 = 0;
        assert(values_of(sorted@) + by_class(marks, 0) =~= by_class(marks, 0));
        while least < 256
            invariant
                least <= 256,
                *self == *old(self),
                sorted@.len() <= self.pending@.len(),
                values_of(sorted@) + by_class(marks, least as int) == by_class(marks, 0),
            decreases 256 - least,
        {
            let next: u16 = self.next_class(begin, least);
            proof {
                classes_skipped(marks, least as int, next as int);
            }
            if next < 256 {
                let ghost pred = |value: char| combining_class(value) == next as int;
                let ghost done = values_of(sorted@);
                let mut index: usize = begin;
                proof {
                    reveal(Seq::filter);
                    assert(marks.take(0).filter(pred) =~= Seq::<char>::empty());
                    assert(done =~= done + marks.take(0).filter(pred));
                }
                while index < self.pending.len()
                    invariant
                        begin <= index <= self.pending@.len(),
                        *self == *old(self),
                        values_of(sorted@) == done + marks.take(index - begin).filter(pred),
                    decreases self.pending@.len() - index,
                {
                    let scalar: Scalar = self.pending[index];
                    proof {
                        reveal(Seq::filter);
                        let longer = marks.take(index + 1 - begin);
                        assert(longer.drop_last() =~= marks.take(index - begin));
                        assert(longer.last() == scalar.value);
                    }
                    let ghost kept = sorted@;
                    if class(scalar.value) as u16 == next {
                        sorted.push(scalar);
                        assert(values_of(sorted@) =~= values_of(kept).push(scalar.value));
                        assert(values_of(sorted@) =~= done + marks.take(index + 1 - begin).filter(
                            pred,
                        ));
                    }
                    index += 1;
                }
                proof {
                    assert(marks.take(index - begin) =~= marks);
                    assert(by_class(marks, next as int) == marks.filter(pred) + by_class(
                        marks,
                        next + 1,
                    ));
                    assert(values_of(sorted@) + by_class(marks, next + 1) =~= done + by_class(
                        marks,
                        next as int,
                    ));
                    classes_shorter(marks, 0);
                    assert(values_of(sorted@).len() <= by_class(marks, 0).len());
                }
                least = next + 1;
            } else {
                least = 256;
            }
        }
        assert(values_of(sorted@) =~= by_class(marks, 0));
        let total: usize = self.pending.len();
        self.pending.truncate(begin);
        let mut index: usize = 0;
        proof {
            classes_shorter(marks, 0);
            assert(self.at_hand() =~= lead + by_class(marks, 0).take(0));
        }
        while index < sorted.len()
            invariant
                index <= sorted@.len(),
                values_of(sorted@) == by_class(marks, 0),
                self.parts() == old(self).parts(),
                self.held == old(self).held,
                self.given == old(self).given,
                self.pending@.len() == begin + index,
                self.at_hand() == lead + by_class(marks, 0).take(index as int),
            decreases sorted@.len() - index,
        {
            let scalar: Scalar = sorted[index];
            let ghost before = self.pending@;
            self.pending.push(scalar);
            proof {
                assert(by_class(marks, 0)[index as int] == scalar.value);
                assert(self.at_hand() =~= values_of(before).push(scalar.value));
                assert(self.at_hand() =~= lead + by_class(marks, 0).take(index + 1));
            }
            index += 1;
        }
        assert(by_class(marks, 0).take(index as int) =~= by_class(marks, 0));
    }

    /// The least class from `least` on among the marks behind an index.
    #[verifier::loop_isolation(false)]
    fn next_class(&self, begin: usize, least: u16) -> (next: u16)
        requires
            begin <= self.pending@.len(),
            least < 256,
        ensures
            least <= next <= 256,
            forall|i: int|
                0 <= i < self.at_hand().skip(begin as int).len() ==> !(least <= combining_class(
                    #[trigger] self.at_hand().skip(begin as int)[i],
                ) < next),
    {
        let mut next: u16 = 256;
        let mut index: usize = begin;
        while index < self.pending.len()
            invariant
                begin <= index <= self.pending@.len(),
                least <= next <= 256,
                forall|i: int|
                    begin <= i < index ==> !(least <= combining_class(
                        (#[trigger] self.pending@[i]).value,
                    ) < next),
            decreases self.pending@.len() - index,
        {
            let found: u16 = class(self.pending[index].value) as u16;
            if least <= found && found < next {
                next = found;
            }
            index += 1;
        }
        assert forall|i: int| 0 <= i < self.at_hand().skip(begin as int).len() implies !(least
            <= combining_class(#[trigger] self.at_hand().skip(begin as int)[i]) < next) by {
            assert(self.at_hand().skip(begin as int)[i] == self.pending@[begin + i].value);
        }
        next
    }

    /// Puts the sequence at hand into canonical order and composes it.
    #[verifier::loop_isolation(false)]
    fn compose(&mut self)
        ensures
            final(self).parts() == old(self).parts(),
            final(self).held == old(self).held,
            final(self).given == old(self).given,
            final(self).pending@.len() <= old(self).pending@.len(),
            final(self).at_hand() == composed(old(self).at_hand()),
    {
        let ghost start = self.at_hand();
        if self.pending.len() == 0 {
            return;
        }
        let starter: bool = class(self.pending[0].value) == 0;
        if !starter {
            self.reorder(0);
            proof {
                assert(start.skip(0) =~= start);
                assert(self.at_hand() =~= by_class(start, 0));
            }
            return;
        }
        self.reorder(1);
        let ghost marks = by_class(start.drop_first(), 0);
        proof {
            assert(start.skip(1) =~= start.drop_first());
            assert(self.at_hand() =~= seq![start[0]] + marks);
            assert(marks.skip(0) =~= marks);
            assert(self.pending@.len() == marks.len() + 1) by {
                assert(self.at_hand().len() == self.pending@.len());
            }
        }
        assert(self.pending@[0].value == self.at_hand()[0]);
        let mut first: char = self.pending[0].value;
        let ghost total = composing(first, marks, 0);
        let mut write: usize = 1;
        let mut previous: u8 = 0;
        let mut read: usize = 1;
        assert(total.1 =~= self.at_hand().subrange(1, 1) + composing(first, marks, 0).1);
        assert(self.at_hand().skip(1) =~= marks);
        while read < self.pending.len()
            invariant
                1 <= write <= read <= self.pending@.len(),
                self.pending@.len() == marks.len() + 1,
                self.pending@.len() <= old(self).pending@.len(),
                self.parts() == old(self).parts(),
                self.held == old(self).held,
                self.given == old(self).given,
                self.at_hand().skip(read as int) == marks.skip(read - 1),
                total.0 == composing(first, marks.skip(read - 1), previous).0,
                total.1 == self.at_hand().subrange(1, write as int) + composing(
                    first,
                    marks.skip(read - 1),
                    previous,
                ).1,
            decreases self.pending@.len() - read,
        {
            let scalar: Scalar = self.pending[read];
            let value: char = scalar.value;
            proof {
                assert(value == self.at_hand().skip(read as int)[0]);
                assert(marks.skip(read - 1).drop_first() =~= marks.skip(read as int));
                assert(self.at_hand().skip(read + 1) =~= self.at_hand().skip(
                    read as int,
                ).drop_first());
            }
            let ghost before = self.at_hand();
            let current: u8 = class(value);
            let joined: Option<char> = if previous == 0 || previous < current {
                compose(first, value)
            } else {
                None
            };
            match joined {
                Some(joined) => {
                    first = joined;
                },
                None => {
                    self.pending[write] = scalar;
                    proof {
                        assert(self.at_hand() =~= before.update(write as int, value));
                        assert(self.at_hand().subrange(1, write + 1) =~= before.subrange(
                            1,
                            write as int,
                        ).push(value));
                        assert(self.at_hand().skip(read + 1) =~= before.skip(read + 1));
                        let rest = composing(first, marks.skip(read as int), current).1;
                        assert(before.subrange(1, write as int) + (seq![value] + rest)
                            =~= before.subrange(1, write as int).push(value) + rest);
                    }
                    write += 1;
                    previous = current;
                },
            }
            read += 1;
        }
        assert(marks.skip(read - 1).len() == 0);
        let order: u32 = self.pending[0].order;
        self.pending[0] = Scalar { value: first, order };
        self.pending.truncate(write);
        assert(self.at_hand() =~= seq![first] + total.1);
    }

    /// Hands over the sequence at hand.
    #[verifier::loop_isolation(false)]
    fn emit<R: Receiver>(&mut self, receiver: &mut R, budget: &mut MemoryBudget) -> (result: Result<
        (),
    >)
        requires
            old(receiver).wf(),
        ensures
            final(self).parts() == old(self).parts(),
            final(self).held == old(self).held,
            final(self).given == old(self).given,
            final(receiver).bound() == old(receiver).bound(),
            result is Ok ==> paid((*old(receiver), old(budget)@), (*final(receiver), final(budget)@)),
            match result {
                Ok(_) => final(receiver).wf() && final(receiver).received() == old(receiver).received() + old(self).at_hand() && final(self).pending@.len() == 0,
                Err(error) => R::fails_on(
                    old(receiver).bound(),
                    old(receiver).received() + old(self).at_hand(),
                    error,
                ),
            },
    {
        let ghost whole = self.at_hand();
        let ghost base = receiver.received();
        let mut index: usize = 0;
        assert(base =~= base + whole.take(0));
        while index < self.pending.len()
            invariant
                index <= self.pending@.len(),
                *self == *old(self),
                receiver.wf(),
                paid((*old(receiver), old(budget)@), (*receiver, budget@)),
                receiver.received() == base + whole.take(index as int),
                receiver.bound() == old(receiver).bound(),
            decreases self.pending@.len() - index,
        {
            let value: char = self.pending[index].value;
            proof {
                assert(whole[index as int] == value);
                assert((base + whole.take(index as int)).push(value) =~= base + whole.take(
                    index + 1,
                ));
            }
            match receiver.receive(value, budget) {
                Ok(_) => {},
                Err(error) => {
                    proof {
                        R::fails_later(
                            old(receiver).bound(),
                            base + whole.take(index + 1),
                            whole.skip(index + 1),
                            error,
                        );
                        assert(base + whole.take(index + 1) + whole.skip(index + 1) =~= base
                            + whole);
                    }
                    return Err(error);
                },
            }
            index += 1;
        }
        assert(whole.take(index as int) =~= whole);
        self.pending.clear();
        Ok(())
    }

    /// Takes one decomposed character.
    fn decomposed<R: Receiver>(
        &mut self,
        value: char,
        receiver: &mut R,
        budget: &mut MemoryBudget,
    ) -> (result: Result<()>)
        requires
            old(self).wf(),
            old(receiver).wf(),
        ensures
            final(receiver).bound() == old(receiver).bound(),
            final(self).given() == old(self).given(),
            result is Ok ==> settled_up(
                (*old(self), *old(receiver), old(budget)@),
                (*final(self), *final(receiver), final(budget)@),
            ),
            match result {
                Ok(_) => {
                    &&& final(self).wf()
                    &&& final(self).parts() == old(self).parts().push(value)
                    &&& final(receiver).wf()
                    &&& final(receiver).received() == old(receiver).received() + one_taken(
                        taken(old(self).parts()).0,
                        value,
                    ).1
                },
                Err(error) => overlong(
                    old(self).given(),
                    old(self).parts().push(value),
                    error,
                ) || R::fails_on(
                    old(receiver).bound(),
                    old(receiver).received() + one_taken(taken(old(self).parts()).0, value).1,
                    error,
                ),
            },
    {
        let ghost before = self.at_hand();
        let ghost base = receiver.received();
        let ghost parts = self.parts();
        assert(parts.push(value).drop_last() =~= parts);
        assert(base =~= base + Seq::<char>::empty());
        proof {
            pending_short(parts);
            assert(self.at_hand().len() == self.pending@.len());
        }
        if class(value) == 0 && self.pending.len() > 0 {
            self.compose();
            if self.pending.len() == 1 && class(self.pending[0].value) == 0 {
                assert(self.at_hand()[0] == self.pending@[0].value);
                if let Some(joined) = compose(self.pending[0].value, value) {
                    let order: u32 = self.pending[0].order;
                    self.pending[0] = Scalar { value: joined, order };
                    self.parts = Ghost(parts.push(value));
                    assert(self.at_hand() =~= seq![joined]);
                    return Ok(());
                }
            }
            self.emit(receiver, budget)?;
            assert(self.at_hand().push(value) =~= seq![value]);
        }
        if self.pending.len() as u64 > u32::MAX as u64 {
            return Err(Error::Limit("combining sequence"));
        }
        let order: u32 = self.pending.len() as u32;
        let ghost held = self.held;
        if self.given {
            if order == u32::MAX {
                return Err(Error::Limit("element count"));
            }
        } else {
            reserve_held(&mut self.pending, &mut self.held, 1, u32::MAX as usize, budget)?;
            proof {
                let size = vstd::layout::size_of::<Scalar>();
                assert(held * size + (self.held - held) * size == self.held * size)
                    by (nonlinear_arith);
            }
        }
        let ghost now = self.pending@;
        self.pending.push(Scalar { value, order });
        self.parts = Ghost(parts.push(value));
        assert(self.at_hand() =~= values_of(now).push(value));
        Ok(())
    }

    /// Takes one character; what is complete before it is handed over.
    #[verifier::loop_isolation(false)]
    fn push<R: Receiver>(&mut self, value: char, receiver: &mut R, budget: &mut MemoryBudget) -> (result:
        Result<()>)
        requires
            old(self).wf(),
            old(receiver).wf(),
        ensures
            final(receiver).bound() == old(receiver).bound(),
            final(self).given() == old(self).given(),
            result is Ok ==> settled_up(
                (*old(self), *old(receiver), old(budget)@),
                (*final(self), *final(receiver), final(budget)@),
            ),
            ({
                let parts = old(self).parts() + canonical_decomposition(value);
                let more = taken(parts).1.skip(taken(old(self).parts()).1.len() as int);
                match result {
                    Ok(_) => {
                        &&& final(self).wf()
                        &&& final(self).parts() == parts
                        &&& final(receiver).wf()
                        &&& final(receiver).received() == old(receiver).received() + more
                    },
                    Err(error) => overlong(old(self).given(), parts, error) || R::fails_on(
                        old(receiver).bound(),
                        old(receiver).received() + more,
                        error,
                    ),
                }
            }),
    {
        let list: Vec<char> = decompose(value);
        let ghost parts = self.parts();
        let ghost base = receiver.received();
        let ghost done = taken(parts).1;
        let ghost count = done.len() as int;
        let mut index: usize = 0;
        proof {
            assert(parts + list@.take(0) =~= parts);
            assert(base =~= base + done.skip(count));
        }
        while index < list.len()
            invariant
                index <= list@.len(),
                self.wf(),
                receiver.wf(),
                self.parts() == parts + list@.take(index as int),
                done.is_prefix_of(taken(self.parts()).1),
                receiver.received() == base + taken(self.parts()).1.skip(count),
                receiver.bound() == old(receiver).bound(),
                self.given() == old(self).given(),
                settled_up(
                    (*old(self), *old(receiver), old(budget)@),
                    (*self, *receiver, budget@),
                ),
            decreases list@.len() - index,
        {
            let part: char = list[index];
            let ghost now = self.parts();
            let ghost later = parts + list@.take(index + 1);
            let ghost whole = parts + list@;
            let ghost more = one_taken(taken(now).0, part).1;
            proof {
                assert(later =~= now.push(part));
                assert(later.drop_last() =~= now);
                assert(taken(later).1 == taken(now).1 + more);
                assert(taken(later).1.skip(count) =~= taken(now).1.skip(count) + more);
                assert(base + taken(now).1.skip(count) + more =~= base + taken(later).1.skip(
                    count,
                ));
            }
            match self.decomposed(part, receiver, budget) {
                Ok(_) => {},
                Err(error) => {
                    proof {
                        let rest = list@.skip(index + 1);
                        assert(later + rest =~= whole);
                        done_grows(later, rest);
                        let ends = taken(whole).1.skip(taken(later).1.len() as int);
                        if !overlong(old(self).given(), later, error) {
                            R::fails_later(
                            old(receiver).bound(),
                                base + taken(later).1.skip(count),
                                ends,
                                error,
                            );
                            assert(base + taken(later).1.skip(count) + ends =~= base + taken(
                                whole,
                            ).1.skip(count));
                        }
                    }
                    return Err(error);
                },
            }
            index += 1;
        }
        assert(list@.take(index as int) =~= list@);
        Ok(())
    }

    /// Hands over what is left.
    fn finish<R: Receiver>(&mut self, receiver: &mut R, budget: &mut MemoryBudget) -> (result: Result<
        (),
    >)
        requires
            old(self).wf(),
            old(receiver).wf(),
        ensures
            final(receiver).bound() == old(receiver).bound(),
            result is Ok ==> settled_up(
                (*old(self), *old(receiver), old(budget)@),
                (*final(self), *final(receiver), final(budget)@),
            ),
            ({
                let more = composed(taken(old(self).parts()).0);
                match result {
                    Ok(_) => final(receiver).wf() && final(receiver).received() == old(receiver).received() + more,
                    Err(error) => R::fails_on(
                        old(receiver).bound(),
                        old(receiver).received() + more,
                        error,
                    ),
                }
            }),
    {
        self.compose();
        self.emit(receiver, budget)
    }

    /// Frees the state and releases what it was charged for.
    fn release(self, budget: &mut MemoryBudget)
        requires
            self.charged() <= old(budget)@.used,
        ensures
            final(budget)@ == old(budget)@.released(self.charged() as nat),
            final(budget)@.wf(),
    {
        let charged: usize = budget.used();
        assert(self.charged() <= charged);
        let released: Result<()> = give_back::<Scalar>(self.held, budget);
        assert(released is Ok);
    }
}

/// Whether no charge of a state and its receiver was lost.
spec fn settled_up<R: Receiver>(before: (Nfc, R, Account), after: (Nfc, R, Account)) -> bool {
    after.2.used - after.0.charged() - after.1.charged() >= before.2.used - before.0.charged()
        - before.1.charged()
}

/// The encoding of one more character is appended.
proof fn encoding_grows(values: Seq<char>, value: char)
    ensures
        encode_utf8(values.push(value)) == encode_utf8(values) + encode_scalar(value as u32),
    decreases values.len(),
{
    if values.len() == 0 {
        let one = values.push(value);
        assert(one.drop_first() =~= Seq::<char>::empty());
        reveal_with_fuel(encode_utf8, 2);
        assert(encode_utf8(one) =~= encode_utf8(values) + encode_scalar(value as u32));
    } else {
        encoding_grows(values.drop_first(), value);
        assert(values.push(value).drop_first() =~= values.drop_first().push(value));
        assert(encode_utf8(values.push(value)) =~= encode_utf8(values) + encode_scalar(
            value as u32,
        ));
    }
}

/// More characters take no less room.
proof fn encoding_longer(values: Seq<char>, more: Seq<char>)
    ensures
        encode_utf8(values).len() <= encode_utf8(values + more).len(),
    decreases more.len(),
{
    if more.len() > 0 {
        encoding_longer(values, more.drop_last());
        encoding_grows(values + more.drop_last(), more.last());
        assert(values + more =~= (values + more.drop_last()).push(more.last()));
    } else {
        assert(values + more =~= values);
    }
}

/// Collects characters.
struct Collected {
    values: Vec<char>,
}

impl Receiver for Collected {
    closed spec fn wf(&self) -> bool {
        true
    }

    closed spec fn received(&self) -> Seq<char> {
        self.values@
    }

    closed spec fn bound(&self) -> (usize, bool) {
        (0, true)
    }

    closed spec fn charged(&self) -> int {
        0
    }

    closed spec fn fails_on(bound: (usize, bool), all: Seq<char>, error: Error) -> bool {
        false
    }

    proof fn fails_later(bound: (usize, bool), all: Seq<char>, more: Seq<char>, error: Error) {
    }

    fn receive(&mut self, value: char, budget: &mut MemoryBudget) -> (result: Result<()>) {
        self.values.push(value);
        Ok(())
    }
}

/// Collects encoded characters within a limit.
struct Output {
    bytes: Vec<u8>,
    held: usize,
    given: bool,
    limit: usize,
    values: Ghost<Seq<char>>,
}

impl Receiver for Output {
    closed spec fn wf(&self) -> bool {
        &&& self.bytes@ == encode_utf8(self.values@)
        &&& self.bytes@.len() <= self.limit
        &&& !self.given ==> self.bytes@.len() <= self.held
    }

    closed spec fn received(&self) -> Seq<char> {
        self.values@
    }

    closed spec fn bound(&self) -> (usize, bool) {
        (self.limit, self.given)
    }

    closed spec fn charged(&self) -> int {
        0
    }

    closed spec fn fails_on(bound: (usize, bool), all: Seq<char>, error: Error) -> bool {
        (!bound.1 && out_of_memory(error)) || (error == Error::Limit("element count") && (
        encode_utf8(all).len() > bound.0 || encode_utf8(all).len() > usize::MAX))
    }

    proof fn fails_later(bound: (usize, bool), all: Seq<char>, more: Seq<char>, error: Error) {
        encoding_longer(all, more);
    }

    fn receive(&mut self, value: char, budget: &mut MemoryBudget) -> (result: Result<()>) {
        let (code, length): ([u8; 4], usize) = encoded(value);
        proof {
            encoding_grows(self.values@, value);
        }
        if self.given {
            if length > self.limit - self.bytes.len() {
                return Err(Error::Limit("element count"));
            }
        } else {
            reserve_held(&mut self.bytes, &mut self.held, length, self.limit, budget)?;
            proof {
                let size = vstd::layout::size_of::<u8>();
                let more = self.held - old(self).held;
                assert(more * size >= 0) by (nonlinear_arith)
                    requires
                        more >= 0,
                ;
            }
        }
        let ghost before = self.bytes@;
        let mut index: usize = 0;
        assert(before =~= before + code@.take(0));
        while index < length
            invariant
                index <= length <= 4,
                self.limit == old(self).limit,
                self.given == old(self).given,
                !self.given ==> before.len() + length <= self.held,
                self.values == old(self).values,
                self.bytes@ == before + code@.take(index as int),
            decreases length - index,
        {
            self.bytes.push(code[index]);
            assert(before + code@.take(index + 1) =~= (before + code@.take(index as int)).push(
                code@[index as int],
            ));
            index += 1;
        }
        self.values = Ghost(self.values@.push(value));
        Ok(())
    }
}

/// Folds characters and composes them again.
struct Folding {
    second: Nfc,
    output: Output,
    values: Ghost<Seq<char>>,
}

impl Receiver for Folding {
    closed spec fn wf(&self) -> bool {
        &&& self.second.wf()
        &&& self.output.wf()
        &&& foldable(self.values@)
        &&& self.second.parts() == decompositions(folded(self.values@))
        &&& self.second.given() == self.output.given
        &&& self.output.received() == taken(self.second.parts()).1
    }

    closed spec fn received(&self) -> Seq<char> {
        self.values@
    }

    closed spec fn bound(&self) -> (usize, bool) {
        (self.output.limit, self.second.given())
    }

    closed spec fn charged(&self) -> int {
        self.second.charged()
    }

    closed spec fn fails_on(bound: (usize, bool), all: Seq<char>, error: Error) -> bool {
        ||| overlong(bound.1, decompositions(folded(all)), error)
        ||| error == Error::InvalidProfile && !foldable(all)
        ||| foldable(all) && Output::fails_on(
            bound,
            taken(decompositions(folded(all))).1,
            error,
        )
        ||| !foldable(all) && error == Error::Limit("element count")
    }

    proof fn fails_later(bound: (usize, bool), all: Seq<char>, more: Seq<char>, error: Error) {
        let whole = all + more;
        assert forall|i: int| 0 <= i < all.len() implies whole[i] == #[trigger] all[i] by {}
        decompositions_grow(folded(all), folded(more));
        assert(folded(whole) =~= folded(all) + folded(more));
        let parts = decompositions(folded(all));
        if foldable(whole) {
            assert forall|i: int| 0 <= i < all.len() implies folded_char(
                #[trigger] all[i],
            ) is Some by {
                assert(folded_char(whole[i]) is Some);
            }
            if !overlong(bound.1, parts, error) {
                let first = taken(decompositions(folded(all))).1;
                let last = taken(decompositions(folded(whole))).1;
                let others = decompositions(folded(whole)).skip(parts.len() as int);
                assert(parts + others =~= decompositions(folded(whole)));
                done_grows(parts, others);
                assert(last =~= first + last.skip(first.len() as int));
                Output::fails_later(bound, first, last.skip(first.len() as int), error);
            }
        } else if foldable(all) {
            if Output::fails_on(
            bound,
            taken(decompositions(folded(all))).1,
            error,
        ) {
                assert(overlong(bound.1, parts, error) || error == Error::Limit("element count"));
            }
        }
    }

    fn receive(&mut self, value: char, budget: &mut MemoryBudget) -> (result: Result<()>) {
        let ghost all = self.values@.push(value);
        proof {
            if folded_char(value) is None {
                assert(folded_char(all[all.len() - 1]) is None);
            } else {
                assert(foldable(all)) by {
                    assert forall|i: int| 0 <= i < all.len() implies folded_char(
                        #[trigger] all[i],
                    ) is Some by {
                        if i < self.values@.len() {
                            assert(folded_char(self.values@[i]) is Some);
                        }
                    }
                }
                let next = folded_char(value)->Some_0;
                assert(folded(all) =~= folded(self.values@).push(next));
                assert(folded(all).drop_last() =~= folded(self.values@));
                assert(decompositions(folded(all)) == self.second.parts()
                    + canonical_decomposition(next));
                done_grows(self.second.parts(), canonical_decomposition(next));
                let first = taken(self.second.parts()).1;
                let last = taken(decompositions(folded(all))).1;
                assert(last =~= first + last.skip(first.len() as int));
            }
        }
        let next: char = fold(value)?;
        self.second.push(next, &mut self.output, budget)?;
        self.values = Ghost(all);
        Ok(())
    }
}

/// The decompositions of more characters come behind.
proof fn decompositions_grow(values: Seq<char>, more: Seq<char>)
    ensures
        decompositions(values).is_prefix_of(decompositions(values + more)),
    decreases more.len(),
{
    if more.len() > 0 {
        decompositions_grow(values, more.drop_last());
        assert((values + more).drop_last() =~= values + more.drop_last());
    } else {
        assert(values + more =~= values);
    }
}

/// What one more character of a text adds: its decomposition, characters that
/// are settled behind those before, and all of them in front of the rest.
#[verifier::rlimit(40)]
#[verifier::spinoff_prover]
proof fn one_more(all: Seq<char>, index: int)
    requires
        0 <= index < all.len(),
    ensures
        ({
            let now = decompositions(all.take(index));
            let later = decompositions(all.take(index + 1));
            let first = taken(now).1;
            let last = taken(later).1;
            &&& later == now + canonical_decomposition(all[index])
            &&& last == first + last.skip(first.len() as int)
            &&& nfc(all) == last + nfc(all).skip(last.len() as int)
            &&& decompositions(all) == later + decompositions(all).skip(later.len() as int)
            &&& all.skip(index).drop_first() == all.skip(index + 1)
        }),
{
    assert(all.take(index + 1).drop_last() =~= all.take(index));
    let now = decompositions(all.take(index));
    let later = decompositions(all.take(index + 1));
    done_grows(now, canonical_decomposition(all[index]));
    let first = taken(now).1;
    let last = taken(later).1;
    assert(last =~= first + last.skip(first.len() as int));
    decompositions_grow(all.take(index + 1), all.skip(index + 1));
    assert(all.take(index + 1) + all.skip(index + 1) =~= all);
    let whole = decompositions(all);
    let rest = whole.skip(later.len() as int);
    assert(whole =~= later + rest);
    done_grows(later, rest);
    assert(nfc(all) =~= last + nfc(all).skip(last.len() as int));
    assert(all.skip(index).drop_first() =~= all.skip(index + 1));
}

/// Feeds a whole text to a composition.
#[verifier::loop_isolation(false)]
fn feed<R: Receiver>(
    text: &str,
    state: &mut Nfc,
    receiver: &mut R,
    budget: &mut MemoryBudget,
) -> (result: Result<()>)
    requires
        old(state).wf(),
        old(state).parts().len() == 0,
        old(receiver).wf(),
        old(receiver).received().len() == 0,
    ensures
        match result {
            Ok(_) => final(receiver).wf() && final(receiver).received() == nfc(text@),
            Err(error) => (text@.len() > 0 && overlong(
                old(state).given(),
                decompositions(text@),
                error,
            )) || R::fails_on(old(receiver).bound(), nfc(text@), error),
        },
        result is Ok ==> settled_up(
            (*old(state), *old(receiver), old(budget)@),
            (*final(state), *final(receiver), final(budget)@),
        ),
        final(receiver).bound() == old(receiver).bound(),
{
    let ghost all = text@;
    let ghost mut index: int = 0;
    let mut chars: core::str::Chars<'_> = text.chars();
    proof {
        assert(all.take(0) =~= Seq::<char>::empty());
        assert(state.parts() =~= decompositions(all.take(0)));
        assert(receiver.received() =~= Seq::<char>::empty());
        assert(chars.remaining() == all);
        assert(all.skip(0) =~= all);
    }
    loop
        invariant
            0 <= index <= all.len(),
            chars.remaining() == all.skip(index),
            state.wf(),
            receiver.wf(),
            state.parts() == decompositions(all.take(index)),
            receiver.received() == taken(state.parts()).1,
            receiver.bound() == old(receiver).bound(),
            state.given() == old(state).given(),
            settled_up(
                (*old(state), *old(receiver), old(budget)@),
                (*state, *receiver, budget@),
            ),
        decreases all.len() - index,
    {
        match chars.next() {
            None => {
                assert(all.take(index) =~= all);
                break ;
            },
            Some(value) => {
                proof {
                    assert(value == all[index]);
                    one_more(all, index);
                }
                let ghost first = taken(decompositions(all.take(index + 1))).1;
                match state.push(value, receiver, budget) {
                    Ok(_) => {},
                    Err(error) => {
                        proof {
                            if !overlong(
                                old(state).given(),
                                decompositions(all.take(index + 1)),
                                error,
                            ) {
                                R::fails_later(
                            old(receiver).bound(),
                                    first,
                                    nfc(all).skip(first.len() as int),
                                    error,
                                );
                            }
                        }
                        return Err(error);
                    },
                }
                proof {
                    index = index + 1;
                }
            },
        }
    }
    state.finish(receiver, budget)
}

/// Composes a text.
pub fn compose_text(text: &str, budget: &mut MemoryBudget) -> (result: Result<Vec<char>>)
    ensures
        match result {
            Ok(values) => values@ == nfc(text@),
            Err(error) => text@.len() > 0 && overlong(false, decompositions(text@), error),
        },
{
    let mut state: Nfc = Nfc::new();
    let mut receiver: Collected = Collected { values: Vec::new() };
    feed(text, &mut state, &mut receiver, budget)?;
    state.release(budget);
    Ok(receiver.values)
}

/// Composes a text in memory that was given for the sequence at hand and for the
/// characters.
pub fn compose_text_in(text: &str, pending: Vec<Scalar>, values: Vec<char>) -> (result: Result<Vec<char>>)
    requires
        pending@.len() == 0,
        values@.len() == 0,
    ensures
        match result {
            Ok(values) => values@ == nfc(text@),
            Err(error) => overlong(true, decompositions(text@), error),
        },
{
    let mut state: Nfc = Nfc::new_in(pending);
    let mut receiver: Collected = Collected { values };
    let mut budget: MemoryBudget = MemoryBudget::new(0);
    feed(text, &mut state, &mut receiver, &mut budget)?;
    Ok(receiver.values)
}

/// Lower-cases ASCII bytes.
#[verifier::loop_isolation(false)]
fn lower(bytes: &mut Vec<u8>, source: &[u8])
    requires
        old(bytes)@.len() == 0,
    ensures
        final(bytes)@ == source@.map_values(|byte: u8| ascii_lower(byte)),
{
    let ghost all = source@.map_values(|byte: u8| ascii_lower(byte));
    let mut index: usize = 0;
    while index < source.len()
        invariant
            index <= source@.len(),
            bytes@ == all.take(index as int),
        decreases source@.len() - index,
    {
        let byte: u8 = source[index];
        bytes.push(
            if 65 <= byte && byte <= 90 {
                byte + 32
            } else {
                byte
            },
        );
        assert(bytes@ =~= all.take(index + 1));
        index += 1;
    }
    assert(all.take(index as int) =~= all);
}

/// Lower-cased ASCII is ASCII: the encoding of its characters.
proof fn lowered_encoding(text: Seq<char>)
    requires
        is_ascii_chars(text),
    ensures
        ({
            let bytes = encode_utf8(text).map_values(|byte: u8| ascii_lower(byte));
            let values = Seq::new(bytes.len(), |i: int| bytes[i] as char);
            encode_utf8(values) == bytes
        }),
{
    is_ascii_chars_encode_utf8(text);
    let bytes = encode_utf8(text).map_values(|byte: u8| ascii_lower(byte));
    let values = Seq::new(bytes.len(), |i: int| bytes[i] as char);
    assert forall|i: int| 0 <= i < values.len() implies '\0' <= #[trigger] values[i] <= '\u{7f}' by {
        assert(text[i] as u8 == encode_utf8(text)[i]);
    }
    is_ascii_chars_encode_utf8(values);
    assert(encode_utf8(values) =~= bytes);
}

/// Why a text has no normalized form within the limit.
pub open spec fn profile_error(text: Seq<char>, limit: usize, given: bool, error: Error) -> bool {
    if is_ascii_chars(text) {
        ||| !given && out_of_memory(error) && text.len() > 0
        ||| error == Error::Limit("normalized bytes") && text.len() > limit
    } else {
        ||| overlong(given, decompositions(text), error)
        ||| overlong(given, decompositions(folded(nfc(text))), error)
        ||| error == Error::InvalidProfile && profiled(text) is None
        ||| error == Error::Limit("element count") && (profiled(text) matches Some(bytes)
            ==> bytes.len() > limit || bytes.len() > usize::MAX)
    }
}

/// Normalizes a text, and reports the most memory that was charged at a time.
pub(crate) fn profile_text(text: &str, limit: usize, budget: &mut MemoryBudget) -> (result: Result<
    (String, usize),
>)
    ensures
        match result {
            Ok((normalized, peak)) => {
                &&& profiled(text@) == Some(encode_utf8(normalized@))
                &&& encode_utf8(normalized@).len() <= limit
            },
            Err(error) => profile_error(text@, limit, false, error),
        },
{
    let source: &[u8] = text.as_bytes();
    let wanted: usize = if source.len() < limit {
        source.len()
    } else {
        limit
    };
    let mut bytes: Vec<u8> = Vec::new();
    let mut held: usize = 0;
    proof {
        if is_ascii_chars(text@) {
            is_ascii_chars_encode_utf8(text@);
        }
    }
    reserve_held(&mut bytes, &mut held, wanted, limit, budget)?;
    if text.is_ascii() {
        let normalized: String = lowered(text, limit, bytes)?;
        return Ok((normalized, budget.used()));
    }
    let output: Output = Output { bytes, held, given: false, limit, values: Ghost(Seq::empty()) };
    let ghost kept = budget@.used;
    let (output, first, second): (Output, Nfc, Nfc) = normalize(
        text,
        Nfc::new(),
        Nfc::new(),
        output,
        budget,
    )?;
    let peak: usize = budget.used();
    first.release(budget);
    second.release(budget);
    match string_from_utf8(output.bytes) {
        Some(normalized) => Ok((normalized, peak)),
        None => Err(Error::InvalidDocument),
    }
}

/// Normalizes a text in memory that was given for its bytes and for the sequences
/// at hand of both compositions.
pub(crate) fn profile_text_in(
    text: &str,
    limit: usize,
    bytes: Vec<u8>,
    pending: Vec<Scalar>,
    folding: Vec<Scalar>,
) -> (result: Result<String>)
    requires
        bytes@.len() == 0,
        pending@.len() == 0,
        folding@.len() == 0,
    ensures
        match result {
            Ok(normalized) => {
                &&& profiled(text@) == Some(encode_utf8(normalized@))
                &&& encode_utf8(normalized@).len() <= limit
            },
            Err(error) => profile_error(text@, limit, true, error),
        },
{
    if text.is_ascii() {
        return lowered(text, limit, bytes);
    }
    let output: Output = Output { bytes, held: 0, given: true, limit, values: Ghost(Seq::empty()) };
    assert(output.bytes@ =~= encode_utf8(output.values@));
    let mut budget: MemoryBudget = MemoryBudget::new(0);
    let (output, _, _): (Output, Nfc, Nfc) = normalize(
        text,
        Nfc::new_in(pending),
        Nfc::new_in(folding),
        output,
        &mut budget,
    )?;
    match string_from_utf8(output.bytes) {
        Some(normalized) => Ok(normalized),
        None => Err(Error::InvalidDocument),
    }
}

/// Lower-cases an ASCII text.
fn lowered(text: &str, limit: usize, bytes: Vec<u8>) -> (result: Result<String>)
    requires
        is_ascii_chars(text@),
        bytes@.len() == 0,
    ensures
        if text@.len() > limit {
            result matches Err(error) && error == Error::Limit("normalized bytes")
        } else {
            result matches Ok(normalized) && profiled(text@) == Some(encode_utf8(normalized@))
                && encode_utf8(normalized@).len() <= limit
        },
{
    let source: &[u8] = text.as_bytes();
    let mut bytes: Vec<u8> = bytes;
    proof {
        is_ascii_chars_encode_utf8(text@);
    }
    if source.len() > limit {
        return Err(Error::Limit("normalized bytes"));
    }
    lower(&mut bytes, source);
    proof {
        lowered_encoding(text@);
        let values = Seq::new(bytes@.len(), |i: int| bytes@[i] as char);
        encode_utf8_valid_utf8(values);
    }
    match string_from_utf8(bytes) {
        Some(normalized) => Ok(normalized),
        None => Err(Error::InvalidDocument),
    }
}

/// Composes, folds and composes a text that is not ASCII.
fn normalize(
    text: &str,
    mut first: Nfc,
    second: Nfc,
    output: Output,
    budget: &mut MemoryBudget,
) -> (result: Result<(Output, Nfc, Nfc)>)
    requires
        !is_ascii_chars(text@),
        first.wf(),
        first.parts().len() == 0,
        first.charged() == 0,
        second.wf(),
        second.parts().len() == 0,
        second.charged() == 0,
        first.given() == output.given,
        second.given() == output.given,
        output.wf(),
        output.received().len() == 0,
    ensures
        match result {
            Ok((done, one, two)) => {
                &&& profiled(text@) == Some(done.bytes@)
                &&& done.bytes@ == encode_utf8(done.values@)
                &&& valid_utf8(done.bytes@)
                &&& done.bytes@.len() <= output.limit
                &&& one.charged() >= 0 && two.charged() >= 0
                &&& one.charged() + two.charged() + old(budget)@.used <= final(budget)@.used
            },
            Err(error) => profile_error(text@, output.limit, output.given, error),
        },
{
    let ghost limit = output.limit;
    let mut receiver: Folding = Folding { second, output, values: Ghost(Seq::empty()) };
    proof {
        assert(folded(receiver.values@) =~= Seq::<char>::empty());
        assert(receiver.second.parts() =~= decompositions(folded(receiver.values@)));
        assert(receiver.output.received() =~= Seq::<char>::empty());
        assert(taken(receiver.second.parts()).1 =~= Seq::<char>::empty());
        assert(receiver.wf());
        let (pending, done) = taken(decompositions(folded(nfc(text@))));
        encoding_longer(done, composed(pending));
    }
    feed(text, &mut first, &mut receiver, budget)?;
    let Folding { mut second, mut output, values } = receiver;
    second.finish(&mut output, budget)?;
    proof {
        encode_utf8_valid_utf8(output.values@);
        let size = vstd::layout::size_of::<Scalar>();
        assert(first.held * size >= 0) by (nonlinear_arith);
        assert(second.held * size >= 0) by (nonlinear_arith);
    }
    Ok((output, first, second))
}

} // verus!
