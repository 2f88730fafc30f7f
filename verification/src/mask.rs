//! Bit masks as sets: word kernels, page masks and offset masks.

use vstd::prelude::*;
use vstd::std_specs::bits::{axiom_u64_trailing_zeros, u64_trailing_zeros};

verus! {

/// One bit for each heap page of a group.
pub type PageMask = [u64; 4];

/// One bit for each heap offset of a page; bit zero stands for offset one.
pub type OffsetMask = [u64; 8];

/// Whether bit `index` of a word is set.
pub open spec fn bit(word: u64, index: int) -> bool {
    (word >> (index as u64)) & 1u64 == 1u64
}

/// Whether bit `index` of a byte is set.
pub open spec fn byte_bit(byte: u8, index: int) -> bool {
    (byte >> (index as u8)) & 1u8 == 1u8
}

/// Whether a mask holds `index`.
pub open spec fn member(words: Seq<u64>, index: int) -> bool {
    0 <= index < 64 * words.len() && bit(words[index / 64], index % 64)
}

/// Whether the bits of a byte string, low bit first, hold `index`.
pub open spec fn byte_member(bytes: Seq<u8>, index: int) -> bool {
    0 <= index < 8 * bytes.len() && byte_bit(bytes[index / 8], index % 8)
}

/// The members from `from` on, in ascending order.
pub open spec fn members(words: Seq<u64>, from: int) -> Seq<int>
    decreases 64 * words.len() - from,
{
    if from >= 64 * words.len() {
        Seq::empty()
    } else if member(words, from) {
        seq![from] + members(words, from + 1)
    } else {
        members(words, from + 1)
    }
}

/// The number of members below `below`.
pub open spec fn count_below(words: Seq<u64>, below: int) -> nat
    decreases below,
{
    if below <= 0 {
        0
    } else {
        count_below(words, below - 1) + if member(words, below - 1) {
            1nat
        } else {
            0
        }
    }
}

/// The number of members.
pub open spec fn count(words: Seq<u64>) -> nat {
    count_below(words, 64 * words.len() as int)
}

/// Whether nothing is a member.
pub open spec fn is_empty(words: Seq<u64>) -> bool {
    forall|i: int| 0 <= i < words.len() ==> words[i] == 0
}

/// Two masks joined word by word.
pub open spec fn both(left: Seq<u64>, right: Seq<u64>) -> Seq<u64> {
    Seq::new(left.len(), |i: int| left[i] & right[i])
}

/// The union of two masks.
pub open spec fn either(left: Seq<u64>, right: Seq<u64>) -> Seq<u64> {
    Seq::new(left.len(), |i: int| left[i] | right[i])
}

/// What the left mask has and the right one has not.
pub open spec fn minus(left: Seq<u64>, right: Seq<u64>) -> Seq<u64> {
    Seq::new(left.len(), |i: int| left[i] & !right[i])
}

/// A mask of `len` words without members.
pub open spec fn none(len: nat) -> Seq<u64> {
    Seq::new(len, |i: int| 0u64)
}

pub proof fn bit_set(word: u64, index: u64, other: u64)
    requires
        index < 64,
        other < 64,
    ensures
        bit(word | (1u64 << index), other as int) == (other == index || bit(word, other as int)),
        bit(word & !(1u64 << index), other as int) == (other != index && bit(word, other as int)),
        (word & (1u64 << index) != 0) == bit(word, index as int),
{
    assert(index < 64 && other < 64 ==> {
        &&& (((word | (1u64 << index)) >> other) & 1u64 == 1u64) == (other == index || (word
            >> other) & 1u64 == 1u64)
        &&& (((word & !(1u64 << index)) >> other) & 1u64 == 1u64) == (other != index && (word
            >> other) & 1u64 == 1u64)
        &&& (word & (1u64 << index) != 0) == ((word >> index) & 1u64 == 1u64)
    }) by (bit_vector);
}

pub proof fn bit_logic(left: u64, right: u64, index: u64)
    requires
        index < 64,
    ensures
        bit(left & right, index as int) == (bit(left, index as int) && bit(right, index as int)),
        bit(left | right, index as int) == (bit(left, index as int) || bit(right, index as int)),
        bit(left & !right, index as int) == (bit(left, index as int) && !bit(right, index as int)),
        !bit(0, index as int),
{
    assert(index < 64 ==> {
        &&& (((left & right) >> index) & 1u64 == 1u64) == ((left >> index) & 1u64 == 1u64 && (right
            >> index) & 1u64 == 1u64)
        &&& (((left | right) >> index) & 1u64 == 1u64) == ((left >> index) & 1u64 == 1u64 || (right
            >> index) & 1u64 == 1u64)
        &&& (((left & !right) >> index) & 1u64 == 1u64) == ((left >> index) & 1u64 == 1u64 && !((
        right >> index) & 1u64 == 1u64))
        &&& !((0u64 >> index) & 1u64 == 1u64)
    }) by (bit_vector);
}

/// Words with the same bits are the same word.
pub proof fn words_equal(left: u64, right: u64)
    requires
        forall|i: int| 0 <= i < 64 ==> #[trigger] bit(left, i) == bit(right, i),
    ensures
        left == right,
{
    let difference = left ^ right;
    axiom_u64_trailing_zeros(difference);
    if difference != 0 {
        let index = u64_trailing_zeros(difference) as u64;
        assert(index < 64 && ((left ^ right) >> index) & 1u64 == 1u64 ==> ((left >> index) & 1u64
            == 1u64) != ((right >> index) & 1u64 == 1u64)) by (bit_vector);
        assert(bit(left, index as int) == bit(right, index as int));
    }
    assert(left ^ right == 0 ==> left == right) by (bit_vector);
}

/// A word without bits is zero.
pub proof fn word_empty(word: u64)
    ensures
        word == 0 <==> (forall|i: int| 0 <= i < 64 ==> !#[trigger] bit(word, i)),
{
    if word == 0 {
        assert forall|i: int| 0 <= i < 64 implies !#[trigger] bit(word, i) by {
            bit_logic(word, word, i as u64);
        }
    } else {
        axiom_u64_trailing_zeros(word);
        assert(bit(word, u64_trailing_zeros(word) as int));
    }
}

/// Masks with the same members are the same mask.
pub proof fn masks_equal(left: Seq<u64>, right: Seq<u64>)
    requires
        left.len() == right.len(),
        forall|i: int| 0 <= i < 64 * left.len() ==> member(left, i) == member(right, i),
    ensures
        left == right,
{
    assert forall|w: int| 0 <= w < left.len() implies left[w] == right[w] by {
        assert forall|i: int| 0 <= i < 64 implies #[trigger] bit(left[w], i) == bit(right[w], i) by {
            assert(member(left, 64 * w + i) == member(right, 64 * w + i));
            assert((64 * w + i) / 64 == w && (64 * w + i) % 64 == i);
        }
        words_equal(left[w], right[w]);
    }
    assert(left =~= right);
}

/// A mask is empty exactly when it has no members.
pub proof fn empty_mask(words: Seq<u64>)
    ensures
        is_empty(words) <==> (forall|i: int| 0 <= i < 64 * words.len() ==> !member(words, i)),
{
    if is_empty(words) {
        assert forall|i: int| 0 <= i < 64 * words.len() implies !member(words, i) by {
            word_empty(words[i / 64]);
        }
    }
    if forall|i: int| 0 <= i < 64 * words.len() ==> !member(words, i) {
        assert forall|w: int| 0 <= w < words.len() implies words[w] == 0 by {
            assert forall|i: int| 0 <= i < 64 implies !#[trigger] bit(words[w], i) by {
                assert(!member(words, 64 * w + i));
                assert((64 * w + i) / 64 == w && (64 * w + i) % 64 == i);
            }
            word_empty(words[w]);
        }
    }
}

/// How the word operations act on members.
pub proof fn mask_logic(left: Seq<u64>, right: Seq<u64>, index: int)
    requires
        left.len() == right.len(),
    ensures
        member(both(left, right), index) == (member(left, index) && member(right, index)),
        member(either(left, right), index) == (member(left, index) || member(right, index)),
        member(minus(left, right), index) == (member(left, index) && !member(right, index)),
        !member(none(left.len()), index),
{
    if 0 <= index < 64 * left.len() {
        bit_logic(left[index / 64], right[index / 64], (index % 64) as u64);
    }
}

/// The members from `from` on are those at or above it.
pub proof fn members_range(words: Seq<u64>, from: int)
    requires
        0 <= from,
    ensures
        forall|k: int|
            0 <= k < members(words, from).len() ==> from <= #[trigger] members(words, from)[k]
                && member(words, members(words, from)[k]),
        forall|i: int| from <= i && member(words, i) ==> members(words, from).contains(i),
        forall|j: int, k: int|
            0 <= j < k < members(words, from).len() ==> members(words, from)[j] < members(
                words,
                from,
            )[k],
    decreases 64 * words.len() - from,
{
    if from < 64 * words.len() {
        members_range(words, from + 1);
        let rest = members(words, from + 1);
        let all = members(words, from);
        assert forall|i: int| from <= i && member(words, i) implies all.contains(i) by {
            if i > from {
                assert(rest.contains(i));
                let k = choose|k: int| 0 <= k < rest.len() && rest[k] == i;
                if member(words, from) {
                    assert(all[k + 1] == i);
                } else {
                    assert(all[k] == i);
                }
            } else {
                assert(all[0] == i);
            }
        }
    }
}

/// Tests membership.
pub fn mask_has(words: &[u64], index: usize) -> (has: bool)
    requires
        index < 64 * words@.len(),
    ensures
        has == member(words@, index as int),
{
    let place: u64 = (index % 64) as u64;
    proof {
        bit_set(words@[(index / 64) as int], place, place);
    }
    words[index / 64] & (1u64 << place) != 0
}

/// A mask with one more member.
pub open spec fn with_member(words: Seq<u64>, index: int) -> Seq<u64> {
    words.update(index / 64, words[index / 64] | (1u64 << ((index % 64) as u64)))
}

/// What adding a member does to membership.
pub proof fn with_member_holds(words: Seq<u64>, index: int, other: int)
    requires
        0 <= index < 64 * words.len(),
    ensures
        member(with_member(words, index), other) == (other == index || member(words, other)),
{
    if 0 <= other < 64 * words.len() && other / 64 == index / 64 {
        bit_set(words[index / 64], (index % 64) as u64, (other % 64) as u64);
    }
}

/// Adds a member.
pub fn mask_insert(words: &mut [u64], index: usize)
    requires
        index < 64 * old(words)@.len(),
    ensures
        final(words)@ == with_member(old(words)@, index as int),
        final(words)@.len() == old(words)@.len(),
        forall|i: int|
            #![trigger member(final(words)@, i)]
            member(final(words)@, i) == (i == index || member(old(words)@, i)),
{
    let place: u64 = (index % 64) as u64;
    let word: usize = index / 64;
    words[word] = words[word] | (1u64 << place);
    proof {
        assert forall|i: int|
            #![trigger member(words@, i)]
            member(words@, i) == (i == index || member(old(words)@, i)) by {
            if 0 <= i < 64 * words@.len() && i / 64 == word {
                bit_set(old(words)@[word as int], place, (i % 64) as u64);
            }
        }
    }
}

/// Tests for emptiness.
pub fn mask_is_empty(words: &[u64]) -> (empty: bool)
    ensures
        empty == is_empty(words@),
{
    let mut i: usize = 0;
    while i < words.len()
        invariant
            i <= words@.len(),
            forall|j: int| 0 <= j < i ==> words@[j] == 0,
        decreases words@.len() - i,
    {
        if words[i] != 0 {
            return false;
        }
        i += 1;
    }
    true
}

/// Finds the first member at or after `from`.
pub fn mask_next(words: &[u64], from: usize) -> (next: Option<usize>)
    requires
        words@.len() <= 64,
        from <= 64 * words@.len(),
    ensures
        match next {
            None => members(words@, from as int).len() == 0,
            Some(index) => from <= index < 64 * words@.len() && member(words@, index as int)
                && members(words@, from as int) == seq![index as int] + members(
                words@,
                index + 1,
            ),
        },
{
    let mut at: usize = from;
    let total: usize = words.len() * 64;
    while at < total
        invariant
            total == 64 * words@.len(),
            words@.len() <= 64,
            from <= at <= total,
            members(words@, from as int) == members(words@, at as int),
        decreases total - at,
    {
        let place: u64 = (at % 64) as u64;
        let word: u64 = words[at / 64] >> place;
        let skip: u32 = word.trailing_zeros();
        proof {
            axiom_u64_trailing_zeros(word);
            let whole = words@[(at / 64) as int];
            assert forall|k: u64| k < 64 - place implies #[trigger] bit(word, k as int) == bit(
                whole,
                (place + k) as int,
            ) by {
                shifted_bit(whole, place, k);
            }
            if word == 0 {
                skip_members(words@, at as int, 64 - place as int);
            } else {
                shifted_small(whole, place, skip as u64);
                assert(bit(word, skip as u64 as int));
                assert((at + skip) / 64 == at / 64);
                assert((at + skip) % 64 == place + skip);
                assert(member(words@, at + skip));
                skip_members(words@, at as int, skip as int);
            }
        }
        if word == 0 {
            at = at + (64 - place as usize);
        } else {
            return Some(at + skip as usize);
        }
    }
    None
}

proof fn shifted_bit(word: u64, place: u64, index: u64)
    requires
        place < 64,
        index < 64 - place,
    ensures
        bit(word >> place, index as int) == bit(word, (place + index) as int),
{
    let sum = (place + index) as u64;
    assert(place < 64 && index < 64 && sum == place + index && sum < 64 ==> ((word >> place)
        >> index) & 1u64 == (word >> sum) & 1u64) by (bit_vector);
}

proof fn shifted_small(word: u64, place: u64, skip: u64)
    requires
        place < 64,
        skip < 64,
        ((word >> place) >> skip) & 1u64 == 1u64,
    ensures
        skip < 64 - place,
{
    assert(place < 64 && skip < 64 && ((word >> place) >> skip) & 1u64 == 1u64 ==> skip < 64 - place) by (bit_vector);
}

/// Stretches without members do not show in the list.
proof fn skip_members(words: Seq<u64>, from: int, len: int)
    requires
        0 <= from,
        0 <= len,
        from + len <= 64 * words.len(),
        forall|k: u64| k < len ==> !#[trigger] bit(words[from / 64] >> ((from % 64) as u64), k as int),
        from % 64 + len <= 64,
    ensures
        members(words, from) == members(words, from + len),
    decreases len,
{
    if len > 0 {
        let last = (len - 1) as u64;
        assert(!bit(words[from / 64] >> ((from % 64) as u64), last as int));
        shifted_bit(words[from / 64], (from % 64) as u64, last);
        assert((from + len - 1) / 64 == from / 64);
        assert((from + len - 1) % 64 == from % 64 + len - 1);
        assert(!member(words, from + len - 1));
        skip_members(words, from, len - 1);
    }
}

/// One above the highest member below `below`, or zero.
pub open spec fn top_below(words: Seq<u64>, below: int) -> int
    decreases below,
{
    if below <= 0 {
        0
    } else if member(words, below - 1) {
        below
    } else {
        top_below(words, below - 1)
    }
}

/// Finds one above the highest member, or zero.
pub fn mask_top(words: &[u64]) -> (top: usize)
    requires
        words@.len() <= 64,
    ensures
        top == top_below(words@, 64 * words@.len() as int),
        top <= 64 * words@.len(),
{
    let total: usize = words.len() * 64;
    let mut top: usize = total;
    while top > 0 && !mask_has(words, top - 1)
        invariant
            top <= total,
            total == 64 * words@.len(),
            top_below(words@, total as int) == top_below(words@, top as int),
        decreases top,
    {
        top -= 1;
    }
    top
}

/// Nothing at or above the top is a member, and the one below it is.
pub proof fn top_bounds(words: Seq<u64>, below: int)
    requires
        0 <= below,
    ensures
        0 <= top_below(words, below) <= below,
        forall|i: int| top_below(words, below) <= i < below ==> !member(words, i),
        top_below(words, below) > 0 ==> member(words, top_below(words, below) - 1),
    decreases below,
{
    if below > 0 && !member(words, below - 1) {
        top_bounds(words, below - 1);
    }
}

/// Counts members below a bound.
pub fn mask_count_below(words: &[u64], below: usize) -> (count: usize)
    requires
        below <= 64 * words@.len(),
        words@.len() <= 64,
    ensures
        count == count_below(words@, below as int),
        count <= below,
{
    let mut count: usize = 0;
    let mut i: usize = 0;
    while i < below
        invariant
            i <= below <= 64 * words@.len(),
            count <= i,
            count == count_below(words@, i as int),
        decreases below - i,
    {
        if mask_has(words, i) {
            count += 1;
        }
        i += 1;
    }
    count
}

/// The number of members is the length of their list.
pub proof fn count_members(words: Seq<u64>, from: int)
    requires
        0 <= from <= 64 * words.len(),
    ensures
        count(words) == count_below(words, from) + members(words, from).len(),
    decreases 64 * words.len() - from,
{
    if from < 64 * words.len() {
        count_members(words, from + 1);
    }
}

/// Counting further never counts less.
pub proof fn count_grows(words: Seq<u64>, low: int, high: int)
    requires
        0 <= low <= high,
    ensures
        count_below(words, low) <= count_below(words, high) <= count_below(words, low) + high - low,
        low < high && member(words, low) ==> count_below(words, low) < count_below(words, high),
    decreases high - low,
{
    if low < high {
        count_grows(words, low, high - 1);
    }
}

/// The pages of a mask, in ascending order.
pub struct Pages {
    mask: PageMask,
    next: usize,
}

impl View for Pages {
    type V = Seq<int>;

    /// The pages still to come.
    closed spec fn view(&self) -> Seq<int> {
        members(self.mask@, self.next as int)
    }
}

impl Pages {
    #[verifier::type_invariant]
    closed spec fn inv(self) -> bool {
        self.next <= 256
    }

    pub fn new(mask: PageMask) -> (pages: Self)
        ensures
            pages@ == members(mask@, 0),
    {
        Pages { mask, next: 0 }
    }

    /// Yields the next page.
    pub fn next(&mut self) -> (page: Option<u8>)
        ensures
            if old(self)@.len() == 0 {
                page is None && final(self)@ == old(self)@
            } else {
                page matches Some(number) && number == old(self)@[0] && final(self)@ == old(self)@.drop_first()
            },
    {
        proof {
            use_type_invariant(&*self);
        }
        match mask_next(&self.mask, self.next) {
            None => None,
            Some(index) => {
                self.next = index + 1;
                assert(self@ =~= old(self)@.drop_first());
                Some(index as u8)
            },
        }
    }
}

#[derive(Clone, Copy, Debug, Eq, PartialEq, Structural)]
pub enum BitmapOp {
    Intersection,
    Union,
    Difference,
}

/// The pages that may hold matches of a combination. A difference cannot drop
/// a page on the strength of a summary.
pub open spec fn candidate_pages(
    operation: BitmapOp,
    left: Seq<u64>,
    right: Seq<u64>,
    live: Seq<u64>,
) -> Seq<u64> {
    match operation {
        BitmapOp::Intersection => both(both(left, right), live),
        BitmapOp::Union => both(either(left, right), live),
        BitmapOp::Difference => both(left, live),
    }
}

/// The offsets that match a combination.
pub open spec fn matching_offsets(
    operation: BitmapOp,
    left: Seq<u64>,
    right: Seq<u64>,
    live: Seq<u64>,
) -> Seq<u64> {
    match operation {
        BitmapOp::Intersection => both(both(left, right), live),
        BitmapOp::Union => both(either(left, right), live),
        BitmapOp::Difference => both(minus(left, right), live),
    }
}

/// Combines page summaries.
pub fn candidates(operation: BitmapOp, left: &PageMask, right: &PageMask, live: &PageMask) -> (mask:
    PageMask)
    ensures
        mask@ == candidate_pages(operation, left@, right@, live@),
{
    let mut mask: PageMask = [0u64; 4];
    let mut i: usize = 0;
    while i < 4
        invariant
            i <= 4,
            forall|j: int|
                0 <= j < i ==> #[trigger] mask@[j] == candidate_pages(
                    operation,
                    left@,
                    right@,
                    live@,
                )[j],
        decreases 4 - i,
    {
        mask[i] = match operation {
            BitmapOp::Intersection => (left[i] & right[i]) & live[i],
            BitmapOp::Union => (left[i] | right[i]) & live[i],
            BitmapOp::Difference => left[i] & live[i],
        };
        i += 1;
    }
    assert(mask@ =~= candidate_pages(operation, left@, right@, live@));
    mask
}

/// Combines offset masks.
pub fn offsets(operation: BitmapOp, left: &OffsetMask, right: &OffsetMask, live: &OffsetMask) -> (
    mask: OffsetMask)
    ensures
        mask@ == matching_offsets(operation, left@, right@, live@),
{
    let mut mask: OffsetMask = [0u64; 8];
    let mut i: usize = 0;
    while i < 8
        invariant
            i <= 8,
            forall|j: int|
                0 <= j < i ==> #[trigger] mask@[j] == matching_offsets(
                    operation,
                    left@,
                    right@,
                    live@,
                )[j],
        decreases 8 - i,
    {
        mask[i] = match operation {
            BitmapOp::Intersection => (left[i] & right[i]) & live[i],
            BitmapOp::Union => (left[i] | right[i]) & live[i],
            BitmapOp::Difference => (left[i] & !right[i]) & live[i],
        };
        i += 1;
    }
    assert(mask@ =~= matching_offsets(operation, left@, right@, live@));
    mask
}

/// Whether a mask and a byte string hold the same bits.
pub open spec fn same_bits(words: Seq<u64>, bytes: Seq<u8>) -> bool {
    forall|i: int|
        #![trigger member(words, i)]
        0 <= i < 64 * words.len() ==> member(words, i) == byte_member(bytes, i)
}

proof fn byte_into_word(word: u64, byte: u8, place: u64, index: u64)
    requires
        place < 8,
        index < 64,
    ensures
        bit(word | ((byte as u64) << (8 * place) as u64), index as int) == (bit(word, index as int)
            || (8 * place <= index < 8 * place + 8 && byte_bit(byte, index - 8 * place))),
{
    let shift = (8 * place) as u64;
    let inner = if shift <= index && index < shift + 8 {
        (index - shift) as u8
    } else {
        0u8
    };
    assert(index < 64 && shift <= 56 && (shift <= index && index < shift + 8 ==> inner as u64
        == index - shift) ==> (((word | ((byte as u64) << shift)) >> index) & 1u64 == 1u64) == (
    ((word >> index) & 1u64 == 1u64) || (shift <= index && index < shift + 8 && (byte >> inner)
        & 1u8 == 1u8))) by (bit_vector);
}

/// Reads a mask from at most 64 bytes.
#[verifier::loop_isolation(false)]
pub fn mask_from_bytes(bytes: &[u8]) -> (mask: OffsetMask)
    requires
        bytes@.len() <= 64,
    ensures
        same_bits(mask@, bytes@),
{
    let mut mask: OffsetMask = [0u64; 8];
    let mut i: usize = 0;
    proof {
        assert forall|k: int|
            #![trigger member(mask@, k)]
            0 <= k < 512 implies !member(mask@, k) by {
            word_empty(mask@[k / 64]);
        }
    }
    while i < bytes.len()
        invariant
            i <= bytes@.len(),
            forall|k: int|
                #![trigger member(mask@, k)]
                0 <= k < 512 ==> member(mask@, k) == (k < 8 * i && byte_member(bytes@, k)),
        decreases bytes@.len() - i,
    {
        let ghost before = mask@;
        let place: u64 = (i % 8) as u64;
        let word: usize = i / 8;
        mask[word] = mask[word] | ((bytes[i] as u64) << (8 * place));
        proof {
            assert forall|k: int|
                #![trigger member(mask@, k)]
                0 <= k < 512 implies member(mask@, k) == (k < 8 * (i + 1) && byte_member(
                bytes@,
                k,
            )) by {
                assert(member(before, k) == (k < 8 * i && byte_member(bytes@, k)));
                if k / 64 == word {
                    byte_into_word(before[word as int], bytes@[i as int], place, (k % 64) as u64);
                    assert(8 * place <= k % 64 < 8 * place + 8 <==> 8 * i <= k < 8 * i + 8);
                    if 8 * i <= k < 8 * i + 8 {
                        assert(k / 8 == i && k % 8 == k % 64 - 8 * place);
                    }
                } else {
                    assert(!(8 * i <= k < 8 * i + 8));
                }
            }
        }
        i += 1;
    }
    mask
}

proof fn byte_of_word(word: u64, place: u64, index: u8)
    requires
        place < 8,
        index < 8,
    ensures
        byte_bit((word >> (8 * place) as u64) as u8, index as int) == bit(
            word,
            (8 * place + index) as int,
        ),
{
    let shift = (8 * place) as u64;
    let sum = (shift + index) as u64;
    assert(shift <= 56 && index < 8 && sum == shift + index ==> ((((word >> shift)
        as u8) >> index) & 1u8 == 1u8) == ((word >> sum) & 1u64 == 1u64)) by (bit_vector);
}

/// One byte of a mask.
pub open spec fn mask_byte(words: Seq<u64>, index: int) -> u8 {
    (words[index / 8] >> ((index % 8) * 8) as u64) as u8
}

/// The first `len` bytes of a mask.
pub open spec fn mask_bytes(words: Seq<u64>, len: int) -> Seq<u8> {
    Seq::new(len as nat, |i: int| mask_byte(words, i))
}

/// The bytes of a mask hold its bits.
pub proof fn mask_bytes_bits(words: Seq<u64>, len: int, index: int)
    requires
        0 <= index < 8 * len,
        len <= 8 * words.len(),
    ensures
        byte_member(mask_bytes(words, len), index) == member(words, index),
{
    let place = ((index / 8) % 8) as u64;
    byte_of_word(words[index / 64], place, (index % 8) as u8);
    assert((index / 8) / 8 == index / 64);
    assert(8 * place + index % 8 == index % 64);
}

/// Takes one byte out of a mask.
pub fn take_byte(words: &OffsetMask, index: usize) -> (byte: u8)
    requires
        index < 64,
    ensures
        byte == mask_byte(words@, index as int),
{
    let shift: u64 = ((index % 8) * 8) as u64;
    (words[index / 8] >> shift) as u8
}

/// A byte whose bits from `tail` on are clear is small.
pub proof fn tail_clear(byte: u8, tail: u8)
    requires
        0 < tail < 8,
        forall|i: int| tail <= i < 8 ==> !#[trigger] byte_bit(byte, i),
    ensures
        byte >> tail == 0,
{
    assert(tail <= 1 ==> !byte_bit(byte, 1));
    assert(tail <= 2 ==> !byte_bit(byte, 2));
    assert(tail <= 3 ==> !byte_bit(byte, 3));
    assert(tail <= 4 ==> !byte_bit(byte, 4));
    assert(tail <= 5 ==> !byte_bit(byte, 5));
    assert(tail <= 6 ==> !byte_bit(byte, 6));
    assert(tail <= 7 ==> !byte_bit(byte, 7));
    assert(0 < tail && tail < 8 && (tail <= 1 ==> (byte >> 1) & 1u8 != 1u8) && (tail <= 2 ==> (byte
        >> 2) & 1u8 != 1u8) && (tail <= 3 ==> (byte >> 3) & 1u8 != 1u8) && (tail <= 4 ==> (byte
        >> 4) & 1u8 != 1u8) && (tail <= 5 ==> (byte >> 5) & 1u8 != 1u8) && (tail <= 6 ==> (byte
        >> 6) & 1u8 != 1u8) && (tail <= 7 ==> (byte >> 7) & 1u8 != 1u8) ==> byte >> tail == 0)
        by (bit_vector);
}

/// A small byte has no bits from `tail` on.
pub proof fn high_bits_clear(byte: u8, tail: u8, index: u8)
    requires
        0 < tail < 8,
        byte >> tail == 0,
        tail <= index < 8,
    ensures
        !byte_bit(byte, index as int),
{
    assert(0 < tail && tail < 8 && byte >> tail == 0 && tail <= index && index < 8 ==> (byte
        >> index) & 1u8 != 1u8) by (bit_vector);
}

/// A byte with a bit is not zero.
pub proof fn byte_nonzero(byte: u8, index: u8)
    requires
        index < 8,
        byte_bit(byte, index as int),
    ensures
        byte != 0,
{
    assert(index < 8 && (byte >> index) & 1u8 == 1u8 ==> byte != 0) by (bit_vector);
}

} // verus!
