//! Text as bytes: validation, equality and order.

use crate::query::starts_with;
use crate::sort::Ranked;
use vstd::prelude::*;
use vstd::utf8::{encode_utf8, valid_utf8};

verus! {

/// The UTF-8 bytes of `text`.
pub open spec fn text_bytes(text: &str) -> Seq<u8> {
    encode_utf8(text@)
}

/// Calls `core::str::from_utf8`: text comes back exactly when the bytes are
/// valid UTF-8, and its encoding is then those bytes.
#[verifier::external_body]
pub(crate) fn utf8(bytes: &[u8]) -> (text: Option<&str>)
    ensures
        match text {
            Some(text) => valid_utf8(bytes@) && text_bytes(text) == bytes@,
            None => !valid_utf8(bytes@),
        },
{
    core::str::from_utf8(bytes).ok()
}

/// Whether `left` precedes `right`: at the first difference its byte is smaller,
/// or it is a proper prefix.
pub open spec fn precedes(left: Seq<u8>, right: Seq<u8>) -> bool
    decreases left.len(),
{
    if right.len() == 0 {
        false
    } else if left.len() == 0 {
        true
    } else if left[0] != right[0] {
        left[0] < right[0]
    } else {
        precedes(left.drop_first(), right.drop_first())
    }
}

/// Compares two byte strings for equality.
pub fn same_bytes(left: &[u8], right: &[u8]) -> (same: bool)
    ensures
        same == (left@ == right@),
{
    if left.len() != right.len() {
        return false;
    }
    let mut i: usize = 0;
    while i < left.len()
        invariant
            i <= left@.len(),
            left@.len() == right@.len(),
            forall|j: int| 0 <= j < i ==> left@[j] == right@[j],
        decreases left@.len() - i,
    {
        if left[i] != right[i] {
            return false;
        }
        i += 1;
    }
    assert(left@ =~= right@);
    true
}

/// Compares two byte strings in lexicographic order.
#[verifier::loop_isolation(false)]
pub fn bytes_precede(left: &[u8], right: &[u8]) -> (less: bool)
    ensures
        less == precedes(left@, right@),
{
    let mut i: usize = 0;
    assert(left@.skip(0) =~= left@ && right@.skip(0) =~= right@);
    while i < left.len() && i < right.len()
        invariant
            i <= left@.len(),
            i <= right@.len(),
            precedes(left@, right@) == precedes(left@.skip(i as int), right@.skip(i as int)),
        decreases left@.len() - i,
    {
        if left[i] != right[i] {
            return left[i] < right[i];
        }
        assert(left@.skip(i as int).drop_first() =~= left@.skip(i + 1));
        assert(right@.skip(i as int).drop_first() =~= right@.skip(i + 1));
        i += 1;
    }
    i < right.len()
}

/// The order of byte strings is strict and total.
pub proof fn precedes_total(left: Seq<u8>, right: Seq<u8>)
    ensures
        precedes(left, right) || precedes(right, left) || left == right,
        !(precedes(left, right) && precedes(right, left)),
        precedes(left, right) ==> left != right,
    decreases left.len(),
{
    if left.len() > 0 && right.len() > 0 && left[0] == right[0] {
        precedes_total(left.drop_first(), right.drop_first());
        if left.drop_first() == right.drop_first() {
            assert(left =~= seq![left[0]] + left.drop_first());
            assert(right =~= seq![right[0]] + right.drop_first());
        }
    } else if left.len() == 0 && right.len() == 0 {
        assert(left =~= right);
    }
}

/// The order of byte strings is transitive.
pub proof fn precedes_transitive(left: Seq<u8>, middle: Seq<u8>, right: Seq<u8>)
    requires
        precedes(left, middle),
        precedes(middle, right),
    ensures
        precedes(left, right),
    decreases left.len(),
{
    if left.len() > 0 && left[0] == middle[0] && middle[0] == right[0] {
        precedes_transitive(left.drop_first(), middle.drop_first(), right.drop_first());
    }
}

/// Whether a byte string starts with another one.
pub fn bytes_start_with(word: &[u8], prefix: &[u8]) -> (starts: bool)
    ensures
        starts == starts_with(word@, prefix@),
{
    if prefix.len() > word.len() {
        return false;
    }
    let mut i: usize = 0;
    while i < prefix.len()
        invariant
            i <= prefix@.len() <= word@.len(),
            forall|j: int| 0 <= j < i ==> word@[j] == prefix@[j],
        decreases prefix@.len() - i,
    {
        if word[i] != prefix[i] {
            assert(word@.take(prefix@.len() as int)[i as int] != prefix@[i as int]);
            return false;
        }
        i += 1;
    }
    assert(word@.take(prefix@.len() as int) =~= prefix@);
    true
}

/// A word that starts with a prefix does not precede it, and what lies between
/// a prefix and such a word starts with the prefix too.
pub proof fn prefix_between(prefix: Seq<u8>, middle: Seq<u8>, word: Seq<u8>)
    requires
        starts_with(word, prefix),
    ensures
        !precedes(word, prefix),
        !precedes(middle, prefix) && !precedes(word, middle) ==> starts_with(middle, prefix),
    decreases prefix.len(),
{
    if prefix.len() == 0 {
        assert(middle.take(0) =~= prefix);
    } else {
        assert(word.take(prefix.len() as int)[0] == word[0]);
        let rest = prefix.drop_first();
        assert(word.drop_first().take(rest.len() as int) =~= word.take(
            prefix.len() as int,
        ).drop_first());
        if middle.len() > 0 && middle[0] == prefix[0] {
            prefix_between(rest, middle.drop_first(), word.drop_first());
            if starts_with(middle.drop_first(), rest) {
                assert forall|i: int| 0 <= i < prefix.len() implies middle[i] == prefix[i] by {
                    if i > 0 {
                        assert(middle.drop_first().take(rest.len() as int)[i - 1] == rest[i - 1]);
                    }
                }
                assert(middle.take(prefix.len() as int) =~= prefix);
            }
        } else {
            prefix_between(rest, middle, word.drop_first());
        }
    }
}

/// Texts are ranked by their bytes.
impl<'a> Ranked for &'a str {
    open spec fn at_most(self, other: Self) -> bool {
        !precedes(text_bytes(other), text_bytes(self))
    }

    proof fn at_most_total(self, other: Self) {
        precedes_total(text_bytes(self), text_bytes(other));
    }

    proof fn at_most_transitive(self, middle: Self, other: Self) {
        let (a, b, c) = (text_bytes(self), text_bytes(middle), text_bytes(other));
        precedes_total(a, b);
        precedes_total(b, c);
        precedes_total(a, c);
        if precedes(c, a) {
            if precedes(a, b) {
                precedes_transitive(c, a, b);
            }
        }
    }

    fn not_after(&self, other: &Self) -> (answer: bool) {
        !bytes_precede(other.as_bytes(), self.as_bytes())
    }
}

} // verus!
