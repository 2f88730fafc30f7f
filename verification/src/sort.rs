//! Stable merge sort over an order of the element type.

use vstd::prelude::*;

verus! {

/// A total order, up to elements that neither precede the other.
pub trait Ranked: Copy {
    /// Whether the element may stand before the other one.
    spec fn at_most(self, other: Self) -> bool;

    proof fn at_most_total(self, other: Self)
        ensures
            self.at_most(other) || other.at_most(self),
    ;

    proof fn at_most_transitive(self, middle: Self, other: Self)
        requires
            self.at_most(middle),
            middle.at_most(other),
        ensures
            self.at_most(other),
    ;

    fn not_after(&self, other: &Self) -> (answer: bool)
        ensures
            answer == self.at_most(*other),
    ;
}

/// Whether each element may stand before the next one.
pub open spec fn ranked<T: Ranked>(values: Seq<T>) -> bool {
    forall|i: int, j: int|
        0 <= i < j < values.len() ==> (#[trigger] values[i]).at_most(#[trigger] values[j])
}

/// Whether both hold the same elements as often.
pub open spec fn rearranged<T>(values: Seq<T>, others: Seq<T>) -> bool {
    values.to_multiset() == others.to_multiset()
}

/// Merges two sorted runs; of equal elements the left one comes first.
#[verifier::loop_isolation(false)]
fn merge<T: Ranked>(left: &Vec<T>, right: &Vec<T>) -> (merged: Vec<T>)
    requires
        ranked(left@),
        ranked(right@),
    ensures
        ranked(merged@),
        rearranged(merged@, left@ + right@),
{
    let mut merged: Vec<T> = Vec::new();
    let mut i: usize = 0;
    let mut j: usize = 0;
    assert(left@.take(0) + right@.take(0) =~= merged@);
    while i < left.len() || j < right.len()
        invariant
            i <= left@.len(),
            j <= right@.len(),
            ranked(merged@),
            rearranged(merged@, left@.take(i as int) + right@.take(j as int)),
            forall|k: int, n: int|
                0 <= k < merged@.len() && i <= n < left@.len() ==> (
                #[trigger] merged@[k]).at_most(#[trigger] left@[n]),
            forall|k: int, n: int|
                0 <= k < merged@.len() && j <= n < right@.len() ==> (
                #[trigger] merged@[k]).at_most(#[trigger] right@[n]),
        decreases left@.len() - i + right@.len() - j,
    {
        let from_left: bool = if i >= left.len() {
            false
        } else if j >= right.len() {
            true
        } else {
            left[i].not_after(&right[j])
        };
        broadcast use vstd::seq_lib::group_to_multiset_ensures;

        if from_left {
            let value: T = left[i];
            proof {
                assert forall|n: int| j <= n < right@.len() implies value.at_most(
                    #[trigger] right@[n],
                ) by {
                    if n > j {
                        value.at_most_transitive(right@[j as int], right@[n]);
                    }
                }
                extend_left(left@, right@, i as int, j as int);
            }
            merged.push(value);
            i += 1;
        } else {
            let value: T = right[j];
            proof {
                assert forall|n: int| i <= n < left@.len() implies value.at_most(
                    #[trigger] left@[n],
                ) by {
                    value.at_most_total(left@[i as int]);
                    if n > i {
                        value.at_most_transitive(left@[i as int], left@[n]);
                    }
                }
                assert(left@.take(i as int) + right@.take(j + 1) =~= (left@.take(i as int)
                    + right@.take(j as int)).push(value));
            }
            merged.push(value);
            j += 1;
        }
    }
    assert(left@.take(i as int) =~= left@);
    assert(right@.take(j as int) =~= right@);
    merged
}

/// Taking one more element on the left adds it once.
proof fn extend_left<T>(left: Seq<T>, right: Seq<T>, i: int, j: int)
    requires
        0 <= i < left.len(),
        0 <= j <= right.len(),
    ensures
        (left.take(i + 1) + right.take(j)).to_multiset() == (left.take(i) + right.take(
            j,
        )).to_multiset().insert(left[i]),
{
    broadcast use vstd::seq_lib::group_to_multiset_ensures;

    vstd::seq_lib::lemma_multiset_commutative(left.take(i + 1), right.take(j));
    vstd::seq_lib::lemma_multiset_commutative(left.take(i), right.take(j));
    assert(left.take(i + 1) =~= left.take(i).push(left[i]));
}

/// Sorts the values.
pub fn sorted<T: Ranked>(values: Vec<T>) -> (result: Vec<T>)
    ensures
        ranked(result@),
        rearranged(result@, values@),
        result@.len() == values@.len(),
    decreases values@.len(),
{
    broadcast use vstd::seq_lib::group_to_multiset_ensures;

    if values.len() < 2 {
        return values;
    }
    let middle: usize = values.len() / 2;
    let mut left: Vec<T> = Vec::new();
    let mut right: Vec<T> = Vec::new();
    let ghost all = values@;
    let mut i: usize = 0;
    while i < values.len()
        invariant
            all == values@,
            i <= all.len(),
            middle == all.len() / 2,
            left@ == all.take(if i < middle { i as int } else { middle as int }),
            right@ == all.subrange(middle as int, if i < middle { middle as int } else { i as int }),
        decreases all.len() - i,
    {
        if i < middle {
            left.push(values[i]);
            assert(left@ =~= all.take(i + 1));
        } else {
            right.push(values[i]);
            assert(right@ =~= all.subrange(middle as int, i + 1));
        }
        i += 1;
    }
    let ghost first = left@;
    let ghost second = right@;
    assert(first + second =~= all);
    let left: Vec<T> = sorted(left);
    let right: Vec<T> = sorted(right);
    let result: Vec<T> = merge(&left, &right);
    proof {
        vstd::seq_lib::lemma_multiset_commutative(left@, right@);
        vstd::seq_lib::lemma_multiset_commutative(first, second);
        assert(result@.to_multiset() == all.to_multiset());
        assert(result@.to_multiset().len() == result@.len());
        assert(all.to_multiset().len() == all.len());
    }
    result
}

} // verus!
