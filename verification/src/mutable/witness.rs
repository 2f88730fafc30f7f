//! The search for a phrase over sought position lists.

use crate::error::{Error, Result};
use vstd::prelude::*;

verus! {

/// Answers of seeks: for each target the first position at or behind it.
pub type Finder = spec_fn(int) -> Result<Option<u32>>;

/// The bound on every position.
pub const POSITION_LIMIT: u32 = 0x4000_0000;

/// Whether answers fit together: a position is not below its target, and it
/// answers every target up to itself; where nothing follows, nothing follows
/// any later target.
pub open spec fn consistent(finder: Finder) -> bool {
    &&& forall|target: int|
        #![trigger finder(target)]
        finder(target) matches Ok(Some(position)) ==> target <= position < POSITION_LIMIT
    &&& forall|target: int, later: int|
        #![trigger finder(target), finder(later)]
        target <= later ==> match finder(target) {
            Ok(Some(position)) => later <= position ==> finder(later) == finder(target),
            Ok(None) => finder(later) == finder(target),
            Err(_) => true,
        }
}

/// Whether a position is present.
pub open spec fn present(finder: Finder, position: int) -> bool {
    finder(position) matches Ok(Some(found)) && found == position
}

/// Whether a position is known to be absent.
pub open spec fn absent(finder: Finder, position: int) -> bool {
    finder(position) is Ok && !present(finder, position)
}

/// Whether the words stand side by side from `start` on.
pub open spec fn stands_at(finders: Seq<Finder>, start: int) -> bool {
    0 <= start && forall|i: int| 0 <= i < finders.len() ==> present(#[trigger] finders[i], start + i)
}

/// Whether some word is known not to stand in its place from `start` on.
pub open spec fn fails_at(finders: Seq<Finder>, start: int) -> bool {
    exists|i: int| 0 <= i < finders.len() && absent(#[trigger] finders[i], start + i)
}

/// Whether the phrase stands somewhere.
pub open spec fn phrase_stands(finders: Seq<Finder>) -> bool {
    exists|start: int| #[trigger] stands_at(finders, start)
}

/// Whether the phrase is known to stand nowhere.
pub open spec fn phrase_fails(finders: Seq<Finder>) -> bool {
    forall|start: int| 0 <= start ==> #[trigger] fails_at(finders, start)
}

/// Whether a failure is that of some seek.
pub open spec fn seek_fails(finders: Seq<Finder>, error: Error) -> bool {
    exists|i: int, target: int|
        0 <= i < finders.len() && #[trigger] finders[i](target) == Err::<Option<u32>, Error>(error)
}

/// A list of positions that is sought with growing targets. Reading may need
/// a context: bytes that lie elsewhere, or steps that run out.
pub trait Seeker<B, C>: Copy {
    /// The answers, which do not change while the list is read.
    spec fn finder(&self) -> Finder;

    /// Targets below are no longer answered.
    spec fn floor(&self) -> int;

    spec fn valid(&self) -> bool;

    /// How many positions are unread.
    spec fn unread(&self) -> nat;

    /// How many steps the context has left.
    spec fn steps(context: (B, C)) -> nat;

    /// The failure of a seek that ran out of steps.
    spec fn exhausted() -> Error;

    /// Whether the context never fails.
    spec fn dependable(context: (B, C)) -> bool;

    /// Whether the context serves the list.
    spec fn serves(&self, context: (B, C)) -> bool;

    /// Whether a context is the same but for its steps.
    spec fn same_context(context: (B, C), other: (B, C)) -> bool;

    proof fn finder_consistent(&self)
        requires
            self.valid(),
        ensures
            consistent(self.finder()),
    ;

    proof fn served(&self, context: (B, C), other: (B, C))
        requires
            self.serves(context),
            Self::same_context(context, other),
        ensures
            self.serves(other),
    ;

    proof fn same_transitive(first: (B, C), second: (B, C), third: (B, C))
        ensures
            Self::same_context(first, first),
            Self::same_context(first, second) && Self::same_context(second, third)
                ==> Self::same_context(first, third),
            Self::same_context(first, second) ==> Self::dependable(first) == Self::dependable(
                second,
            ),
    ;

    fn seek(&mut self, source: &mut B, context: &mut C, target: u32) -> (result: Result<Option<u32>>)
        requires
            old(self).valid(),
            old(self).serves((*old(source), *old(context))),
            old(self).floor() <= target,
        ensures
            final(self).valid(),
            final(self).serves((*final(source), *final(context))),
            final(self).finder() == old(self).finder(),
            Self::same_context((*old(source), *old(context)), (*final(source), *final(context))),
            result is Ok ==> final(self).floor() <= target,
            result is Ok ==> final(self).unread() <= old(self).unread() && Self::steps((*old(source), *old(context)))
                - Self::steps((*final(source), *final(context))) <= old(self).unread() - final(self).unread() + (
            if result matches Ok(None) {
                1int
            } else {
                0int
            }),
            result == old(self).finder()(target as int) || (result == Err::<Option<u32>, Error>(
                Self::exhausted(),
            ) && Self::steps((*old(source), *old(context))) <= old(self).unread()) || (result is Err
                && !Self::dependable((*old(source), *old(context)))),
    ;
}

/// The answers of each list.
pub open spec fn finders<B, C, T: Seeker<B, C>>(seekers: Seq<T>) -> Seq<Finder> {
    Seq::new(seekers.len(), |i: int| seekers[i].finder())
}

/// How many positions are unread in all lists.
pub open spec fn all_unread<B, C, T: Seeker<B, C>>(seekers: Seq<T>) -> nat
    decreases seekers.len(),
{
    if seekers.len() == 0 {
        0
    } else {
        all_unread::<B, C, T>(seekers.drop_last()) + seekers.last().unread()
    }
}

proof fn unread_updated<B, C, T: Seeker<B, C>>(seekers: Seq<T>, index: int, seeker: T)
    requires
        0 <= index < seekers.len(),
    ensures
        all_unread::<B, C, T>(seekers.update(index, seeker)) == all_unread::<B, C, T>(seekers)
            - seekers[index].unread() + seeker.unread(),
        all_unread::<B, C, T>(seekers) >= seekers[index].unread(),
    decreases seekers.len(),
{
    let updated = seekers.update(index, seeker);
    if index == seekers.len() - 1 {
        assert(updated.drop_last() =~= seekers.drop_last());
    } else {
        unread_updated::<B, C, T>(seekers.drop_last(), index, seeker);
        assert(updated.drop_last() =~= seekers.drop_last().update(index, seeker));
    }
}

/// Whether all lists can be sought.
pub open spec fn ready<B, C, T: Seeker<B, C>>(seekers: Seq<T>, context: (B, C)) -> bool {
    forall|i: int|
        0 <= i < seekers.len() ==> (#[trigger] seekers[i]).valid() && seekers[i].serves(context)
}

/// What the search for a phrase finds out.
pub open spec fn witnessed<B, C, T: Seeker<B, C>>(
    seekers: Seq<T>,
    context: (B, C),
    result: Result<bool>,
) -> bool {
    match result {
        Ok(true) => phrase_stands(finders::<B, C, T>(seekers)),
        Ok(false) => phrase_fails(finders::<B, C, T>(seekers)),
        Err(error) => seek_fails(finders::<B, C, T>(seekers), error) || (error == T::exhausted()
            && T::steps(context) <= all_unread::<B, C, T>(seekers)) || !T::dependable(context),
    }
}

/// Whether each list answers targets from its place behind `low` on.
spec fn floors<B, C, T: Seeker<B, C>>(seekers: Seq<T>, anchor: int, low: int) -> bool {
    forall|i: int|
        0 <= i < seekers.len() && i != anchor ==> (#[trigger] seekers[i]).floor() <= low + i
            || seekers[i].floor() <= 0
}

/// Seeks the other words of a phrase that has its anchor word in place.
/// `None` where a list came to its end.
#[verifier::loop_isolation(false)]
fn compare<B, C, T: Seeker<B, C>>(
    seekers: &mut Vec<T>,
    source: &mut B,
    context: &mut C,
    anchor: usize,
    start: u32,
) -> (result: Result<Option<bool>>)
    requires
        0 < old(seekers)@.len() <= 64,
        anchor < old(seekers)@.len(),
        ready::<B, C, T>(old(seekers)@, (*old(source), *old(context))),
        start < POSITION_LIMIT,
        floors::<B, C, T>(old(seekers)@, anchor as int, start as int),
    ensures
        final(seekers)@.len() == old(seekers)@.len(),
        finders::<B, C, T>(final(seekers)@) == finders::<B, C, T>(old(seekers)@),
        T::same_context((*old(source), *old(context)), (*final(source), *final(context))),
        match result {
            Ok(Some(matched)) => {
                &&& ready::<B, C, T>(final(seekers)@, (*final(source), *final(context)))
                &&& floors::<B, C, T>(final(seekers)@, anchor as int, start as int)
                &&& final(seekers)@[anchor as int] == old(seekers)@[anchor as int]
                &&& all_unread::<B, C, T>(final(seekers)@) <= all_unread::<B, C, T>(old(seekers)@)
                &&& T::steps((*old(source), *old(context))) - T::steps((*final(source), *final(context))) <= all_unread::<B, C, T>(
                    old(seekers)@,
                ) - all_unread::<B, C, T>(final(seekers)@)
                &&& matched ==> forall|i: int|
                    0 <= i < old(seekers)@.len() && i != anchor ==> present(
                        #[trigger] finders::<B, C, T>(old(seekers)@)[i],
                        start + i,
                    )
                &&& !matched ==> fails_at(finders::<B, C, T>(old(seekers)@), start as int)
            },
            Ok(None) => exists|i: int|
                0 <= i < old(seekers)@.len() && i != anchor && #[trigger] finders::<B, C, T>(
                    old(seekers)@,
                )[i](start + i) == Ok::<Option<u32>, Error>(None),
            Err(error) => seek_fails(finders::<B, C, T>(old(seekers)@), error) || (error
                == T::exhausted() && T::steps((*old(source), *old(context))) <= all_unread::<B, C, T>(
                old(seekers)@,
            )) || !T::dependable((*old(source), *old(context))),
        },
{
    let ghost all = finders::<B, C, T>(seekers@);
    let ghost begun = seekers@;
    let mut index: usize = 0;
    proof {
        T::same_transitive((*source, *context), (*source, *context), (*source, *context));
    }
    while index < seekers.len()
        invariant
            index <= seekers@.len(),
            seekers@.len() == begun.len(),
            finders::<B, C, T>(seekers@) == all,
            T::same_context((*old(source), *old(context)), (*source, *context)),
            ready::<B, C, T>(seekers@, (*source, *context)),
            floors::<B, C, T>(seekers@, anchor as int, start as int),
            seekers@[anchor as int] == begun[anchor as int],
            all_unread::<B, C, T>(seekers@) <= all_unread::<B, C, T>(begun),
            T::steps((*old(source), *old(context))) - T::steps((*source, *context)) <= all_unread::<B, C, T>(begun)
                - all_unread::<B, C, T>(seekers@),
            forall|i: int|
                0 <= i < index && i != anchor ==> present(#[trigger] all[i], start + i),
        decreases seekers@.len() - index,
    {
        if index != anchor {
            let target: u32 = start + index as u32;
            let ghost before = seekers@;
            let ghost earlier = (*source, *context);
            proof {
                T::same_transitive((*old(source), *old(context)), (*source, *context), (*source, *context));
            }
            let mut seeker: T = seekers[index];
            assert(seeker.valid() && seeker.serves((*source, *context)));
            assert(all[index as int] == seeker.finder());
            let value: Result<Option<u32>> = seeker.seek(source, context, target);
            seekers.set(index, seeker);
            proof {
                unread_updated::<B, C, T>(before, index as int, seeker);
                assert(seekers@ =~= before.update(index as int, seeker));
                assert(finders::<B, C, T>(seekers@) =~= all);
                T::same_transitive((*old(source), *old(context)), earlier, (*source, *context));
                assert forall|i: int| 0 <= i < seekers@.len() implies (
                #[trigger] seekers@[i]).valid() && seekers@[i].serves((*source, *context)) by {
                    if i != index {
                        assert(before[i] == seekers@[i]);
                        before[i].served(earlier, (*source, *context));
                    }
                }
            }
            match value {
                Err(error) => {
                    return Err(error);
                },
                Ok(None) => {
                    assert(all[index as int](start + index) == Ok::<Option<u32>, Error>(None));
                    return Ok(None);
                },
                Ok(Some(position)) => {
                    if position != target {
                        assert(absent(all[index as int], start + index));
                        return Ok(Some(false));
                    }
                },
            }
        }
        index += 1;
    }
    Ok(Some(true))
}

/// Searches a phrase: seeks the anchor word, then the other words in their
/// places, until the phrase stands or cannot stand any more.
///
/// # Errors
/// Passes on the failure of a seek.
#[verifier::loop_isolation(false)]
pub(crate) fn witness<B, C, T: Seeker<B, C>>(
    seekers: &mut Vec<T>,
    source: &mut B,
    context: &mut C,
    anchor: usize,
) -> (result: Result<bool>)
    requires
        0 < old(seekers)@.len() <= 64,
        anchor < old(seekers)@.len(),
        ready::<B, C, T>(old(seekers)@, (*old(source), *old(context))),
        forall|i: int| 0 <= i < old(seekers)@.len() ==> (#[trigger] old(seekers)@[i]).floor() <= 0,
    ensures
        T::same_context((*old(source), *old(context)), (*final(source), *final(context))),
        witnessed::<B, C, T>(old(seekers)@, (*old(source), *old(context)), result),
{
    let ghost all = finders::<B, C, T>(seekers@);
    let ghost begun = seekers@;
    let mut target: u32 = 0;
    proof {
        T::same_transitive((*source, *context), (*source, *context), (*source, *context));
    }
    loop
        invariant
            target <= POSITION_LIMIT,
            seekers@.len() == begun.len(),
            finders::<B, C, T>(seekers@) == all,
            T::same_context((*old(source), *old(context)), (*source, *context)),
            ready::<B, C, T>(seekers@, (*source, *context)),
            floors::<B, C, T>(seekers@, anchor as int, target - anchor),
            seekers@[anchor as int].floor() <= target,
            all_unread::<B, C, T>(seekers@) <= all_unread::<B, C, T>(begun),
            T::steps((*old(source), *old(context))) - T::steps((*source, *context)) <= all_unread::<B, C, T>(begun)
                - all_unread::<B, C, T>(seekers@),
            forall|start: int|
                0 <= start && start + anchor < target ==> #[trigger] fails_at(all, start),
        decreases POSITION_LIMIT - target,
    {
        let ghost before = seekers@;
        let ghost earlier = (*source, *context);
        let ghost finder = all[anchor as int];
        let mut seeker: T = seekers[anchor];
        assert(seeker.valid() && seeker.serves((*source, *context)));
        assert(finder == seeker.finder());
        proof {
            seeker.finder_consistent();
            T::same_transitive((*old(source), *old(context)), (*source, *context), (*source, *context));
        }
        let value: Result<Option<u32>> = seeker.seek(source, context, target);
        seekers.set(anchor, seeker);
        proof {
            unread_updated::<B, C, T>(before, anchor as int, seeker);
            assert(seekers@ =~= before.update(anchor as int, seeker));
            assert(finders::<B, C, T>(seekers@) =~= all);
            T::same_transitive((*old(source), *old(context)), earlier, (*source, *context));
            assert forall|i: int| 0 <= i < seekers@.len() implies (
            #[trigger] seekers@[i]).valid() && seekers@[i].serves((*source, *context)) by {
                if i != anchor {
                    assert(before[i] == seekers@[i]);
                    before[i].served(earlier, (*source, *context));
                }
            }
        }
        let position: u32 = match value {
            Err(error) => {
                return Err(error);
            },
            Ok(None) => {
                assert forall|start: int| 0 <= start implies #[trigger] fails_at(all, start) by {
                    if start + anchor >= target {
                        assert(finder(target as int) == Ok::<Option<u32>, Error>(None));
                        assert(finder(start + anchor) == finder(target as int));
                        assert(absent(all[anchor as int], start + anchor));
                    }
                }
                return Ok(false);
            },
            Ok(Some(position)) => position,
        };
        assert(finder(target as int) == Ok::<Option<u32>, Error>(Some(position)));
        assert forall|start: int|
            0 <= start && start + anchor < position implies #[trigger] fails_at(all, start) by {
            if start + anchor >= target {
                assert(finder(start + anchor) == finder(target as int));
                assert(absent(all[anchor as int], start + anchor));
            }
        }
        target = position + 1;
        if (position as usize) < anchor {
            continue;
        }
        let start: u32 = position - anchor as u32;
        let ghost middle = seekers@;
        let ghost between = (*source, *context);
        proof {
            T::same_transitive((*old(source), *old(context)), (*source, *context), (*source, *context));
        }
        let outcome: Result<Option<bool>> = compare(seekers, source, context, anchor, start);
        proof {
            T::same_transitive((*old(source), *old(context)), between, (*source, *context));
        }
        match outcome? {
            None => {
                let ghost index = choose|i: int|
                    0 <= i < middle.len() && i != anchor && #[trigger] finders::<B, C, T>(middle)[i](
                        start + i,
                    ) == Ok::<Option<u32>, Error>(None);
                proof {
                    middle[index].finder_consistent();
                    assert(finders::<B, C, T>(middle)[index] == middle[index].finder());
                    assert(all[index] == middle[index].finder());
                    assert forall|other: int| 0 <= other implies #[trigger] fails_at(
                        all,
                        other,
                    ) by {
                        if other >= start {
                            assert(all[index](start + index) == Ok::<Option<u32>, Error>(None));
                            assert(all[index](other + index) == all[index](start + index));
                            assert(absent(all[index], other + index));
                        }
                    }
                }
                return Ok(false);
            },
            Some(true) => {
                assert(finder(position as int) == finder(target - 1));
                assert(present(all[anchor as int], start + anchor));
                assert(stands_at(all, start as int));
                return Ok(true);
            },
            Some(false) => {},
        }
        assert forall|other: int|
            0 <= other && other + anchor < target implies #[trigger] fails_at(all, other) by {
            if other != start {
                assert(other + anchor < position);
            }
        }
    }
}

} // verus!
