//! Streams as values: the items in order, and how the stream ends.

use crate::callbacks::Sink;
use crate::error::{Error, Result};
use vstd::prelude::*;

verus! {

/// A stream that was followed to its end or to its first failure.
#[verifier::ext_equal]
pub struct Walk<T> {
    pub items: Seq<T>,
    pub end: Result<()>,
}

impl<T> Walk<T> {
    pub open spec fn nothing() -> Walk<T> {
        Walk { items: Seq::empty(), end: Ok(()) }
    }

    pub open spec fn one(item: T) -> Walk<T> {
        Walk { items: seq![item], end: Ok(()) }
    }

    pub open spec fn failed(error: Error) -> Walk<T> {
        Walk { items: Seq::empty(), end: Err(error) }
    }

    /// One stream after the other; a failure of the first ends both.
    pub open spec fn and(self, other: Walk<T>) -> Walk<T> {
        match self.end {
            Err(_) => self,
            Ok(_) => Walk { items: self.items + other.items, end: other.end },
        }
    }

    /// The stream behind items that were met before.
    pub open spec fn after(self, met: Seq<T>) -> Walk<T> {
        Walk { items: met + self.items, end: self.end }
    }
}

/// Whether items up to some point of the stream were added.
pub open spec fn partly<T>(walk: Walk<T>, before: Seq<T>, now: Seq<T>) -> bool {
    &&& before.len() <= now.len() <= before.len() + walk.items.len()
    &&& now == before + walk.items.take(now.len() - before.len())
}

/// What a consumer of the stream reports: on success all items were handed
/// over and counted; otherwise items up to some point were. Where neither the
/// host nor the receiver fails, the end is that of the stream.
pub open spec fn handed<T>(
    walk: Walk<T>,
    before: Seq<T>,
    now: Seq<T>,
    counts: (int, int),
    result: Result<()>,
    certain: bool,
    limit: Error,
) -> bool {
    match result {
        Ok(_) => walk.end is Ok && now == before + walk.items && counts.1 == counts.0
            + walk.items.len(),
        Err(error) => {
            &&& partly(walk, before, now)
            &&& certain ==> (walk.end == Err::<(), Error>(error) && now == before + walk.items) || (
            error == limit && counts.0 + walk.items.len() > u64::MAX)
        },
    }
}

/// The report of a consumer that counts from zero.
pub open spec fn delivered<T>(
    walk: Walk<T>,
    before: Seq<T>,
    now: Seq<T>,
    result: Result<u64>,
    certain: bool,
    limit: Error,
) -> bool {
    match result {
        Ok(count) => handed(walk, before, now, (0, count as int), Ok(()), certain, limit),
        Err(error) => handed(walk, before, now, (0, 0), Err(error), certain, limit),
    }
}

/// How far a stream was followed: the items met so far were handed over and
/// counted, and the rest is still to come.
pub open spec fn reached<T>(
    total: Walk<T>,
    before: Seq<T>,
    now: Seq<T>,
    count: int,
    met: Seq<T>,
    rest: Walk<T>,
) -> bool {
    &&& now == before + met
    &&& count == met.len()
    &&& total == rest.after(met)
}

/// Following a stream from any point leaves a part of it handed over.
pub broadcast proof fn reached_partly<T>(
    total: Walk<T>,
    before: Seq<T>,
    now: Seq<T>,
    count: int,
    met: Seq<T>,
    rest: Walk<T>,
)
    requires
        #[trigger] reached(total, before, now, count, met, rest),
    ensures
        partly(total, before, now),
        rest.items.len() == 0 ==> now == before + total.items,
        rest.end == total.end,
{
    assert(total.items.take(met.len() as int) =~= met);
    if rest.items.len() == 0 {
        assert(total.items =~= met);
    }
}

/// The next item of the stream was handed over and counted.
pub proof fn reached_next<T>(
    total: Walk<T>,
    before: Seq<T>,
    now: Seq<T>,
    count: int,
    met: Seq<T>,
    item: T,
    rest: Walk<T>,
)
    requires
        reached(total, before, now, count, met, Walk::one(item).and(rest)),
    ensures
        reached(total, before, now.push(item), count + 1, met.push(item), rest),
{
    assert(rest.after(met.push(item)) =~= Walk::one(item).and(rest).after(met));
    assert(before + met.push(item) =~= (before + met).push(item));
}

/// Hands an item over and counts it.
pub(crate) fn send<T, E: Sink<T>>(
    sink: &mut E,
    item: T,
    count: &mut u64,
    limit: &'static str,
) -> (result: Result<()>)
    ensures
        final(sink).accepting() == old(sink).accepting(),
        match result {
            Ok(_) => *old(count) < u64::MAX && *final(count) == *old(count) + 1 && final(sink).received() == old(sink).received().push(item),
            Err(error) => {
                ||| final(sink).received() == old(sink).received() && !old(sink).accepting()
                ||| final(sink).received() == old(sink).received().push(item) && *old(count)
                    == u64::MAX && error == Error::Limit(limit)
            },
        },
{
    sink.emit(item)?;
    match count.checked_add(1) {
        Some(next) => {
            *count = next;
            Ok(())
        },
        None => Err(Error::Limit(limit)),
    }
}

/// An item that could not be handed over or counted leaves a part of the
/// stream handed over.
pub proof fn refused_partly<T>(
    total: Walk<T>,
    before: Seq<T>,
    now: Seq<T>,
    count: int,
    met: Seq<T>,
    item: T,
    rest: Walk<T>,
)
    requires
        reached(total, before, now, count, met, Walk::one(item).and(rest)),
    ensures
        partly(total, before, now),
        partly(total, before, now.push(item)),
        total.items.len() > count,
{
    reached_partly(total, before, now, count, met, Walk::one(item).and(rest));
    assert(total.items.take(met.len() as int + 1) =~= met.push(item));
    assert(before + met.push(item) =~= (before + met).push(item));
}

/// A part of the stream was followed by itself: to its end, to its failure or
/// up to some point.
pub proof fn reached_part<T>(
    total: Walk<T>,
    before: Seq<T>,
    now: Seq<T>,
    count: int,
    met: Seq<T>,
    part: Walk<T>,
    rest: Walk<T>,
    later: Seq<T>,
)
    requires
        reached(total, before, now, count, met, part.and(rest)),
        partly(part, now, later),
    ensures
        partly(total, before, later),
        total.items.len() >= count + part.items.len(),
        later == now + part.items && part.end is Err ==> later == before + total.items && total.end
            == part.end,
        later == now + part.items && part.end is Ok ==> reached(
            total,
            before,
            later,
            count + part.items.len(),
            met + part.items,
            rest,
        ),
{
    let taken = later.len() - now.len();
    assert(total.items.take(met.len() + taken) =~= met + part.items.take(taken));
    assert(before + (met + part.items.take(taken)) =~= now + part.items.take(taken));
    if later == now + part.items {
        assert(part.items.take(taken) =~= part.items);
        if part.end is Err {
            assert(total.items =~= met + part.items);
        } else {
            assert(rest.after(met + part.items) =~= part.and(rest).after(met));
        }
    }
}

} // verus!
