//! Fallible owned buffers with checked capacity accounting.
//! Callers abort the whole operation on error; allocator overhead is not observable here.

use crate::budget::{Account, BudgetError, MemoryBudget};
use crate::error::{Error, Result};
use crate::text::text_bytes;
use core::mem::size_of;
use vstd::prelude::*;
use vstd::utf8::{encode_utf8, encode_utf8_decode_utf8, encode_utf8_valid_utf8, valid_utf8};

verus! {

/// Calls `Vec::capacity`: what the vector holds fits in what it has allocated.
#[verifier::external_body]
pub(crate) fn capacity<T>(values: &Vec<T>) -> (capacity: usize)
    ensures
        capacity >= values@.len(),
{
    values.capacity()
}

/// Calls `Vec::try_reserve_exact`: whether or not the allocator could serve
/// the request, the vector holds what it held before.
#[verifier::external_body]
pub(crate) fn try_reserve_exact<T>(values: &mut Vec<T>, additional: usize) -> (reserved: bool)
    ensures
        final(values)@ == old(values)@,
{
    values.try_reserve_exact(additional).is_ok()
}

/// Calls `String::from_utf8`: a string comes back exactly when the bytes are
/// valid UTF-8, and its encoding is then those bytes.
#[verifier::external_body]
pub(crate) fn string_from_utf8(bytes: Vec<u8>) -> (text: Option<String>)
    ensures
        match text {
            Some(text) => valid_utf8(bytes@) && encode_utf8(text@) == bytes@,
            None => !valid_utf8(bytes@),
        },
{
    String::from_utf8(bytes).ok()
}

/// The capacity that a vector should grow to, if it has to grow.
pub open spec fn planned_growth(
    len: nat,
    capacity: nat,
    additional: nat,
    limit: nat,
    remaining: nat,
    size: nat,
) -> Result<Option<nat>> {
    let required = len + additional;
    let doubled = if capacity * 2 > usize::MAX {
        usize::MAX as nat
    } else {
        capacity * 2
    };
    let larger = if doubled > required {
        doubled
    } else {
        required
    };
    let target = if larger < limit {
        larger
    } else {
        limit
    };
    if required > usize::MAX || required > limit {
        Err(Error::Limit("element count"))
    } else if required <= capacity {
        Ok(None)
    } else if (target - capacity) * size <= usize::MAX && (target - capacity) * size <= remaining {
        Ok(Some(target))
    } else if (required - capacity) * size <= usize::MAX && (required - capacity) * size
        <= remaining {
        Ok(Some(required))
    } else {
        Err(Error::Budget(BudgetError::LimitExceeded))
    }
}

fn affordable(count: usize, size: usize, remaining: usize) -> (affordable: bool)
    ensures
        affordable == (count * size <= usize::MAX && count * size <= remaining),
{
    match count.checked_mul(size) {
        Some(bytes) => bytes <= remaining,
        None => false,
    }
}

/// Chooses a capacity: doubled where the budget allows it, else exactly enough.
pub fn growth(
    len: usize,
    capacity: usize,
    additional: usize,
    limit: usize,
    remaining: usize,
    size: usize,
) -> (result: Result<Option<usize>>)
    ensures
        match planned_growth(
            len as nat,
            capacity as nat,
            additional as nat,
            limit as nat,
            remaining as nat,
            size as nat,
        ) {
            Ok(Some(target)) => result == Ok::<Option<usize>, Error>(Some(target as usize))
                && capacity < target <= usize::MAX && len <= target,
            Ok(None) => result == Ok::<Option<usize>, Error>(None),
            Err(error) => result == Err::<Option<usize>, Error>(error),
        },
{
    if additional > usize::MAX - len {
        return Err(Error::Limit("element count"));
    }
    let required: usize = len + additional;
    if required > limit {
        return Err(Error::Limit("element count"));
    }
    if required <= capacity {
        return Ok(None);
    }
    let doubled: usize = if capacity > usize::MAX / 2 {
        usize::MAX
    } else {
        capacity * 2
    };
    let larger: usize = if doubled > required {
        doubled
    } else {
        required
    };
    let target: usize = if larger < limit {
        larger
    } else {
        limit
    };
    if affordable(target - capacity, size, remaining) {
        return Ok(Some(target));
    }
    if affordable(required - capacity, size, remaining) {
        return Ok(Some(required));
    }
    Err(Error::Budget(BudgetError::LimitExceeded))
}

/// Whether an operation may fail for want of memory: the allocator refused, or
/// what it gave exceeds the budget.
pub open spec fn out_of_memory(error: Error) -> bool {
    error == Error::Allocation || error is Budget
}

/// Makes room for `additional` elements and accounts for the capacity that the
/// allocator gave. What the vector holds never changes.
pub fn reserve<T>(
    values: &mut Vec<T>,
    additional: usize,
    limit: usize,
    budget: &mut MemoryBudget,
) -> (result: Result<()>)
    ensures
        final(values)@ == old(values)@,
        final(budget)@.wf(),
        final(budget)@.limit == old(budget)@.limit,
        match result {
            Ok(_) => old(values)@.len() + additional <= limit && final(budget)@.used
                >= old(budget)@.used,
            Err(error) => {
                &&& final(budget)@ == old(budget)@
                &&& error == Error::Limit("element count") || out_of_memory(error)
            },
        },
        result == Err::<(), Error>(Error::Limit("element count")) <==> old(values)@.len()
            + additional > limit || old(values)@.len() + additional > usize::MAX,
        additional == 0 && old(values)@.len() <= limit ==> result is Ok && final(budget)@ == old(budget)@,
{
    let old_capacity: usize = capacity(values);
    let remaining: usize = budget.remaining();
    let length: usize = values.len();
    let target: usize = match growth(
        length,
        old_capacity,
        additional,
        limit,
        remaining,
        size_of::<T>(),
    ) {
        Ok(Some(target)) => target,
        Ok(None) => {
            return Ok(());
        },
        Err(error) => {
            return Err(error);
        },
    };
    if !try_reserve_exact(values, target - length) {
        return Err(Error::Allocation);
    }
    let new_capacity: usize = capacity(values);
    settle::<T>(old_capacity, new_capacity, budget)
}

/// What a request for room in a vector comes to that was charged for `held`
/// elements: the planned error, or room that was charged for in full.
pub open spec fn made_room<T>(
    len: nat,
    held: (usize, usize),
    additional: usize,
    limit: usize,
    before: Account,
    after: Account,
    failed: Option<Error>,
) -> bool {
    let size = vstd::layout::size_of::<T>();
    &&& after.wf()
    &&& after.limit == before.limit
    &&& match planned_growth(
        len,
        held.0 as nat,
        additional as nat,
        limit as nat,
        (before.limit - before.used) as nat,
        size,
    ) {
        Err(error) => failed == Some(error),
        Ok(None) => failed is None && held.1 == held.0,
        Ok(Some(target)) => match failed {
            None => held.1 >= target,
            Some(error) => out_of_memory(error),
        },
    }
    &&& match failed {
        None => len + additional <= held.1 && len + additional <= limit && after.used == before.used
            + (held.1 - held.0) * size,
        Some(_) => after == before && held.1 == held.0,
    }
}

/// Makes room for `additional` elements in a vector that was charged for `held`
/// ones, and accounts for the capacity that the allocator gave. What the vector
/// holds never changes.
pub fn reserve_held<T>(
    values: &mut Vec<T>,
    held: &mut usize,
    additional: usize,
    limit: usize,
    budget: &mut MemoryBudget,
) -> (result: Result<()>)
    requires
        old(values)@.len() <= *old(held),
    ensures
        final(values)@ == old(values)@,
        *old(held) <= *final(held),
        made_room::<T>(
            old(values)@.len(),
            (*old(held), *final(held)),
            additional,
            limit,
            old(budget)@,
            final(budget)@,
            result.err(),
        ),
{
    let remaining: usize = budget.remaining();
    let length: usize = values.len();
    let target: usize = match growth(
        length,
        *held,
        additional,
        limit,
        remaining,
        size_of::<T>(),
    ) {
        Ok(Some(target)) => target,
        Ok(None) => {
            assert((*held - *held) * vstd::layout::size_of::<T>() == 0) by (nonlinear_arith);
            return Ok(());
        },
        Err(error) => {
            return Err(error);
        },
    };
    if !try_reserve_exact(values, target - length) {
        return Err(Error::Allocation);
    }
    let found: usize = capacity(values);
    let given: usize = if found > target {
        found
    } else {
        target
    };
    settle::<T>(*held, given, budget)?;
    *held = given;
    Ok(())
}

/// Charges a budget for what an allocator gave: the growth from one capacity to
/// another one.
pub fn settle<T>(old_capacity: usize, new_capacity: usize, budget: &mut MemoryBudget) -> (result:
    Result<()>)
    ensures
        final(budget)@.wf(),
        ({
            let grown = if new_capacity > old_capacity {
                (new_capacity - old_capacity) as nat
            } else {
                0
            };
            let bytes = grown * vstd::layout::size_of::<T>();
            if bytes > usize::MAX {
                result == Err::<(), Error>(Error::Budget(BudgetError::ArithmeticOverflow))
                    && final(budget)@ == old(budget)@
            } else {
                match old(budget)@.charge_error(bytes) {
                    Some(error) => result == Err::<(), Error>(Error::Budget(error))
                        && final(budget)@ == old(budget)@,
                    None => result is Ok && final(budget)@ == old(budget)@.charged(bytes),
                }
            }
        }),
{
    let grown: usize = if new_capacity > old_capacity {
        new_capacity - old_capacity
    } else {
        0
    };
    match budget.charge_array::<T>(grown) {
        Ok(_) => Ok(()),
        Err(error) => Err(Error::Budget(error)),
    }
}

/// Whether a fresh vector of a capacity is more than a budget has left.
pub open spec fn unaffordable<T>(capacity: nat, account: Account) -> bool {
    capacity * vstd::layout::size_of::<T>() > account.limit - account.used
}

/// What a request for a fresh vector comes to: nothing is charged for no
/// capacity, what the budget cannot pay for is refused before any allocation,
/// and otherwise at least the capacity is charged or memory ran out.
pub open spec fn granted<T>(
    capacity: nat,
    before: Account,
    after: Account,
    failed: Option<Error>,
) -> bool {
    &&& after.wf()
    &&& capacity == 0 ==> failed is None && after == before
    &&& capacity > 0 && unaffordable::<T>(capacity, before) ==> failed == Some(
        Error::Budget(BudgetError::LimitExceeded),
    )
    &&& match failed {
        None => after == before || exists|given: nat|
            given >= capacity && #[trigger] before.charged(given * vstd::layout::size_of::<T>())
                == after,
        Some(error) => out_of_memory(error) && after == before,
    }
    &&& failed is None ==> after.used >= before.used + capacity * vstd::layout::size_of::<T>()
        && after.limit == before.limit
}

/// A fresh vector with room for elements, and the room that was charged for.
pub fn vector_held<T>(capacity: usize, budget: &mut MemoryBudget) -> (result: Result<(Vec<T>, usize)>)
    ensures
        granted::<T>(capacity as nat, old(budget)@, final(budget)@, result.err()),
        result matches Ok((values, held)) ==> values@.len() == 0 && held >= capacity
            && final(budget)@.used == old(budget)@.used + held * vstd::layout::size_of::<T>(),
{
    let mut values: Vec<T> = Vec::new();
    let remaining: usize = budget.remaining();
    if capacity == 0 {
        assert(0 * vstd::layout::size_of::<T>() == 0) by (nonlinear_arith);
        return Ok((values, 0));
    }
    if !affordable(capacity, size_of::<T>(), remaining) {
        return Err(Error::Budget(BudgetError::LimitExceeded));
    }
    if !try_reserve_exact(&mut values, capacity) {
        return Err(Error::Allocation);
    }
    let found: usize = self::capacity(&values);
    let given: usize = if found > capacity {
        found
    } else {
        capacity
    };
    settle::<T>(0, given, budget)?;
    proof {
        let size = vstd::layout::size_of::<T>();
        assert(given * size >= capacity * size) by (nonlinear_arith)
            requires
                given >= capacity,
        ;
        assert(old(budget)@.charged(given as nat * size) == budget@);
    }
    Ok((values, given))
}

/// A fresh vector with room for elements.
pub fn vector<T>(capacity: usize, budget: &mut MemoryBudget) -> (result: Result<Vec<T>>)
    ensures
        granted::<T>(capacity as nat, old(budget)@, final(budget)@, result.err()),
        result matches Ok(values) ==> values@.len() == 0,
{
    let (values, _): (Vec<T>, usize) = vector_held(capacity, budget)?;
    Ok(values)
}

/// Frees a vector.
pub(crate) fn discard<T>(_values: Vec<T>) {
}

/// Releases what a capacity was charged for.
pub fn give_back<T>(capacity: usize, budget: &mut MemoryBudget) -> (result: Result<()>)
    ensures
        final(budget)@.wf(),
        ({
            let bytes = capacity as nat * vstd::layout::size_of::<T>();
            if bytes > usize::MAX {
                result == Err::<(), Error>(Error::Limit("allocation bytes")) && final(budget)@
                    == old(budget)@
            } else if bytes > old(budget)@.used {
                result == Err::<(), Error>(Error::Budget(BudgetError::InvalidRelease)) && final(budget)@ == old(budget)@
            } else {
                result is Ok && final(budget)@ == old(budget)@.released(bytes)
            }
        }),
{
    let before: usize = budget.used();
    let bytes: usize = match capacity.checked_mul(size_of::<T>()) {
        Some(bytes) => bytes,
        None => {
            return Err(Error::Limit("allocation bytes"));
        },
    };
    match budget.release(bytes) {
        Ok(_) => Ok(()),
        Err(error) => Err(Error::Budget(error)),
    }
}

/// Releases actual capacity only after the owning allocation has been dropped.
/// At least the elements are given back. The peak of the budget stays.
pub fn release<T>(values: Vec<T>, budget: &mut MemoryBudget) -> (result: Result<()>)
    ensures
        final(budget)@.wf(),
        match result {
            Ok(_) => exists|held: nat|
                held >= values@.len() && held * vstd::layout::size_of::<T>() <= old(budget)@.used
                    && #[trigger] old(budget)@.released(held * vstd::layout::size_of::<T>())
                    == final(budget)@,
            Err(error) => {
                &&& final(budget)@ == old(budget)@
                &&& error == Error::Limit("allocation bytes") || error == Error::Budget(
                    BudgetError::InvalidRelease,
                )
            },
        },
{
    let held: usize = capacity(&values);
    discard(values);
    give_back::<T>(held, budget)?;
    assert(old(budget)@.released(held as nat * vstd::layout::size_of::<T>()) == budget@);
    Ok(())
}

/// What was charged for a capacity is given back in full for the same capacity:
/// the total is the one from before, and the peak stays the one that was reached.
pub proof fn settled_then_given_back<T>(account: Account, capacity: nat)
    requires
        account.wf(),
        account.charge_error(capacity * vstd::layout::size_of::<T>()) is None,
    ensures
        ({
            let bytes = capacity * vstd::layout::size_of::<T>();
            let after = account.charged(bytes);
            &&& bytes <= after.used
            &&& after.released(bytes).used == account.used
            &&& after.released(bytes).peak == after.peak
            &&& after.released(bytes).limit == account.limit
        }),
{
}

/// Copies text into an accounted string.
pub fn copy_text(text: &str, budget: &mut MemoryBudget) -> (result: Result<String>)
    ensures
        final(budget)@.wf(),
        final(budget)@.limit == old(budget)@.limit,
        match result {
            Ok(copy) => copy@ == text@ && final(budget)@.used >= old(budget)@.used
                + text_bytes(text).len() * vstd::layout::size_of::<u8>(),
            Err(error) => out_of_memory(error) && final(budget)@ == old(budget)@
                && text_bytes(text).len() > 0,
        },
        text_bytes(text).len() > 0 && unaffordable::<u8>(text_bytes(text).len(), old(budget)@)
            ==> result == Err::<String, Error>(Error::Budget(BudgetError::LimitExceeded)),
{
    let source: &[u8] = text.as_bytes();
    let mut bytes: Vec<u8> = vector(source.len(), budget)?;
    bytes.extend_from_slice(source);
    assert(bytes@ =~= source@);
    proof {
        encode_utf8_valid_utf8(text@);
        encode_utf8_decode_utf8(text@);
    }
    match string_from_utf8(bytes) {
        Some(copy) => {
            proof {
                encode_utf8_decode_utf8(copy@);
            }
            Ok(copy)
        },
        None => Err(Error::InvalidDocument),
    }
}

/// A budget of search steps.
pub struct Work {
    remaining: usize,
}

impl View for Work {
    type V = nat;

    closed spec fn view(&self) -> nat {
        self.remaining as nat
    }
}

impl Work {
    pub fn new(limit: usize) -> (work: Self)
        ensures
            work@ == limit,
    {
        Work { remaining: limit }
    }

    /// Spends `units`, or fails and spends nothing.
    pub fn charge(&mut self, units: usize) -> (result: Result<()>)
        ensures
            if units > old(self)@ {
                result == Err::<(), Error>(Error::Limit("search work")) && final(self)@ == old(self)@
            } else {
                result is Ok && final(self)@ == old(self)@ - units
            },
    {
        if units > self.remaining {
            return Err(Error::Limit("search work"));
        }
        self.remaining = self.remaining - units;
        Ok(())
    }
}

/// Bytes together with the capacity that they are known to have.
pub struct Scratch {
    bytes: Vec<u8>,
    held: usize,
}

/// What scratch holds, and how many bytes it can hold without an allocation.
#[verifier::ext_equal]
pub struct ScratchModel {
    pub bytes: Seq<u8>,
    pub held: nat,
}

impl View for Scratch {
    type V = ScratchModel;

    closed spec fn view(&self) -> ScratchModel {
        ScratchModel { bytes: self.bytes@, held: self.held as nat }
    }
}

impl Scratch {
    #[verifier::type_invariant]
    closed spec fn inv(self) -> bool {
        self.bytes@.len() <= self.held
    }

    /// Scratch without an allocation.
    pub fn new() -> (scratch: Self)
        ensures
            scratch@ == (ScratchModel { bytes: Seq::empty(), held: 0 }),
    {
        Scratch { bytes: Vec::new(), held: 0 }
    }

    /// Scratch that can hold a number of bytes; nothing where the allocator refuses.
    pub fn with_room(room: usize) -> (scratch: Option<Self>)
        ensures
            scratch matches Some(scratch) ==> scratch@.bytes.len() == 0 && scratch@.held >= room,
            room == 0 ==> scratch is Some,
    {
        let mut bytes: Vec<u8> = Vec::new();
        if room > 0 && !try_reserve_exact(&mut bytes, room) {
            return None;
        }
        let found: usize = capacity(&bytes);
        let held: usize = if found > room {
            found
        } else {
            room
        };
        Some(Scratch { bytes, held })
    }

    pub fn held(&self) -> (held: usize)
        ensures
            held == self@.held,
            self@.bytes.len() <= self@.held,
    {
        proof {
            use_type_invariant(self);
        }
        self.held
    }

    pub fn bytes(&self) -> (bytes: &[u8])
        ensures
            bytes@ == self@.bytes,
            bytes@.len() <= self@.held,
    {
        proof {
            use_type_invariant(self);
        }
        self.bytes.as_slice()
    }

    /// Forgets the bytes and keeps the capacity.
    pub fn clear(&mut self)
        ensures
            final(self)@ == (ScratchModel { bytes: Seq::empty(), held: old(self)@.held }),
    {
        let held: usize = self.held;
        let mut taken: Scratch = Scratch::new();
        core::mem::swap(self, &mut taken);
        let Scratch { mut bytes, .. } = taken;
        bytes.clear();
        *self = Scratch { bytes, held };
    }

    /// Makes room for more bytes within a budget. What fits in the capacity at
    /// hand is never refused; a refused allocation drops the bytes.
    pub fn grow(&mut self, additional: usize, budget: usize) -> (grown: bool)
        requires
            old(self)@.held <= budget,
        ensures
            final(self)@.held <= budget,
            ({
                let required = old(self)@.bytes.len() + additional;
                if grown {
                    &&& required <= budget
                    &&& final(self)@.bytes == old(self)@.bytes
                    &&& final(self)@.held >= required
                    &&& final(self)@.held >= old(self)@.held
                } else {
                    required > budget || required > old(self)@.held
                }
            }),
    {
        let length: usize = self.bytes().len();
        if additional > usize::MAX - length || length + additional > budget {
            return false;
        }
        let required: usize = length + additional;
        let held: usize = self.held;
        if required <= held {
            return true;
        }
        let mut taken: Scratch = Scratch::new();
        core::mem::swap(self, &mut taken);
        let Scratch { mut bytes, .. } = taken;
        if !try_reserve_exact(&mut bytes, additional) {
            return false;
        }
        let found: usize = capacity(&bytes);
        let given: usize = if found > required {
            found
        } else {
            required
        };
        if given > budget {
            return false;
        }
        *self = Scratch { bytes, held: given };
        true
    }

    /// Appends bytes for which there is room.
    pub fn append(&mut self, more: &[u8])
        requires
            old(self)@.bytes.len() + more@.len() <= old(self)@.held,
        ensures
            final(self)@ == (ScratchModel {
                bytes: old(self)@.bytes + more@,
                held: old(self)@.held,
            }),
    {
        let held: usize = self.held;
        let mut taken: Scratch = Scratch::new();
        core::mem::swap(self, &mut taken);
        let Scratch { mut bytes, .. } = taken;
        let ghost before = bytes@;
        bytes.extend_from_slice(more);
        assert(bytes@ =~= before + more@);
        *self = Scratch { bytes, held };
    }
}

} // verus!
