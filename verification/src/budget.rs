//! Allocation-free accounting for a caller-owned memory budget.
//! Charge actual retained capacity before allocation; release only after freeing it.
//! This counter does not intercept allocations or promise recoverable process OOM.

use core::mem::size_of;
use vstd::prelude::*;

verus! {

/// A rejected accounting operation; failure leaves the counter unchanged.
#[derive(Clone, Copy, Debug, Eq, PartialEq, Structural)]
pub enum BudgetError {
    ArithmeticOverflow,
    LimitExceeded,
    InvalidRelease,
}

/// A private accounting counter; not an allocator or cross-process primitive.
#[derive(Debug)]
pub struct MemoryBudget {
    limit: usize,
    used: usize,
    peak: usize,
}

/// What a budget records: the fixed limit, the current total and the largest total so far.
#[verifier::ext_equal]
pub struct Account {
    pub limit: nat,
    pub used: nat,
    pub peak: nat,
}

impl Account {
    pub open spec fn wf(self) -> bool {
        self.used <= self.peak <= self.limit
    }

    /// The error of charging `bytes`, if the charge is refused.
    pub open spec fn charge_error(self, bytes: nat) -> Option<BudgetError> {
        if self.used + bytes > usize::MAX {
            Some(BudgetError::ArithmeticOverflow)
        } else if self.used + bytes > self.limit {
            Some(BudgetError::LimitExceeded)
        } else {
            None
        }
    }

    /// The account after an accepted charge of `bytes`.
    pub open spec fn charged(self, bytes: nat) -> Account {
        Account {
            limit: self.limit,
            used: self.used + bytes,
            peak: if self.used + bytes > self.peak {
                self.used + bytes
            } else {
                self.peak
            },
        }
    }

    /// The account after an accepted release of `bytes`.
    pub open spec fn released(self, bytes: nat) -> Account {
        Account { limit: self.limit, used: (self.used - bytes) as nat, peak: self.peak }
    }
}

impl View for MemoryBudget {
    type V = Account;

    closed spec fn view(&self) -> Account {
        Account { limit: self.limit as nat, used: self.used as nat, peak: self.peak as nat }
    }
}

impl MemoryBudget {
    #[verifier::type_invariant]
    closed spec fn inv(self) -> bool {
        self.used <= self.peak <= self.limit
    }

    pub fn new(limit: usize) -> (budget: Self)
        ensures
            budget@ == (Account { limit: limit as nat, used: 0, peak: 0 }),
    {
        MemoryBudget { limit, used: 0, peak: 0 }
    }

    /// Accounts for retained bytes before their allocation.
    ///
    /// # Errors
    /// Rejects overflow or a total above the limit without changing state.
    pub fn charge(&mut self, bytes: usize) -> (result: Result<(), BudgetError>)
        ensures
            match old(self)@.charge_error(bytes as nat) {
                Some(error) => result == Err::<(), _>(error) && final(self)@ == old(self)@,
                None => result is Ok && final(self)@ == old(self)@.charged(bytes as nat),
            },
            final(self)@.wf(),
            old(self)@.wf(),
    {
        proof {
            use_type_invariant(&*self);
        }
        if bytes > usize::MAX - self.used {
            return Err(BudgetError::ArithmeticOverflow);
        }
        let next: usize = self.used + bytes;
        if next > self.limit {
            return Err(BudgetError::LimitExceeded);
        }
        let peak: usize = if next > self.peak {
            next
        } else {
            self.peak
        };
        *self = MemoryBudget { limit: self.limit, used: next, peak };
        Ok(())
    }

    /// Accounts for `count` elements, including capacity that is not yet filled.
    ///
    /// # Errors
    /// Rejects multiplication overflow or any error from `charge`.
    pub fn charge_array<T>(&mut self, count: usize) -> (result: Result<(), BudgetError>)
        ensures
            ({
                let bytes = count as nat * vstd::layout::size_of::<T>();
                if bytes > usize::MAX {
                    result == Err::<(), _>(BudgetError::ArithmeticOverflow) && final(self)@ == old(self)@
                } else {
                    match old(self)@.charge_error(bytes) {
                        Some(error) => result == Err::<(), _>(error) && final(self)@ == old(self)@,
                        None => result is Ok && final(self)@ == old(self)@.charged(bytes),
                    }
                }
            }),
            final(self)@.wf(),
            old(self)@.wf(),
    {
        proof {
            use_type_invariant(&*self);
        }
        match count.checked_mul(size_of::<T>()) {
            Some(bytes) => self.charge(bytes),
            None => Err(BudgetError::ArithmeticOverflow),
        }
    }

    /// Releases bytes after their storage has been freed.
    ///
    /// # Errors
    /// Rejects a release larger than the current total without changing state.
    pub fn release(&mut self, bytes: usize) -> (result: Result<(), BudgetError>)
        ensures
            if bytes > old(self)@.used {
                result == Err::<(), _>(BudgetError::InvalidRelease) && final(self)@ == old(self)@
            } else {
                result is Ok && final(self)@ == old(self)@.released(bytes as nat)
            },
            final(self)@.wf(),
            old(self)@.wf(),
    {
        proof {
            use_type_invariant(&*self);
        }
        if bytes > self.used {
            return Err(BudgetError::InvalidRelease);
        }
        *self = MemoryBudget { limit: self.limit, used: self.used - bytes, peak: self.peak };
        Ok(())
    }

    pub fn used(&self) -> (used: usize)
        ensures
            used == self@.used,
            self@.wf(),
    {
        proof {
            use_type_invariant(self);
        }
        self.used
    }

    pub fn peak(&self) -> (peak: usize)
        ensures
            peak == self@.peak,
            self@.wf(),
    {
        proof {
            use_type_invariant(self);
        }
        self.peak
    }

    pub fn remaining(&self) -> (remaining: usize)
        ensures
            remaining == self@.limit - self@.used,
            self@.wf(),
    {
        proof {
            use_type_invariant(self);
        }
        self.limit - self.used
    }
}

/// A charge followed by a release of the same bytes restores the total; the
/// peak keeps the largest total that was reached.
pub proof fn charge_then_release(account: Account, bytes: nat)
    requires
        account.wf(),
        account.charge_error(bytes) is None,
    ensures
        account.charged(bytes).wf(),
        bytes <= account.charged(bytes).used,
        account.charged(bytes).released(bytes).used == account.used,
        account.charged(bytes).released(bytes).peak >= account.peak,
        account.charged(bytes).released(bytes).peak >= account.used + bytes,
        account.charged(bytes).released(bytes).wf(),
{
}

} // verus!
