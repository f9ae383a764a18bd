//! Accounting of the memory that a query may use.

use vstd::prelude::*;
use crate::error::DbError;

verus! {

/// Keeps the bytes that a query has reserved within a budget.
#[derive(Debug)]
pub struct QueryMemoryManager {
    budget_bytes: usize,
    used_bytes: usize,
    peak_used_bytes: usize,
}

/// The state of a `QueryMemoryManager`.
pub struct MemoryAccount {
    pub budget: nat,
    pub used: nat,
    pub peak: nat,
}

impl View for QueryMemoryManager {
    type V = MemoryAccount;

    closed spec fn view(&self) -> MemoryAccount {
        MemoryAccount {
            budget: self.budget_bytes as nat,
            used: self.used_bytes as nat,
            peak: self.peak_used_bytes as nat,
        }
    }
}

impl MemoryAccount {
    /// Never more than the budget is reserved, and the peak is the most that ever was.
    pub open spec fn inv(self) -> bool {
        self.used <= self.peak <= self.budget
    }
}

impl QueryMemoryManager {
    pub fn new(budget_bytes: usize) -> (r: QueryMemoryManager)
        ensures
            r@ == (MemoryAccount { budget: budget_bytes as nat, used: 0, peak: 0 }),
            r@.inv(),
    {
        QueryMemoryManager { budget_bytes, used_bytes: 0, peak_used_bytes: 0 }
    }

    /// Reserves bytes, where the budget has room for them.
    pub fn try_reserve(&mut self, bytes: usize) -> (r: Result<(), DbError>)
        requires
            old(self)@.inv(),
        ensures
            final(self)@.inv(),
            r is Ok <==> old(self)@.used + bytes <= old(self)@.budget,
            r is Ok ==> final(self)@ == (MemoryAccount {
                used: old(self)@.used + bytes as nat,
                peak: if old(self)@.used + bytes > old(self)@.peak {
                    old(self)@.used + bytes as nat
                } else {
                    old(self)@.peak
                },
                ..old(self)@
            }),
            r is Err ==> final(self)@ == old(self)@,
            r matches Err(e) ==> if old(self)@.used + bytes > usize::MAX {
                e == DbError::MemoryAccountingOverflow(bytes)
            } else {
                e matches DbError::MemoryBudgetExceeded { requested, used, budget } && requested
                    == bytes && used as nat == old(self)@.used && budget as nat
                    == old(self)@.budget
            },
    {
        if bytes == 0 {
            return Ok(());
        }
        let next_used: usize = match self.used_bytes.checked_add(bytes) {
            Some(n) => n,
            None => {
                return Err(DbError::MemoryAccountingOverflow(bytes));
            },
        };
        if next_used > self.budget_bytes {
            return Err(
                DbError::MemoryBudgetExceeded {
                    requested: bytes,
                    used: self.used_bytes,
                    budget: self.budget_bytes,
                },
            );
        }
        self.used_bytes = next_used;
        if self.used_bytes > self.peak_used_bytes {
            self.peak_used_bytes = self.used_bytes;
        }
        Ok(())
    }

    /// Gives bytes back; never more than are reserved.
    pub fn release(&mut self, bytes: usize)
        requires
            old(self)@.inv(),
        ensures
            final(self)@.inv(),
            final(self)@ == (MemoryAccount {
                used: if bytes <= old(self)@.used {
                    (old(self)@.used - bytes) as nat
                } else {
                    0
                },
                ..old(self)@
            }),
    {
        self.used_bytes = self.used_bytes.saturating_sub(bytes);
    }

    pub fn budget_bytes(&self) -> (r: usize)
        ensures
            r == self@.budget,
    {
        self.budget_bytes
    }

    pub fn used_bytes(&self) -> (r: usize)
        ensures
            r == self@.used,
    {
        self.used_bytes
    }

    pub fn available_bytes(&self) -> (r: usize)
        requires
            self@.inv(),
        ensures
            r == self@.budget - self@.used,
    {
        self.budget_bytes.saturating_sub(self.used_bytes)
    }

    pub fn peak_used_bytes(&self) -> (r: usize)
        ensures
            r == self@.peak,
    {
        self.peak_used_bytes
    }
}

/// What a reservation took, releasing the same bytes gives back.
pub proof fn release_undoes_reserve(before: MemoryAccount, bytes: nat)
    requires
        before.inv(),
        before.used + bytes <= before.budget,
    ensures
        ({
            let reserved = before.used + bytes;
            (if bytes <= reserved {
                (reserved - bytes) as nat
            } else {
                0
            }) == before.used
        }),
{
}

} // verus!
