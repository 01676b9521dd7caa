//! The memory budget that all of a database's holders share.

use vstd::prelude::*;

verus! {

/// A limit and the bytes charged against it.
#[derive(Debug, Clone, Copy, PartialEq, Eq, Structural)]
pub struct MemoryBudget {
    limit: usize,
    charged: usize,
}

impl MemoryBudget {
    /// Never more is charged than the limit.
    #[verifier::type_invariant]
    spec fn stays_within(self) -> bool {
        self.charged <= self.limit
    }

    /// The limit in bytes.
    pub closed spec fn limit_of(self) -> nat {
        self.limit as nat
    }

    /// The bytes charged.
    pub closed spec fn charged_of(self) -> nat {
        self.charged as nat
    }

    /// The bytes that can still be charged.
    pub open spec fn room(self) -> int {
        self.limit_of() - self.charged_of()
    }

    /// No limit is beyond what memory can hold.
    pub proof fn lemma_limit(self)
        ensures
            self.limit_of() <= usize::MAX,
    {
    }

    /// A budget without charges.
    pub fn new(limit: usize) -> (budget: MemoryBudget)
        ensures
            budget.limit_of() == limit,
            budget.charged_of() == 0,
    {
        MemoryBudget { limit, charged: 0 }
    }

    /// Charges `bytes` if they fit under the limit.
    pub fn try_charge(&mut self, bytes: usize) -> (fits: bool)
        ensures
            fits == (old(self).charged_of() + bytes <= old(self).limit_of()),
            final(self).limit_of() == old(self).limit_of(),
            final(self).charged_of() == old(self).charged_of() + if fits {
                bytes as int
            } else {
                0int
            },
            final(self).charged_of() <= final(self).limit_of(),
    {
        proof {
            use_type_invariant(&*self);
        }
        match self.charged.checked_add(bytes) {
            Some(total) => {
                if total <= self.limit {
                    self.charged = total;
                    true
                } else {
                    false
                }
            },
            None => false,
        }
    }

    /// Gives `bytes` back, at most what is charged.
    pub fn release(&mut self, bytes: usize)
        ensures
            final(self).limit_of() == old(self).limit_of(),
            final(self).charged_of() == if bytes <= old(self).charged_of() {
                old(self).charged_of() - bytes
            } else {
                0int
            },
            final(self).charged_of() <= final(self).limit_of(),
    {
        proof {
            use_type_invariant(&*self);
        }
        self.charged = self.charged.saturating_sub(bytes);
    }

    /// The bytes charged.
    pub fn charged(&self) -> (bytes: usize)
        ensures
            bytes == self.charged_of(),
            bytes <= self.limit_of(),
    {
        proof {
            use_type_invariant(self);
        }
        self.charged
    }

    /// The limit in bytes.
    pub fn limit(&self) -> (bytes: usize)
        ensures
            bytes == self.limit_of(),
    {
        self.limit
    }
}

} // verus!
