//! The orders that are ranked, as far as the ranking reads them.
use crate::key::Ratio;
use vstd::prelude::*;

verus! {

/// A 20-byte account address, identifying a solver.
#[derive(Clone, Copy, Debug)]
pub struct Address(pub [u8; 20]);

impl Address {
    /// Byte-wise equality.
    pub fn same(&self, other: &Address) -> (r: bool)
        ensures
            r == (self.0@ == other.0@),
    {
        let mut i: usize = 0;
        while i < 20
            invariant
                i <= 20,
                forall|j: int| 0 <= j < i ==> self.0@[j] == other.0@[j],
            decreases 20 - i,
        {
            if self.0[i] != other.0[i] {
                return false;
            }
            i = i + 1;
        }
        assert(self.0@ =~= other.0@);
        true
    }
}

/// An order as the ranking sees it: its identifier, its creation time in unix
/// seconds, the solver whose quote won it (if any), and two scores that the
/// caller computed from reference prices.
#[derive(Clone, Copy, Debug)]
pub struct Order {
    pub uid: u64,
    pub created: u32,
    pub quote_solver: Option<Address>,
    /// Likelihood of being fulfilled at external prices.
    pub likelihood: Ratio,
    /// Likelihood of surplus at external prices.
    pub likelihood_surplus: Ratio,
}

impl Order {
    /// Both scores have a positive denominator.
    pub open spec fn wf(self) -> bool {
        self.likelihood.wf() && self.likelihood_surplus.wf()
    }

    pub open spec fn quoted_by(self, solver: Address) -> bool {
        match self.quote_solver {
            Some(q) => q.0@ == solver.0@,
            None => false,
        }
    }
}

pub open spec fn orders_wf(s: Seq<Order>) -> bool {
    forall|i: int| 0 <= i < s.len() ==> (#[trigger] s[i]).wf()
}

} // verus!
