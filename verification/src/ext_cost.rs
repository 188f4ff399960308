//! The extended-cost algebra: a totally ordered additive monoid over
//! {finite non-negative seconds, +infinity} with saturating addition.

use vstd::prelude::*;

verus! {

/// A travel-time value: a finite, non-negative number of whole seconds, or
/// `Infinity` for "unreachable". Every finite value is below `Infinity`;
/// addition saturates to `Infinity` instead of wrapping.
#[derive(Clone, Copy, Debug, PartialEq, Eq, Structural)]
pub enum ExtendedCost {
    Infinity,
    Finite(u32),
}

impl ExtendedCost {
    /// Saturating addition: a sum that would exceed `u32::MAX` seconds, or
    /// that involves `Infinity`, is `Infinity`.
    pub open spec fn spec_add(self, rhs: ExtendedCost) -> ExtendedCost {
        match (self, rhs) {
            (ExtendedCost::Finite(a), ExtendedCost::Finite(b)) => if a + b <= u32::MAX {
                ExtendedCost::Finite((a + b) as u32)
            } else {
                ExtendedCost::Infinity
            },
            _ => ExtendedCost::Infinity,
        }
    }

    pub open spec fn spec_le(self, rhs: ExtendedCost) -> bool {
        match (self, rhs) {
            (ExtendedCost::Finite(a), ExtendedCost::Finite(b)) => a <= b,
            (ExtendedCost::Finite(_), ExtendedCost::Infinity) => true,
            (ExtendedCost::Infinity, r) => r is Infinity,
        }
    }

    pub open spec fn spec_lt(self, rhs: ExtendedCost) -> bool {
        self.spec_le(rhs) && self != rhs
    }

    pub open spec fn spec_max(self, rhs: ExtendedCost) -> ExtendedCost {
        if self.spec_le(rhs) {
            rhs
        } else {
            self
        }
    }

    pub open spec fn spec_min(self, rhs: ExtendedCost) -> ExtendedCost {
        if self.spec_le(rhs) {
            self
        } else {
            rhs
        }
    }

    /// The priority-queue encoding of a cost: finite values map to themselves
    /// and `Infinity` maps above every finite value.
    pub open spec fn spec_priority(self) -> u64 {
        match self {
            ExtendedCost::Finite(c) => c as u64,
            ExtendedCost::Infinity => u64::MAX,
        }
    }

    pub fn saturating_add(self, rhs: ExtendedCost) -> (r: ExtendedCost)
        ensures
            r == self.spec_add(rhs),
    {
        match (self, rhs) {
            (ExtendedCost::Finite(a), ExtendedCost::Finite(b)) => {
                if a <= u32::MAX - b {
                    ExtendedCost::Finite(a + b)
                } else {
                    ExtendedCost::Infinity
                }
            },
            _ => ExtendedCost::Infinity,
        }
    }

    pub fn lt(&self, rhs: &ExtendedCost) -> (r: bool)
        ensures
            r == self.spec_lt(*rhs),
    {
        match (self, rhs) {
            (ExtendedCost::Finite(a), ExtendedCost::Finite(b)) => a < b,
            (ExtendedCost::Finite(_), ExtendedCost::Infinity) => true,
            (ExtendedCost::Infinity, _) => false,
        }
    }

    pub fn le(&self, rhs: &ExtendedCost) -> (r: bool)
        ensures
            r == self.spec_le(*rhs),
    {
        match (self, rhs) {
            (ExtendedCost::Finite(a), ExtendedCost::Finite(b)) => a <= b,
            (ExtendedCost::Finite(_), ExtendedCost::Infinity) => true,
            (ExtendedCost::Infinity, ExtendedCost::Infinity) => true,
            (ExtendedCost::Infinity, ExtendedCost::Finite(_)) => false,
        }
    }

    pub fn max(self, rhs: ExtendedCost) -> (r: ExtendedCost)
        ensures
            r == self.spec_max(rhs),
    {
        if self.le(&rhs) {
            rhs
        } else {
            self
        }
    }

    pub fn min(self, rhs: ExtendedCost) -> (r: ExtendedCost)
        ensures
            r == self.spec_min(rhs),
    {
        if self.le(&rhs) {
            self
        } else {
            rhs
        }
    }

    pub fn clamp(self, lo: ExtendedCost, hi: ExtendedCost) -> (r: ExtendedCost)
        ensures
            r == self.spec_max(lo).spec_min(hi),
    {
        self.max(lo).min(hi)
    }

    pub fn priority(self) -> (r: u64)
        ensures
            r == self.spec_priority(),
    {
        match self {
            ExtendedCost::Finite(c) => c as u64,
            ExtendedCost::Infinity => u64::MAX,
        }
    }
}

/// The ordering is total and antisymmetric: any two costs are comparable, and
/// mutually comparable costs are equal.
pub proof fn lemma_order_total(a: ExtendedCost, b: ExtendedCost)
    ensures
        a.spec_le(b) || b.spec_le(a),
        a.spec_le(b) && b.spec_le(a) ==> a == b,
{
}

/// `Finite(0)` is the additive identity and `Infinity` absorbs every addend.
pub proof fn lemma_add_identity_absorb(a: ExtendedCost)
    ensures
        a.spec_add(ExtendedCost::Finite(0)) == a,
        a.spec_add(ExtendedCost::Infinity) == ExtendedCost::Infinity,
        ExtendedCost::Infinity.spec_add(a) == ExtendedCost::Infinity,
{
}

/// Addition is commutative and monotone in each argument.
pub proof fn lemma_add_comm_monotone(a: ExtendedCost, b: ExtendedCost, c: ExtendedCost)
    ensures
        a.spec_add(b) == b.spec_add(a),
        a.spec_le(b) ==> a.spec_add(c).spec_le(b.spec_add(c)),
{
}

} // verus!
