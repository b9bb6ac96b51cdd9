//! The player's purse.

use vstd::prelude::*;

verus! {

/// An amount of gold.
#[derive(Debug, Clone, Copy, PartialEq, Eq, Structural)]
pub struct Gold(pub u32);

impl Gold {
    /// Pays `cost` out of the purse where it holds enough, and says whether
    /// it did.
    pub fn pay(&mut self, cost: &Gold) -> (paid: bool)
        ensures
            paid == (old(self).0 >= cost.0),
            final(self).0 == (if paid {
                (old(self).0 - cost.0) as u32
            } else {
                old(self).0
            }),
    {
        if self.0 >= cost.0 {
            self.0 -= cost.0;
            true
        } else {
            false
        }
    }

    /// Adds `amount` to the purse.
    pub fn gain(&mut self, amount: u32)
        requires
            old(self).0 + amount <= u32::MAX,
        ensures
            final(self).0 == old(self).0 + amount,
    {
        self.0 += amount;
    }
}

} // verus!
