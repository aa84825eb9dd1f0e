//! The epoch manager: it is shown every committed block, in commit order.

use crate::types::{BlockReference, StatementBlock};
use vstd::prelude::*;

verus! {

/// Mathematical value of an [`EpochManager`]: the committed blocks it was
/// shown, in order.
pub struct EpochView {
    pub observed: Seq<BlockReference>,
}

/// Keeps track of the committed blocks of the epoch.
pub struct EpochManager {
    observed: Ghost<Seq<BlockReference>>,
    count: u64,
    last: Option<BlockReference>,
}

impl View for EpochManager {
    type V = EpochView;

    closed spec fn view(&self) -> EpochView {
        EpochView { observed: self.observed@ }
    }
}

/// How many blocks a manager counts after `n` blocks: it stops counting at
/// the highest number it can hold.
pub open spec fn counted_blocks(n: nat) -> u64 {
    if n >= u64::MAX {
        u64::MAX
    } else {
        n as u64
    }
}

impl EpochManager {
    /// What holds of every manager: it has counted the blocks it was shown
    /// and remembers the last of them.
    pub closed spec fn inv(&self) -> bool {
        &&& self.count == counted_blocks(self.observed@.len())
        &&& self.last == if self.observed@.len() == 0 {
            None
        } else {
            Some(self.observed@.last())
        }
    }

    /// A manager that was shown nothing.
    pub fn new() -> (r: Self)
        ensures
            r.inv(),
            r@.observed == Seq::<BlockReference>::empty(),
    {
        EpochManager { observed: Ghost(Seq::empty()), count: 0, last: None }
    }

    /// Shows the committed block `block` to the manager.
    pub fn observe_block(&mut self, block: &StatementBlock)
        requires
            old(self).inv(),
        ensures
            final(self).inv(),
            final(self)@.observed == old(self)@.observed.push(block@.reference),
    {
        let reference = *block.reference();
        if self.count < u64::MAX {
            self.count = self.count + 1;
        }
        self.last = Some(reference);
        self.observed = Ghost(self.observed@.push(reference));
    }

    /// Number of committed blocks shown so far.
    pub fn observed_blocks(&self) -> (r: u64)
        requires
            self.inv(),
        ensures
            r == counted_blocks(self@.observed.len()),
    {
        self.count
    }

    /// The committed block shown last, if any was shown.
    pub fn last_observed(&self) -> (r: Option<BlockReference>)
        requires
            self.inv(),
        ensures
            r is Some <==> self@.observed.len() > 0,
            r matches Some(x) ==> x == self@.observed.last(),
    {
        self.last
    }
}

} // verus!
