//! `EpochCounter` and `EpochId`: monotonic time for change detection.

use vstd::prelude::*;

verus! {

/// Identifier of one tick of the world's monotonic clock.
///
/// Epochs only grow; comparing two of them tells which write came later.
#[derive(Clone, Copy, PartialEq, Eq, Structural, Debug)]
pub struct EpochId {
    /// The tick number. Zero is the starting epoch, before any mutation.
    pub value: u64,
}

impl EpochId {
    /// Returns the id of the starting epoch.
    pub fn start() -> (r: Self)
        ensures
            r.value == 0,
    {
        EpochId { value: 0 }
    }

    /// Returns true if this epoch comes strictly before `other`.
    pub fn before(&self, other: EpochId) -> (r: bool)
        ensures
            r == (self.value < other.value),
    {
        self.value < other.value
    }

    /// Returns true if this epoch comes strictly after `other`.
    pub fn after(&self, other: EpochId) -> (r: bool)
        ensures
            r == (self.value > other.value),
    {
        self.value > other.value
    }

    /// Updates this epoch to the later of itself and `other`.
    pub fn update(&mut self, other: EpochId)
        ensures
            final(self).value == if old(self).value >= other.value {
                old(self).value
            } else {
                other.value
            },
    {
        if self.value < other.value {
            self.value = other.value;
        }
    }

    /// Bumps this epoch to `to`, which must come strictly after it.
    pub fn bump(&mut self, to: EpochId)
        requires
            old(self).value < to.value,
        ensures
            *final(self) == to,
    {
        *self = to;
    }

    /// Bumps this epoch to `to`, which must not come before it.
    pub fn bump_again(&mut self, to: EpochId)
        requires
            old(self).value <= to.value,
        ensures
            *final(self) == to,
    {
        *self = to;
    }

    /// Bumps the epoch stored in `cell` to `to`, which must not come before it.
    pub fn bump_cell(cell: &mut EpochId, to: EpochId)
        requires
            old(cell).value <= to.value,
        ensures
            *final(cell) == to,
    {
        *cell = to;
    }
}

/// Monotonically incremented epoch counter.
///
/// Starts at zero; the only mutation is the increment, so every id it has
/// handed out stays at or below the current value.
pub struct EpochCounter {
    value: u64,
}

impl EpochCounter {
    /// The current tick number of this counter.
    pub closed spec fn spec_value(&self) -> u64 {
        self.value
    }

    /// Returns a new epoch counter at the starting epoch.
    pub fn new() -> (r: Self)
        ensures
            r.spec_value() == 0,
    {
        EpochCounter { value: 0 }
    }

    /// Returns the current epoch id.
    pub fn current(&self) -> (r: EpochId)
        ensures
            r.value == self.spec_value(),
    {
        EpochId { value: self.value }
    }

    /// Returns the current epoch id through exclusive access.
    pub fn current_mut(&mut self) -> (r: EpochId)
        ensures
            *final(self) == *old(self),
            r.value == old(self).spec_value(),
    {
        EpochId { value: self.value }
    }

    /// Bumps to the next epoch and returns the new epoch id.
    pub fn next_mut(&mut self) -> (r: EpochId)
        requires
            old(self).spec_value() < u64::MAX,
        ensures
            final(self).spec_value() == old(self).spec_value() + 1,
            r.value == final(self).spec_value(),
    {
        self.value = self.value + 1;
        EpochId { value: self.value }
    }
}

} // verus!
