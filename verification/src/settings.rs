//! The parameters of one benchmark scenario.

use vstd::prelude::*;

verus! {

/// One scenario: how many items to generate, the half-open range their sizes
/// are drawn from, and the capacity of every container.
#[derive(Clone, Copy, Debug, PartialEq, Eq, Structural)]
pub struct Settings {
    pub item_size_min: u32,
    pub item_size_max: u32,
    pub item_limit: u32,
    pub container_size: u32,
}

impl Settings {
    /// Sizes can be drawn and containers have room: the size range is not
    /// empty and the capacity is not zero. An upper bound above the capacity
    /// is tolerated, since a draw that would overflow is cut down to the
    /// free space.
    pub open spec fn valid(&self) -> bool {
        &&& self.item_size_min < self.item_size_max
        &&& self.container_size > 0
    }

    /// Decides [`Settings::valid`].
    pub fn is_valid(&self) -> (ok: bool)
        ensures
            ok == self.valid(),
    {
        self.item_size_min < self.item_size_max && self.container_size > 0
    }
}

} // verus!
