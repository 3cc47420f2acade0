//! The memory of the last press, for hold-tap keys that are pressed again.
use vstd::prelude::*;

verus! {

/// Which key was pressed last, and for how long pressing it once more is a tap.
#[derive(Copy, Clone)]
pub struct TapHoldTracker {
    /// The key that was pressed last.
    pub coord: (u8, u8),
    /// The number of ticks that are left.
    pub timeout: u16,
}

impl Default for TapHoldTracker {
    fn default() -> (tracker: Self)
        ensures
            tracker == (TapHoldTracker { coord: (0, 0), timeout: 0 }),
    {
        TapHoldTracker { coord: (0, 0), timeout: 0 }
    }
}

impl TapHoldTracker {
    /// The tracker one tick later.
    pub open spec fn ticked(self) -> Self {
        TapHoldTracker {
            coord: self.coord,
            timeout: if self.timeout > 0 {
                (self.timeout - 1) as u16
            } else {
                0
            },
        }
    }

    /// Lets one tick pass.
    pub fn tick(&mut self)
        ensures
            *final(self) == old(self).ticked(),
    {
        self.timeout = self.timeout.saturating_sub(1);
    }
}

} // verus!
