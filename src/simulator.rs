//! The system clock shared by every ticking component.
use vstd::prelude::*;

verus! {

/// Monotone cycle counter, starting at zero.
pub struct Simulator {
    current_cycle: i64,
}

impl Simulator {
    pub closed spec fn cycle(&self) -> int {
        self.current_cycle as int
    }

    pub fn new() -> (r: Simulator)
        ensures
            r.cycle() == 0,
    {
        Simulator { current_cycle: 0 }
    }

    pub fn now(&self) -> (r: i64)
        ensures
            r == self.cycle(),
    {
        self.current_cycle
    }

    /// Advances the clock by one cycle.
    pub fn tick(&mut self)
        requires
            old(self).cycle() < i64::MAX,
        ensures
            final(self).cycle() == old(self).cycle() + 1,
    {
        self.current_cycle = self.current_cycle + 1;
    }
}

} // verus!
