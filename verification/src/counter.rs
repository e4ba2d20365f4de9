//! A monotonic generator of innovation numbers. One instance serves a whole
//! evolutionary run for each gene kind, so that structurally distinct
//! mutations never share a marker.

use vstd::prelude::*;

verus! {

/// Issues strictly increasing innovation numbers, starting at 1.
pub struct Counter {
    pub current_innovation: i32,
}

impl Counter {
    pub fn new() -> (c: Counter)
        ensures
            c.current_innovation == 0,
    {
        Self { current_innovation: 0 }
    }

    /// Advances the counter and returns the fresh innovation number.
    /// Each returned value is one above every value returned before, so the
    /// numbers of one counter strictly increase and never repeat.
    pub fn get_innovation(&mut self) -> (r: i32)
        requires
            old(self).current_innovation < i32::MAX,
        ensures
            r == old(self).current_innovation + 1,
            final(self).current_innovation == r,
    {
        self.current_innovation = self.current_innovation + 1;
        self.current_innovation
    }

    /// Reads the current innovation number without advancing it.
    pub fn load_innovation(&mut self) -> (r: i32)
        ensures
            r == old(self).current_innovation,
            *final(self) == *old(self),
    {
        self.current_innovation
    }
}

} // verus!
