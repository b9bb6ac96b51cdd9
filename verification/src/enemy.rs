//! The count of what a wave has sent onto the field.

use vstd::prelude::*;

verus! {

/// Counts the enemies of a wave against the most it may send.
#[derive(Debug, Clone, Copy)]
pub struct SpawnCounter {
    pub current: u32,
    pub max: u32,
}

impl SpawnCounter {
    /// Whether the wave may send one more.
    pub fn can_spawn(&self) -> (more: bool)
        ensures
            more == (self.current < self.max),
    {
        self.current < self.max
    }

    /// A counter that has counted nothing yet.
    pub fn new(max: u32) -> (counter: Self)
        ensures
            counter.current == 0,
            counter.max == max,
    {
        Self { current: 0, max }
    }
}

} // verus!
