//! The numbers of a wave.

use vstd::prelude::*;

use crate::enemy::SpawnCounter;

verus! {

/// The number of the wave being played, counted from zero.
#[derive(Debug, Clone, Copy, PartialEq, Eq, Structural)]
pub struct Wave(pub u32);

impl Wave {
    /// How many enemies the wave sends: twenty, and five more for every
    /// wave before it.
    pub open spec fn enemies(self) -> int {
        20 + self.0 * 5
    }

    /// The counter a wave starts with.
    pub fn spawn_counter(&self) -> (counter: SpawnCounter)
        requires
            self.enemies() <= u32::MAX,
        ensures
            counter.current == 0,
            counter.max == self.enemies(),
    {
        SpawnCounter::new(20 + self.0 * 5)
    }

    /// The gold an enemy of the wave carries, for a `roll` of the die.
    pub fn enemy_gold(&self, roll: u32) -> (gold: u32)
        requires
            self.0 < u32::MAX,
            roll * (self.0 + 1) <= u32::MAX,
        ensures
            gold == roll * (self.0 + 1),
    {
        roll * (self.0 + 1)
    }

    /// The wave after this one.
    pub fn next(&self) -> (wave: Wave)
        requires
            self.0 < u32::MAX,
        ensures
            wave.0 == self.0 + 1,
    {
        Wave(self.0 + 1)
    }
}

/// Whether a wave is over: it has sent all it may and none of it is left
/// alive, or no player is.
pub fn wave_done(spawn: &SpawnCounter, enemies_alive: usize, player_alive: bool) -> (done: bool)
    ensures
        done == ((spawn.current >= spawn.max && enemies_alive == 0) || !player_alive),
{
    (!spawn.can_spawn() && enemies_alive == 0) || !player_alive
}

} // verus!
