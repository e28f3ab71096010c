//! Splitter enemies: die into two smaller copies until the last generation.
use vstd::prelude::*;

verus! {

/// Generation bookkeeping of a splitter enemy.
#[derive(Debug, Clone, Copy, PartialEq, Eq, Structural)]
pub struct SplitterData {
    pub current_generation: u8,
    pub max_generation: u8,
}

/// Number of children a splitter leaves when it splits.
pub const SPLIT_CHILD_COUNT: u8 = 2;

impl SplitterData {
    /// A first-generation splitter that may split `max_generation` times.
    pub fn new(max_generation: u8) -> (s: SplitterData)
        ensures
            s.current_generation == 0,
            s.max_generation == max_generation,
    {
        SplitterData { current_generation: 0, max_generation }
    }

    /// The data of this splitter's children: one generation further on.
    pub fn next_generation(&self) -> (s: SplitterData)
        requires
            self.current_generation < u8::MAX,
        ensures
            s.current_generation == self.current_generation + 1,
            s.max_generation == self.max_generation,
    {
        SplitterData { current_generation: self.current_generation + 1, max_generation: self.max_generation }
    }

    /// Whether this splitter splits into children when it dies: only before
    /// its last generation.
    pub fn splits_on_death(&self) -> (r: bool)
        ensures
            r == (self.current_generation < self.max_generation),
    {
        self.current_generation < self.max_generation
    }
}

} // verus!
