//! Deterministic pseudo-random number stream.

use vstd::prelude::*;

verus! {

/// The state that follows `state` in the generator's sequence.
pub open spec fn lcg_step(state: u32) -> u32 {
    ((state as int * 1664525 + 1013904223) % 0x1_0000_0000) as u32
}

/// The value that `next_range(min, max)` yields when the generator's next
/// state is `next_state`.
pub open spec fn range_value(next_state: u32, min: int, max: int) -> int {
    min + (next_state as int) % (max - min)
}

/// A linear congruential generator over 32-bit states.
pub struct SeededRng {
    pub state: u32,
}

impl SeededRng {
    pub fn new(seed: u32) -> (rng: SeededRng)
        ensures
            rng.state == seed,
    {
        SeededRng { state: seed }
    }

    /// Advances the state and returns it.
    pub fn next(&mut self) -> (value: u32)
        ensures
            final(self).state == lcg_step(old(self).state),
            value == final(self).state,
    {
        let scaled: u64 = (self.state as u64) * 1664525u64;
        let wide: u64 = scaled + 1013904223u64;
        let reduced: u64 = wide % 0x1_0000_0000u64;
        self.state = reduced as u32;
        self.state
    }

    /// A value in `[min, max)`; `min` itself, with the state untouched, when
    /// the interval is empty.
    pub fn next_range(&mut self, min: i32, max: i32) -> (value: i32)
        ensures
            min >= max ==> value == min && final(self).state == old(self).state,
            min < max ==> final(self).state == lcg_step(old(self).state),
            min < max ==> value == range_value(final(self).state, min as int, max as int),
            min < max ==> min <= value < max,
    {
        if min >= max {
            return min;
        }
        let range: i64 = max as i64 - min as i64;
        let raw: u32 = self.next();
        let offset: i64 = (raw as i64) % range;
        (min as i64 + offset) as i32
    }

    /// True when the next state is even.
    pub fn next_bool(&mut self) -> (value: bool)
        ensures
            final(self).state == lcg_step(old(self).state),
            value == (final(self).state % 2 == 0),
    {
        self.next() % 2 == 0
    }
}

} // verus!
