use vstd::prelude::*;

verus! {

/// A guess in the game, always between 1 and 100.
#[derive(Debug)]
pub struct Guess {
    value: i32,
}

impl Guess {
    pub closed spec fn spec_value(&self) -> i32 {
        self.value
    }

    /// A guess of `value`, which must lie between 1 and 100.
    pub fn new(value: i32) -> (r: Guess)
        requires
            1 <= value <= 100,
        ensures
            r.spec_value() == value,
    {
        Guess { value }
    }

    /// The guessed number.
    pub fn value(&self) -> (r: i32)
        ensures
            r == self.spec_value(),
    {
        self.value
    }
}

} // verus!
