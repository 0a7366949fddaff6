//! Two six-sided dice in one throw, packed base six.

use vstd::prelude::*;

verus! {

/// One throw of two dice, stored as a single value below 36.
#[derive(Copy, Clone, Debug, PartialEq, Eq, Structural)]
pub struct Dice(pub u8);

impl Dice {
    /// Faces per die.
    pub const N: usize = 6;

    /// Dice per throw.
    pub const P: u32 = 2;

    pub open spec fn wf(self) -> bool {
        self.0 < 36
    }

    /// A fresh throw from the thread's generator.  Whatever value comes
    /// back, the packed throw stays below 36.
    pub fn new() -> (r: Self)
        ensures
            r.wf(),
    {
        let v: usize = rand::random();
        Dice((v % (Self::N * Self::N)) as u8)
    }

    /// Rethrows in place.
    pub fn shuffle(&mut self)
        ensures
            final(self).wf(),
    {
        *self = Self::new()
    }

    pub fn raw(&self) -> (r: usize)
        ensures
            r == self.0 as int,
    {
        self.0 as usize
    }

    /// The face of die `i`, one through six.
    pub fn get(&self, i: u32) -> (r: usize)
        requires
            self.wf(),
            i < 2,
        ensures
            r == if i == 0 { self.0 as int % 6 + 1 } else { self.0 as int / 6 + 1 },
            1 <= r <= 6,
    {
        if i == 0 {
            self.raw() % 6 + 1
        } else {
            self.raw() / 6 + 1
        }
    }

    /// Both faces together: the wall-break offset.
    pub fn sum(&self) -> (r: usize)
        requires
            self.wf(),
        ensures
            r == self.0 as int % 6 + self.0 as int / 6 + 2,
            2 <= r <= 12,
    {
        self.get(0) + self.get(1)
    }
}

} // verus!
