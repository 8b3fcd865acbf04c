use vstd::prelude::*;

verus! {

/// A relative movement step, from the perspective of the white side moving
/// toward positive `y`; black uses the inverted step.
#[derive(Clone, Copy, PartialEq, Eq, Structural, Debug)]
pub struct Move {
    pub x: i8,
    pub y: i8,
}

impl Move {
    /// The step as a pair of mathematical integers.
    pub open spec fn d(self) -> (int, int) {
        (self.x as int, self.y as int)
    }

    /// The opposite step.
    pub fn invert(&self) -> (r: Move)
        requires
            self.x > i8::MIN,
            self.y > i8::MIN,
        ensures
            r.d() == (-self.x as int, -self.y as int),
    {
        Move { x: -self.x, y: -self.y }
    }
}

} // verus!
