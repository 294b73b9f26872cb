//! Quarter turns of values laid out on a grid.
use vstd::prelude::*;

verus! {

pub trait RotateCounterClockwise: Sized {
    spec fn spec_rotate_counter_clockwise(&self) -> Self;

    /// The value turned a quarter counter-clockwise.
    fn rotate_counter_clockwise(&self) -> (r: Self)
        ensures
            r == self.spec_rotate_counter_clockwise(),
    ;
}

pub trait RotateClockwise: Sized {
    spec fn spec_rotate_clockwise(&self) -> Self;

    /// The value turned a quarter clockwise.
    fn rotate_clockwise(&self) -> (r: Self)
        ensures
            r == self.spec_rotate_clockwise(),
    ;
}

} // verus!
