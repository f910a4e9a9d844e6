//! Embedded-curve points whose coordinates are composer witnesses.

use vstd::prelude::*;

use crate::witness::Witness;

verus! {

/// A point of the embedded curve, held as its two affine coordinate
/// witnesses.
#[derive(Debug, Clone, Copy, PartialEq, Eq)]
pub struct WitnessPoint {
    x: Witness,
    y: Witness,
}

impl WitnessPoint {
    /// The `x` coordinate witness.
    pub closed spec fn spec_x(&self) -> Witness {
        self.x
    }

    /// The `y` coordinate witness.
    pub closed spec fn spec_y(&self) -> Witness {
        self.y
    }

    /// The point with coordinate witnesses `x` and `y`; nothing constrains
    /// them to lie on the curve.
    pub fn new(x: Witness, y: Witness) -> (r: WitnessPoint)
        ensures
            r.spec_x() == x,
            r.spec_y() == y,
    {
        WitnessPoint { x, y }
    }

    /// The `x` coordinate witness.
    pub fn x(&self) -> (r: Witness)
        ensures
            r == self.spec_x(),
    {
        self.x
    }

    /// The `y` coordinate witness.
    pub fn y(&self) -> (r: Witness)
        ensures
            r == self.spec_y(),
    {
        self.y
    }
}

} // verus!
