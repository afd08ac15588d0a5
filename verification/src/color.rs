//! The two color value types: 8-bit sRGB and rational HSL.

use vstd::prelude::*;
use crate::frac::Frac;

verus! {

/// An sRGB color: three 8-bit channels.
#[derive(Clone, Copy, Debug, PartialEq, Eq, Structural)]
pub struct RGB {
    pub r: u8,
    pub g: u8,
    pub b: u8,
}

/// A color in the HSL cylinder: hue in degrees, saturation and lightness in
/// percent, each held as an exact rational.
#[derive(Clone, Copy, Debug, PartialEq, Eq, Structural)]
pub struct HSL {
    pub h: Frac,
    pub s: Frac,
    pub l: Frac,
}

impl HSL {
    /// A valid HSL value: hue strictly between -360 and 360 degrees (hue
    /// rotation by a negative angle may leave a negative hue, which
    /// conversion accepts), saturation and lightness in [0, 100] percent.
    pub open spec fn wf(self) -> bool {
        &&& self.h.wf()
        &&& self.s.wf()
        &&& self.l.wf()
        &&& -360 * self.h.den < self.h.num < 360 * self.h.den
        &&& 0 <= self.s.num <= 100 * self.s.den
        &&& 0 <= self.l.num <= 100 * self.l.den
    }
}

} // verus!
