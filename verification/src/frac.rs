//! Exact rational numbers with a bounded representation.
//!
//! Hue, saturation and lightness are rationals (the conversion formulas only
//! ever divide by small integers), so the color math is carried out exactly:
//! no floating point, and conversion proofs go through without tolerance.

use vstd::prelude::*;

verus! {

/// Largest denominator a well-formed fraction may carry. Conversions produce
/// denominators of at most 510; the bound exists so that the intermediate
/// products of `HSL::to_rgb` provably fit in `i128`.
pub const DEN_MAX: i64 = 268435456;

/// A rational number `num / den`. Not kept in lowest terms; two fractions are
/// the same value when they cross-multiply equal.
#[derive(Clone, Copy, Debug, PartialEq, Eq, Structural)]
pub struct Frac {
    pub num: i64,
    pub den: i64,
}

impl Frac {
    /// A representable fraction: positive denominator, bounded so that
    /// arithmetic over it stays within machine integers.
    pub open spec fn wf(self) -> bool {
        1 <= self.den <= DEN_MAX
    }
}

/// Remainder with the sign of the dividend (the semantics of `%` on machine
/// integers), as opposed to the always-nonnegative spec-level `%`.
pub open spec fn trunc_mod(a: int, m: int) -> int
    recommends
        m > 0,
{
    if a >= 0 {
        a % m
    } else {
        -((-a) % m)
    }
}

} // verus!
