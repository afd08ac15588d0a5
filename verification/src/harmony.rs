//! Color-harmony derivation: arithmetic complement and hue rotation.

use vstd::prelude::*;
use crate::color::{RGB, HSL};
use crate::frac::{Frac, trunc_mod, DEN_MAX};
use crate::convert::{hue_num, hue_den, sat_num, sat_den, light_num, chan_of, hsl_chan,
    lemma_chan_range, pn_of, qn_of, pq_den};

verus! {

/// The rotated hue numerator over the unchanged denominator hd: deg degrees
/// are added and the result is reduced modulo 360 degrees, keeping the sign
/// of the dividend (the semantics of floating-point remainder; a negative
/// rotation can therefore leave a negative hue).
pub open spec fn rot_num(hn: int, hd: int, deg: int) -> int {
    trunc_mod(hn + deg * hd, 360 * hd)
}

/// The color returned by rotating the hue of c by deg degrees: convert to
/// HSL, shift the hue, convert back.
pub open spec fn rotate_rgb(c: RGB, deg: int) -> RGB {
    let r = c.r as int;
    let g = c.g as int;
    let b = c.b as int;
    let hd = hue_den(r, g, b);
    let rn = rot_num(hue_num(r, g, b), hd, deg);
    let sn = sat_num(r, g, b);
    let sd = sat_den(r, g, b);
    let ln = light_num(r, g, b);
    RGB {
        r: chan_of(rn, hd, sn, sd, ln, 510, 1) as u8,
        g: chan_of(rn, hd, sn, sd, ln, 510, 0) as u8,
        b: chan_of(rn, hd, sn, sd, ln, 510, -1) as u8,
    }
}

impl RGB {
    /// The channel-wise arithmetic complement: every channel is replaced by
    /// `255 - channel`. (Deliberately not a hue-based complement.)
    pub fn complement(&self) -> (result: RGB)
        ensures
            result.r == 255 - self.r,
            result.g == 255 - self.g,
            result.b == 255 - self.b,
    {
        RGB { r: 255 - self.r, g: 255 - self.g, b: 255 - self.b }
    }

    /// Rotate the hue by `degrees`: convert to HSL, add `degrees` to the hue
    /// modulo 360 (sign of the dividend kept, as floating-point remainder
    /// does), and convert back to RGB.
    pub fn rotate_hue(&self, degrees: i64) -> (result: RGB)
        ensures
            result == rotate_rgb(*self, degrees as int),
    {
        let hsl = self.to_hsl();
        let hd: i64 = hsl.h.den;
        proof {
            crate::convert::lemma_pq_bounds(hsl.s.num as int, hsl.s.den as int, hsl.l.num as int,
                hsl.l.den as int);
            lemma_mul_i64_bound(degrees as int, hd as int);
        }
        let a: i128 = (hsl.h.num as i128) + (degrees as i128) * (hd as i128);
        let m: i128 = 360 * (hd as i128);
        let rem: i128 = if a >= 0 {
            ((a as u128) % (m as u128)) as i128
        } else {
            -((((-a) as u128) % (m as u128)) as i128)
        };
        assert(rem == trunc_mod(a as int, m as int));
        assert(-m < rem < m);
        let h2 = Frac { num: rem as i64, den: hd };
        let hsl2 = HSL { h: h2, s: hsl.s, l: hsl.l };
        assert(hsl2.wf());
        let out = hsl2.to_rgb();
        proof {
            let r = self.r as int;
            let g = self.g as int;
            let b = self.b as int;
            let sn = sat_num(r, g, b);
            let sd = sat_den(r, g, b);
            let ln = light_num(r, g, b);
            let rn = rot_num(hue_num(r, g, b), hue_den(r, g, b), degrees as int);
            assert(rn == rem as int);
            lemma_chan_range(pn_of(sn, sd, ln, 510), qn_of(sn, sd, ln, 510), pq_den(sd, 510), rn,
                hd as int, 1);
            lemma_chan_range(pn_of(sn, sd, ln, 510), qn_of(sn, sd, ln, 510), pq_den(sd, 510), rn,
                hd as int, 0);
            lemma_chan_range(pn_of(sn, sd, ln, 510), qn_of(sn, sd, ln, 510), pq_den(sd, 510), rn,
                hd as int, -1);
        }
        out
    }

    /// The input color together with its rotations by 120 and 240 degrees,
    /// in that order.
    pub fn triads(&self) -> (result: Vec<RGB>)
        ensures
            result@.len() == 3,
            result@[0] == *self,
            result@[1] == rotate_rgb(*self, 120),
            result@[2] == rotate_rgb(*self, 240),
    {
        let mut v: Vec<RGB> = Vec::new();
        v.push(*self);
        v.push(self.rotate_hue(120));
        v.push(self.rotate_hue(240));
        v
    }

    /// The input color together with its rotations by 90, 180 and 270
    /// degrees, in that order.
    pub fn tetrads(&self) -> (result: Vec<RGB>)
        ensures
            result@.len() == 4,
            result@[0] == *self,
            result@[1] == rotate_rgb(*self, 90),
            result@[2] == rotate_rgb(*self, 180),
            result@[3] == rotate_rgb(*self, 270),
    {
        let mut v: Vec<RGB> = Vec::new();
        v.push(*self);
        v.push(self.rotate_hue(90));
        v.push(self.rotate_hue(180));
        v.push(self.rotate_hue(270));
        v
    }
}

/// A 64-bit degree count times a bounded denominator stays far inside i128.
proof fn lemma_mul_i64_bound(deg: int, hd: int)
    by (nonlinear_arith)
    requires
        -0x8000000000000000 <= deg <= 0x7fffffffffffffff,
        1 <= hd <= DEN_MAX as int,
    ensures
        -(0x8000000000000000 * (DEN_MAX as int)) <= deg * hd <= 0x8000000000000000 * (
        DEN_MAX as int),
{
}

} // verus!
