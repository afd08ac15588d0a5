//! Exact conversion between RGB and HSL.
//!
//! The standard RGB->HSL formulas only ever divide channel values by small
//! integers, so hue, saturation and lightness are exact rationals. HSL->RGB
//! is likewise computed exactly and only rounds once, when a channel is
//! scaled back to [0, 255]. Every spec function below is over unbounded
//! integers; the executable code computes the same numerators and
//! denominators in `i128` and is proved free of overflow.

use vstd::prelude::*;
use vstd::arithmetic::div_mod::{lemma_fundamental_div_mod_converse_div, lemma_div_pos_is_pos,
    lemma_div_is_ordered};
use crate::color::{RGB, HSL};
use crate::frac::{Frac, DEN_MAX};

verus! {

// ----- the RGB -> HSL model -----

pub open spec fn max3(a: int, b: int, c: int) -> int {
    if a >= b && a >= c {
        a
    } else if b >= c {
        b
    } else {
        c
    }
}

pub open spec fn min3(a: int, b: int, c: int) -> int {
    if a <= b && a <= c {
        a
    } else if b <= c {
        b
    } else {
        c
    }
}

/// Hue in degrees, as the numerator over `hue_den`: the standard 60-degree
/// sector formula, picked by which channel is the maximum (red wins a tie,
/// then green), with the red sector shifted by 360 when green < blue.
pub open spec fn hue_num(r: int, g: int, b: int) -> int {
    let mx = max3(r, g, b);
    let mn = min3(r, g, b);
    let d = mx - mn;
    if d == 0 {
        0
    } else if r == mx {
        if g >= b {
            60 * (g - b)
        } else {
            60 * (g - b) + 360 * d
        }
    } else if g == mx {
        60 * (b - r) + 120 * d
    } else {
        60 * (r - g) + 240 * d
    }
}

pub open spec fn hue_den(r: int, g: int, b: int) -> int {
    let d = max3(r, g, b) - min3(r, g, b);
    if d == 0 {
        1
    } else {
        d
    }
}

/// Saturation in percent, as the numerator over `sat_den`: delta over the
/// channel sum when lightness is below one half, else over 510 minus the sum.
pub open spec fn sat_num(r: int, g: int, b: int) -> int {
    let d = max3(r, g, b) - min3(r, g, b);
    if d == 0 {
        0
    } else {
        100 * d
    }
}

pub open spec fn sat_den(r: int, g: int, b: int) -> int {
    let mx = max3(r, g, b);
    let mn = min3(r, g, b);
    if mx == mn {
        1
    } else if mx + mn < 255 {
        mx + mn
    } else {
        510 - (mx + mn)
    }
}

/// Lightness in percent over the fixed denominator 510: (max+min)/510 of one,
/// scaled by 100.
pub open spec fn light_num(r: int, g: int, b: int) -> int {
    100 * (max3(r, g, b) + min3(r, g, b))
}

// ----- the HSL -> RGB model -----
//
// With s and l normalized to [0, 1], q = l*(1+s) when l < 1/2 and
// q = l + s - l*s otherwise; p = 2*l - q. Over the percent fractions
// sn/sd and ln/ld, both q and p are fractions over the common denominator
// `pq_den` = 10000*ld*sd, with the numerators below.

pub open spec fn qn_of(sn: int, sd: int, ln: int, ld: int) -> int {
    if 2 * ln < 100 * ld {
        ln * (100 * sd + sn)
    } else {
        100 * (ln * sd + sn * ld) - ln * sn
    }
}

pub open spec fn pn_of(sn: int, sd: int, ln: int, ld: int) -> int {
    200 * (ln * sd) - qn_of(sn, sd, ln, ld)
}

pub open spec fn pq_den(sd: int, ld: int) -> int {
    10000 * (ld * sd)
}

/// Denominator of a channel's interpolation point t: the hue fraction
/// hn/(360*hd) plus a third has denominator 1080*hd.
pub open spec fn t_den(hd: int) -> int {
    1080 * hd
}

/// Numerator of t before wrapping: hn/(360*hd) + o/3 over `t_den`, where the
/// offset o is 1 for red, 0 for green, -1 for blue.
pub open spec fn t_raw(hn: int, hd: int, o: int) -> int
    recommends
        o == 1 || o == 0 || o == -1,
{
    if o == 1 {
        3 * hn + 360 * hd
    } else if o == 0 {
        3 * hn
    } else {
        3 * hn - 360 * hd
    }
}

/// One wrapping step each way: add the denominator if t is negative, then
/// subtract it if t exceeds one.
pub open spec fn t_wrap(t: int, td: int) -> int {
    let t1 = if t < 0 {
        t + td
    } else {
        t
    };
    if t1 > td {
        t1 - td
    } else {
        t1
    }
}

/// The six-piece interpolation between p and q, as a numerator over
/// `pq_den * td`: p + (q-p)*6*t below a sixth, q below a half, back down to p
/// below two thirds, p beyond.
pub open spec fn interp_num(pn: int, qn: int, t2: int, td: int) -> int {
    if 6 * t2 < td {
        pn * td + (qn - pn) * 6 * t2
    } else if 2 * t2 < td {
        qn * td
    } else if 3 * t2 < 2 * td {
        pn * td + (qn - pn) * 2 * (2 * td - 3 * t2)
    } else {
        pn * td
    }
}

/// Round n/d (d > 0) to the nearest integer, halves away from zero.
pub open spec fn round_half_away(n: int, d: int) -> int
    recommends
        d > 0,
{
    if n >= 0 {
        (2 * n + d) / (2 * d)
    } else {
        -((-(2 * n) + d) / (2 * d))
    }
}

/// Saturate to an 8-bit channel, as a cast from float to u8 does.
pub open spec fn clamp_u8(x: int) -> int {
    if x < 0 {
        0
    } else if x > 255 {
        255
    } else {
        x
    }
}

/// The channel produced from interpolation numerators pn <= qn over `dq`,
/// and a hue fraction hn/hd with channel offset o: interpolate, scale by
/// 255, round, saturate.
pub open spec fn chan_core(pn: int, qn: int, dq: int, hn: int, hd: int, o: int) -> int {
    let td = t_den(hd);
    let t2 = t_wrap(t_raw(hn, hd, o), td);
    clamp_u8(round_half_away(255 * interp_num(pn, qn, t2, td), dq * td))
}

/// The channel with offset o of the RGB color that an HSL fraction triple
/// converts to.
pub open spec fn chan_of(hn: int, hd: int, sn: int, sd: int, ln: int, ld: int, o: int) -> int {
    chan_core(pn_of(sn, sd, ln, ld), qn_of(sn, sd, ln, ld), pq_den(sd, ld), hn, hd, o)
}

pub open spec fn hsl_chan(hsl: HSL, o: int) -> int {
    chan_of(hsl.h.num as int, hsl.h.den as int, hsl.s.num as int, hsl.s.den as int,
        hsl.l.num as int, hsl.l.den as int, o)
}

// ----- shared arithmetic lemmas -----

/// |x| <= bx and |y| <= by bound the product by bx*by either way.
proof fn lemma_mul_bound(x: int, y: int, bx: int, by: int)
    by (nonlinear_arith)
    requires
        -bx <= x <= bx,
        -by <= y <= by,
        0 <= bx,
        0 <= by,
    ensures
        -(bx * by) <= x * y <= bx * by,
{
}

/// q and p lie between 0 and 1: over the common denominator `pq_den`,
/// 0 <= pn <= qn <= pq_den.
pub proof fn lemma_pq_bounds(sn: int, sd: int, ln: int, ld: int)
    requires
        1 <= sd,
        1 <= ld,
        0 <= sn <= 100 * sd,
        0 <= ln <= 100 * ld,
    ensures
        0 <= pn_of(sn, sd, ln, ld),
        pn_of(sn, sd, ln, ld) <= qn_of(sn, sd, ln, ld),
        qn_of(sn, sd, ln, ld) <= pq_den(sd, ld),
{
    let qn = qn_of(sn, sd, ln, ld);
    let pn = pn_of(sn, sd, ln, ld);
    if 2 * ln < 100 * ld {
        assert(pn == ln * (100 * sd - sn) && qn - pn == 2 * (ln * sn)) by (nonlinear_arith)
            requires
                qn == ln * (100 * sd + sn),
                pn == 200 * (ln * sd) - qn,
        ;
        assert(0 <= pn) by (nonlinear_arith)
            requires
                pn == ln * (100 * sd - sn),
                0 <= ln,
                sn <= 100 * sd,
        ;
        assert(0 <= 2 * (ln * sn)) by (nonlinear_arith)
            requires
                0 <= ln,
                0 <= sn,
        ;
        assert(qn <= 10000 * (ld * sd)) by (nonlinear_arith)
            requires
                qn == ln * (100 * sd + sn),
                2 * ln < 100 * ld,
                0 <= ln,
                0 <= sn <= 100 * sd,
                1 <= sd,
        ;
    } else {
        assert(pn == 100 * (ln * sd) - 100 * (sn * ld) + ln * sn && qn - pn == 2 * (sn * (100 * ld
            - ln))) by (nonlinear_arith)
            requires
                qn == 100 * (ln * sd + sn * ld) - ln * sn,
                pn == 200 * (ln * sd) - qn,
        ;
        assert(0 <= pn) by (nonlinear_arith)
            requires
                pn == 100 * (ln * sd) - 100 * (sn * ld) + ln * sn,
                100 * ld <= 2 * ln,
                ln <= 100 * ld,
                0 <= sn <= 100 * sd,
                0 <= ln,
        ;
        assert(0 <= 2 * (sn * (100 * ld - ln))) by (nonlinear_arith)
            requires
                0 <= sn,
                ln <= 100 * ld,
        ;
        assert(qn <= 10000 * (ld * sd)) by (nonlinear_arith)
            requires
                qn == 100 * (ln * sd + sn * ld) - ln * sn,
                0 <= ln <= 100 * ld,
                0 <= sn <= 100 * sd,
        ;
    }
}

/// The interpolated numerator never exceeds qn * td.
proof fn lemma_interp_le(pn: int, qn: int, t2: int, td: int)
    requires
        td > 0,
        0 <= pn <= qn,
    ensures
        interp_num(pn, qn, t2, td) <= qn * td,
{
    let cn = interp_num(pn, qn, t2, td);
    if 6 * t2 < td {
        assert(cn <= qn * td) by (nonlinear_arith)
            requires
                cn == pn * td + (qn - pn) * 6 * t2,
                6 * t2 < td,
                0 <= pn <= qn,
                td > 0,
        ;
    } else if 2 * t2 < td {
    } else if 3 * t2 < 2 * td {
        assert(cn <= qn * td) by (nonlinear_arith)
            requires
                cn == pn * td + (qn - pn) * 2 * (2 * td - 3 * t2),
                td <= 2 * t2,
                3 * t2 < 2 * td,
                0 <= pn <= qn,
                td > 0,
        ;
    } else {
        assert(pn * td <= qn * td) by (nonlinear_arith)
            requires
                0 <= pn <= qn,
                td > 0,
        ;
    }
}

/// When 255 times the interpolated value is exactly v * dd for a channel
/// value v, rounding and saturation return exactly v.
pub proof fn lemma_chan_exact(pn: int, qn: int, dq: int, hn: int, hd: int, o: int, v: int)
    requires
        hd >= 1,
        dq >= 1,
        0 <= v <= 255,
        255 * interp_num(pn, qn, t_wrap(t_raw(hn, hd, o), t_den(hd)), t_den(hd)) == v * (dq
            * t_den(hd)),
    ensures
        chan_core(pn, qn, dq, hn, hd, o) == v,
{
    let td = t_den(hd);
    assert(dq * (1080 * hd) >= 1) by (nonlinear_arith)
        requires
            dq >= 1,
            hd >= 1,
    ;
    let dd = dq * td;
    assert(dd >= 1);
    let n = 255 * interp_num(pn, qn, t_wrap(t_raw(hn, hd, o), td), td);
    assert(n == v * dd);
    assert(n >= 0) by (nonlinear_arith)
        requires
            n == v * dd,
            v >= 0,
            dd >= 1,
    ;
    assert(2 * n + dd == v * (2 * dd) + dd) by (nonlinear_arith)
        requires
            n == v * dd,
    ;
    lemma_fundamental_div_mod_converse_div(2 * n + dd, 2 * dd, v, dd);
    assert(round_half_away(n, dd) == v);
}

/// A converted channel is always a valid 8-bit value.
pub proof fn lemma_chan_range(pn: int, qn: int, dq: int, hn: int, hd: int, o: int)
    ensures
        0 <= chan_core(pn, qn, dq, hn, hd, o) <= 255,
{
}

// ----- executable conversions -----

impl RGB {
    /// Convert to HSL. The result is the exact rational value of the
    /// standard formulas: no rounding happens in this direction.
    pub fn to_hsl(&self) -> (result: HSL)
        ensures
            result.h.num == hue_num(self.r as int, self.g as int, self.b as int),
            result.h.den == hue_den(self.r as int, self.g as int, self.b as int),
            result.s.num == sat_num(self.r as int, self.g as int, self.b as int),
            result.s.den == sat_den(self.r as int, self.g as int, self.b as int),
            result.l.num == light_num(self.r as int, self.g as int, self.b as int),
            result.l.den == 510,
            result.wf(),
            0 <= result.h.num,
    {
        let r = self.r as i64;
        let g = self.g as i64;
        let b = self.b as i64;
        let mx = if r >= g && r >= b {
            r
        } else if g >= b {
            g
        } else {
            b
        };
        let mn = if r <= g && r <= b {
            r
        } else if g <= b {
            g
        } else {
            b
        };
        let d = mx - mn;
        let l = Frac { num: 100 * (mx + mn), den: 510 };
        if d == 0 {
            HSL { h: Frac { num: 0, den: 1 }, s: Frac { num: 0, den: 1 }, l }
        } else {
            let s = if mx + mn < 255 {
                Frac { num: 100 * d, den: mx + mn }
            } else {
                Frac { num: 100 * d, den: 510 - (mx + mn) }
            };
            let h = if r == mx {
                if g >= b {
                    Frac { num: 60 * (g - b), den: d }
                } else {
                    Frac { num: 60 * (g - b) + 360 * d, den: d }
                }
            } else if g == mx {
                Frac { num: 60 * (b - r) + 120 * d, den: d }
            } else {
                Frac { num: 60 * (r - g) + 240 * d, den: d }
            };
            HSL { h, s, l }
        }
    }
}

/// One channel of the HSL -> RGB conversion, over the already-computed
/// numerators pn <= qn (common denominator dq) and the hue fraction hn/hd.
fn channel_exec(pn: i128, qn: i128, dq: i128, hn: i128, hd: i128, o: i64) -> (c: u8)
    requires
        1 <= hd <= DEN_MAX as int,
        1 <= dq <= 10000 * (DEN_MAX as int) * (DEN_MAX as int),
        0 <= pn <= qn <= dq,
        -360 * hd < hn < 360 * hd,
        o == 1 || o == 0 || o == -1,
    ensures
        c as int == chan_core(pn as int, qn as int, dq as int, hn as int, hd as int, o as int),
{
    let td: i128 = 1080 * hd;
    let off: i128 = if o == 1 {
        360 * hd
    } else if o == 0 {
        0
    } else {
        -(360 * hd)
    };
    let t0: i128 = 3 * hn + off;
    let t1: i128 = if t0 < 0 {
        t0 + td
    } else {
        t0
    };
    let t2: i128 = if t1 > td {
        t1 - td
    } else {
        t1
    };
    assert(t2 == t_wrap(t_raw(hn as int, hd as int, o as int), t_den(hd as int)));
    assert(-td <= t2 <= td);
    proof {
        lemma_mul_bound(pn as int, td as int, 10000 * (DEN_MAX as int) * (DEN_MAX as int),
            1080 * (DEN_MAX as int));
        lemma_mul_bound(qn as int, td as int, 10000 * (DEN_MAX as int) * (DEN_MAX as int),
            1080 * (DEN_MAX as int));
        lemma_mul_bound((qn - pn) * 6 as int, t2 as int,
            60000 * (DEN_MAX as int) * (DEN_MAX as int), 1080 * (DEN_MAX as int));
        lemma_mul_bound((qn - pn) * 2 as int, (2 * td - 3 * t2) as int,
            20000 * (DEN_MAX as int) * (DEN_MAX as int), 5400 * (DEN_MAX as int));
    }
    let cn: i128 = if 6 * t2 < td {
        pn * td + (qn - pn) * 6 * t2
    } else if 2 * t2 < td {
        qn * td
    } else if 3 * t2 < 2 * td {
        pn * td + (qn - pn) * 2 * (2 * td - 3 * t2)
    } else {
        pn * td
    };
    assert(cn == interp_num(pn as int, qn as int, t2 as int, td as int));
    proof {
        lemma_interp_le(pn as int, qn as int, t2 as int, td as int);
        lemma_mul_bound(dq as int, td as int, 10000 * (DEN_MAX as int) * (DEN_MAX as int),
            1080 * (DEN_MAX as int));
        assert(qn * td <= dq * td) by (nonlinear_arith)
            requires
                qn <= dq,
                td > 0,
        ;
    }
    let dd: i128 = dq * td;
    proof {
        assert((dq as int) * (td as int) >= 1080) by (nonlinear_arith)
            requires
                dq >= 1,
                td >= 1080,
        ;
    }
    if cn <= 0 {
        proof {
            let nn = 255 * (cn as int);
            if nn >= 0 {
                assert(cn == 0);
                lemma_fundamental_div_mod_converse_div(dd as int, 2 * (dd as int), 0, dd as int);
            } else {
                lemma_div_pos_is_pos(-(2 * nn) + dd, 2 * (dd as int));
            }
            assert(clamp_u8(round_half_away(nn, dd as int)) == 0);
        }
        0u8
    } else {
        let num: i128 = 510 * cn + dd;
        let den: i128 = 2 * dd;
        let q128: u128 = (num as u128) / (den as u128);
        proof {
            assert(255 * (cn as int) <= 255 * (dd as int)) by (nonlinear_arith)
                requires
                    cn <= dd,
            ;
            assert(num as int == 2 * (255 * (cn as int)) + dd);
            lemma_div_is_ordered(num as int, 511 * (dd as int), den as int);
            lemma_fundamental_div_mod_converse_div(511 * (dd as int), 2 * (dd as int), 255,
                dd as int);
            lemma_div_pos_is_pos(num as int, den as int);
            assert(q128 as int == round_half_away(255 * (cn as int), dd as int));
            assert(q128 <= 255);
        }
        q128 as u8
    }
}

impl HSL {
    /// Convert to RGB: interpolate each channel exactly, scale to [0, 255],
    /// round to the nearest integer (halves away from zero) and saturate.
    pub fn to_rgb(&self) -> (result: RGB)
        requires
            self.wf(),
        ensures
            result.r as int == hsl_chan(*self, 1),
            result.g as int == hsl_chan(*self, 0),
            result.b as int == hsl_chan(*self, -1),
    {
        let hn = self.h.num as i128;
        let hd = self.h.den as i128;
        let sn = self.s.num as i128;
        let sd = self.s.den as i128;
        let ln = self.l.num as i128;
        let ld = self.l.den as i128;
        let sum_s: i128 = 100 * sd + sn;
        proof {
            lemma_mul_bound(ln as int, sum_s as int, 100 * (DEN_MAX as int),
                200 * (DEN_MAX as int));
            lemma_mul_bound(ln as int, sd as int, 100 * (DEN_MAX as int), DEN_MAX as int);
            lemma_mul_bound(sn as int, ld as int, 100 * (DEN_MAX as int), DEN_MAX as int);
            lemma_mul_bound(ln as int, sn as int, 100 * (DEN_MAX as int), 100 * (DEN_MAX as int));
            lemma_mul_bound(ld as int, sd as int, DEN_MAX as int, DEN_MAX as int);
        }
        let ls: i128 = ln * sd;
        let sl: i128 = sn * ld;
        let lsn: i128 = ln * sn;
        let dls: i128 = ld * sd;
        let qn: i128 = if 2 * ln < 100 * ld {
            ln * sum_s
        } else {
            100 * (ls + sl) - lsn
        };
        let pn: i128 = 200 * ls - qn;
        let dq: i128 = 10000 * dls;
        proof {
            assert(qn == qn_of(sn as int, sd as int, ln as int, ld as int));
            assert(pn == pn_of(sn as int, sd as int, ln as int, ld as int));
            assert(dq == pq_den(sd as int, ld as int));
            lemma_pq_bounds(sn as int, sd as int, ln as int, ld as int);
            assert(dq >= 10000) by (nonlinear_arith)
                requires
                    ld >= 1,
                    sd >= 1,
                    dq == 10000 * ((ld as int) * (sd as int)),
            ;
        }
        let r = channel_exec(pn, qn, dq, hn, hd, 1);
        let g = channel_exec(pn, qn, dq, hn, hd, 0);
        let b = channel_exec(pn, qn, dq, hn, hd, -1);
        RGB { r, g, b }
    }
}

} // verus!
