//! Library-wide laws.
//!
//! The central one: converting any RGB color to HSL and back reproduces the
//! color exactly. Both conversions are exact rational arithmetic and the
//! standard formulas are mutual inverses, so the one rounding step at the
//! end of `to_rgb` receives an integer and returns it unchanged.

use vstd::prelude::*;
use vstd::arithmetic::div_mod::lemma_fundamental_div_mod;
use crate::color::{RGB, HSL};
use crate::convert::{max3, min3, hue_num, hue_den, sat_num, sat_den, light_num, qn_of, pn_of,
    pq_den, t_den, t_raw, t_wrap, interp_num, chan_of, hsl_chan, lemma_pq_bounds,
    lemma_chan_exact};
use crate::harmony::rot_num;

verus! {

/// The hue produced for element k of a tetrad: the base hue for the input
/// color itself, then rotations by 90*k degrees.
pub open spec fn tetrad_hue_num(c: RGB, k: int) -> int {
    let hn = hue_num(c.r as int, c.g as int, c.b as int);
    let hd = hue_den(c.r as int, c.g as int, c.b as int);
    if k == 0 {
        hn
    } else {
        rot_num(hn, hd, 90 * k)
    }
}

/// The channel with offset o that comes back after converting (r, g, b) to
/// HSL and converting the result straight back to RGB.
pub open spec fn chan_rt(r: int, g: int, b: int, o: int) -> int {
    chan_of(hue_num(r, g, b), hue_den(r, g, b), sat_num(r, g, b), sat_den(r, g, b),
        light_num(r, g, b), 510, o)
}

// ----- p and q recover min and max -----

/// For a chromatic color, q and p of the backward conversion are exactly
/// max/255 and min/255: over the common denominator, 255*qn == max*dq and
/// 255*pn == min*dq.
proof fn lemma_pq_exact(r: int, g: int, b: int)
    requires
        0 <= r <= 255,
        0 <= g <= 255,
        0 <= b <= 255,
        max3(r, g, b) != min3(r, g, b),
    ensures
        255 * qn_of(sat_num(r, g, b), sat_den(r, g, b), light_num(r, g, b), 510) == max3(r, g, b)
            * pq_den(sat_den(r, g, b), 510),
        255 * pn_of(sat_num(r, g, b), sat_den(r, g, b), light_num(r, g, b), 510) == min3(r, g, b)
            * pq_den(sat_den(r, g, b), 510),
{
    let mx = max3(r, g, b);
    let mn = min3(r, g, b);
    let sn = sat_num(r, g, b);
    let sd = sat_den(r, g, b);
    let ln = light_num(r, g, b);
    let qn = qn_of(sn, sd, ln, 510);
    let pn = pn_of(sn, sd, ln, 510);
    let dq = pq_den(sd, 510);
    if mx + mn < 255 {
        assert(255 * qn == mx * dq) by (nonlinear_arith)
            requires
                qn == ln * (100 * sd + sn),
                ln == 100 * (mx + mn),
                sn == 100 * (mx - mn),
                sd == mx + mn,
                dq == 10000 * (510 * sd),
        ;
        assert(255 * pn == mn * dq) by (nonlinear_arith)
            requires
                pn == 200 * (ln * sd) - qn,
                255 * qn == mx * dq,
                ln == 100 * (mx + mn),
                sd == mx + mn,
                dq == 10000 * (510 * sd),
        ;
    } else {
        assert(255 * qn == mx * dq) by (nonlinear_arith)
            requires
                qn == 100 * (ln * sd + sn * 510) - ln * sn,
                ln == 100 * (mx + mn),
                sn == 100 * (mx - mn),
                sd == 510 - (mx + mn),
                dq == 10000 * (510 * sd),
        ;
        assert(255 * pn == mn * dq) by (nonlinear_arith)
            requires
                pn == 200 * (ln * sd) - qn,
                255 * qn == mx * dq,
                ln == 100 * (mx + mn),
                sd == 510 - (mx + mn),
                dq == 10000 * (510 * sd),
        ;
    }
}

// ----- the interpolation recovers each channel -----

/// Interpolation landed on q.
proof fn lemma_chan_b2(qn: int, dq: int, td: int, v: int)
    by (nonlinear_arith)
    requires
        255 * qn == v * dq,
    ensures
        255 * (qn * td) == v * (dq * td),
{
}

/// Interpolation landed on p.
proof fn lemma_chan_b4(pn: int, dq: int, td: int, v: int)
    by (nonlinear_arith)
    requires
        255 * pn == v * dq,
    ensures
        255 * (pn * td) == v * (dq * td),
{
}

/// Both sides of an equation can be multiplied by the same factor.
proof fn lemma_mul_eq(a: int, b: int, c: int)
    by (nonlinear_arith)
    requires
        a == b,
    ensures
        a * c == b * c,
{
}

/// Interpolation on the rising edge: p + (q-p)*6*t.
proof fn lemma_chan_b1(pn: int, qn: int, dq: int, td: int, t2: int, mn: int, mx: int, v: int)
    requires
        255 * pn == mn * dq,
        255 * qn == mx * dq,
        mn * td + (mx - mn) * (6 * t2) == v * td,
    ensures
        255 * (pn * td + (qn - pn) * 6 * t2) == v * (dq * td),
{
    lemma_mul_eq(mn * td + (mx - mn) * (6 * t2), v * td, dq);
    assert(255 * (pn * td + (qn - pn) * 6 * t2) == (mn * td + (mx - mn) * (6 * t2)) * dq)
        by (nonlinear_arith)
        requires
            255 * pn == mn * dq,
            255 * qn == mx * dq,
    ;
    assert((v * td) * dq == v * (dq * td)) by (nonlinear_arith);
}

/// Interpolation on the falling edge: p + (q-p)*(2/3 - t)*6.
proof fn lemma_chan_b3(pn: int, qn: int, dq: int, td: int, t2: int, mn: int, mx: int, v: int)
    requires
        255 * pn == mn * dq,
        255 * qn == mx * dq,
        mn * td + (mx - mn) * (2 * (2 * td - 3 * t2)) == v * td,
    ensures
        255 * (pn * td + (qn - pn) * 2 * (2 * td - 3 * t2)) == v * (dq * td),
{
    lemma_mul_eq(mn * td + (mx - mn) * (2 * (2 * td - 3 * t2)), v * td, dq);
    assert(255 * (pn * td + (qn - pn) * 2 * (2 * td - 3 * t2)) == (mn * td + (mx - mn) * (2 * (2
        * td - 3 * t2))) * dq) by (nonlinear_arith)
        requires
            255 * pn == mn * dq,
            255 * qn == mx * dq,
    ;
    assert((v * td) * dq == v * (dq * td)) by (nonlinear_arith);
}

// ----- the three chromatic cases -----

/// Red is the maximum channel.
proof fn lemma_rt_rmax(r: int, g: int, b: int)
    requires
        0 <= r <= 255,
        0 <= g <= 255,
        0 <= b <= 255,
        max3(r, g, b) != min3(r, g, b),
        r == max3(r, g, b),
    ensures
        chan_rt(r, g, b, 1) == r,
        chan_rt(r, g, b, 0) == g,
        chan_rt(r, g, b, -1) == b,
{
    let mx = max3(r, g, b);
    let mn = min3(r, g, b);
    let d = mx - mn;
    let hn = hue_num(r, g, b);
    let hd = hue_den(r, g, b);
    let sn = sat_num(r, g, b);
    let sd = sat_den(r, g, b);
    let ln = light_num(r, g, b);
    let qn = qn_of(sn, sd, ln, 510);
    let pn = pn_of(sn, sd, ln, 510);
    let dq = pq_den(sd, 510);
    let td = t_den(hd);
    lemma_pq_exact(r, g, b);
    assert(hd == d && td == 1080 * d && 1 <= d);
    assert(dq >= 1);
    if g >= b {
        assert(mn == b && hn == 60 * (g - b) && 0 <= g - b <= d);
        // red: t = h + 1/3 stays in the flat q region (or its right edge)
        let t2r = t_wrap(t_raw(hn, hd, 1), td);
        assert(t2r == 180 * (g - b) + 360 * d);
        if g - b < d {
            assert(interp_num(pn, qn, t2r, td) == qn * td);
            lemma_chan_b2(qn, dq, td, r);
        } else {
            assert(interp_num(pn, qn, t2r, td) == pn * td + (qn - pn) * 2 * (2 * td - 3 * t2r));
            assert(mn * td + (mx - mn) * (2 * (2 * td - 3 * t2r)) == r * td) by (nonlinear_arith)
                requires
                    t2r == 180 * (g - b) + 360 * d,
                    g - b == d,
                    td == 1080 * d,
                    mn == b,
                    mx == r,
                    d == mx - mn,
            ;
            lemma_chan_b3(pn, qn, dq, td, t2r, mn, mx, r);
        }
        lemma_chan_exact(pn, qn, dq, hn, hd, 1, r);
        // green: t = h lies on the rising edge
        let t2g = t_wrap(t_raw(hn, hd, 0), td);
        assert(t2g == 180 * (g - b));
        if g - b < d {
            assert(interp_num(pn, qn, t2g, td) == pn * td + (qn - pn) * 6 * t2g);
            assert(mn * td + (mx - mn) * (6 * t2g) == g * td) by (nonlinear_arith)
                requires
                    t2g == 180 * (g - b),
                    td == 1080 * d,
                    mn == b,
                    mx == r,
                    d == r - b,
            ;
            lemma_chan_b1(pn, qn, dq, td, t2g, mn, mx, g);
        } else {
            assert(g == mx);
            assert(interp_num(pn, qn, t2g, td) == qn * td);
            lemma_chan_b2(qn, dq, td, g);
        }
        lemma_chan_exact(pn, qn, dq, hn, hd, 0, g);
        // blue: t = h - 1/3 wraps up into the flat p region
        let t2b = t_wrap(t_raw(hn, hd, -1), td);
        assert(t2b == 180 * (g - b) + 720 * d);
        assert(interp_num(pn, qn, t2b, td) == pn * td);
        lemma_chan_b4(pn, dq, td, b);
        lemma_chan_exact(pn, qn, dq, hn, hd, -1, b);
    } else {
        assert(mn == g && hn == 60 * (g - b) + 360 * d && -d <= g - b < 0);
        // red: t wraps down by one turn into the flat q region
        let t2r = t_wrap(t_raw(hn, hd, 1), td);
        assert(t2r == 180 * (g - b) + 360 * d);
        assert(interp_num(pn, qn, t2r, td) == qn * td);
        lemma_chan_b2(qn, dq, td, r);
        lemma_chan_exact(pn, qn, dq, hn, hd, 1, r);
        // green: t lies in the flat p region
        let t2g = t_wrap(t_raw(hn, hd, 0), td);
        assert(t2g == 180 * (g - b) + 1080 * d);
        assert(interp_num(pn, qn, t2g, td) == pn * td);
        lemma_chan_b4(pn, dq, td, g);
        lemma_chan_exact(pn, qn, dq, hn, hd, 0, g);
        // blue: t lies on the falling edge
        let t2b = t_wrap(t_raw(hn, hd, -1), td);
        assert(t2b == 180 * (g - b) + 720 * d);
        assert(interp_num(pn, qn, t2b, td) == pn * td + (qn - pn) * 2 * (2 * td - 3 * t2b));
        assert(mn * td + (mx - mn) * (2 * (2 * td - 3 * t2b)) == b * td) by (nonlinear_arith)
            requires
                t2b == 180 * (g - b) + 720 * d,
                td == 1080 * d,
                mn == g,
                mx == r,
                d == r - g,
        ;
        lemma_chan_b3(pn, qn, dq, td, t2b, mn, mx, b);
        lemma_chan_exact(pn, qn, dq, hn, hd, -1, b);
    }
}

/// Green is the maximum channel (and red is not).
proof fn lemma_rt_gmax(r: int, g: int, b: int)
    requires
        0 <= r <= 255,
        0 <= g <= 255,
        0 <= b <= 255,
        max3(r, g, b) != min3(r, g, b),
        r != max3(r, g, b),
        g == max3(r, g, b),
    ensures
        chan_rt(r, g, b, 1) == r,
        chan_rt(r, g, b, 0) == g,
        chan_rt(r, g, b, -1) == b,
{
    let mx = max3(r, g, b);
    let mn = min3(r, g, b);
    let d = mx - mn;
    let hn = hue_num(r, g, b);
    let hd = hue_den(r, g, b);
    let sn = sat_num(r, g, b);
    let sd = sat_den(r, g, b);
    let ln = light_num(r, g, b);
    let qn = qn_of(sn, sd, ln, 510);
    let pn = pn_of(sn, sd, ln, 510);
    let dq = pq_den(sd, 510);
    let td = t_den(hd);
    lemma_pq_exact(r, g, b);
    assert(hd == d && td == 1080 * d && 1 <= d);
    assert(dq >= 1);
    assert(hn == 60 * (b - r) + 120 * d && -d <= b - r <= d);
    // red: t = h + 1/3 lies on the falling edge or in the flat p region
    let t2r = t_wrap(t_raw(hn, hd, 1), td);
    assert(t2r == 180 * (b - r) + 720 * d);
    if b < r {
        assert(mn == b);
        assert(interp_num(pn, qn, t2r, td) == pn * td + (qn - pn) * 2 * (2 * td - 3 * t2r));
        assert(mn * td + (mx - mn) * (2 * (2 * td - 3 * t2r)) == r * td) by (nonlinear_arith)
            requires
                t2r == 180 * (b - r) + 720 * d,
                td == 1080 * d,
                mn == b,
                mx == g,
                d == g - b,
        ;
        lemma_chan_b3(pn, qn, dq, td, t2r, mn, mx, r);
    } else {
        assert(mn == r);
        assert(interp_num(pn, qn, t2r, td) == pn * td);
        lemma_chan_b4(pn, dq, td, r);
    }
    lemma_chan_exact(pn, qn, dq, hn, hd, 1, r);
    // green: t = h lies in the flat q region (or its right edge)
    let t2g = t_wrap(t_raw(hn, hd, 0), td);
    assert(t2g == 180 * (b - r) + 360 * d);
    if b - r < d {
        assert(interp_num(pn, qn, t2g, td) == qn * td);
        lemma_chan_b2(qn, dq, td, g);
    } else {
        assert(mn == r && b == mx);
        assert(interp_num(pn, qn, t2g, td) == pn * td + (qn - pn) * 2 * (2 * td - 3 * t2g));
        assert(mn * td + (mx - mn) * (2 * (2 * td - 3 * t2g)) == g * td) by (nonlinear_arith)
            requires
                t2g == 180 * (b - r) + 360 * d,
                b - r == d,
                td == 1080 * d,
                mn == r,
                mx == g,
                d == mx - mn,
        ;
        lemma_chan_b3(pn, qn, dq, td, t2g, mn, mx, g);
    }
    lemma_chan_exact(pn, qn, dq, hn, hd, 0, g);
    // blue: t = h - 1/3 lies on the rising edge, or wraps into the flat p
    // region when blue is below red
    let t2b = t_wrap(t_raw(hn, hd, -1), td);
    if b >= r {
        assert(mn == r);
        assert(t2b == 180 * (b - r));
        if b - r < d {
            assert(interp_num(pn, qn, t2b, td) == pn * td + (qn - pn) * 6 * t2b);
            assert(mn * td + (mx - mn) * (6 * t2b) == b * td) by (nonlinear_arith)
                requires
                    t2b == 180 * (b - r),
                    td == 1080 * d,
                    mn == r,
                    mx == g,
                    d == g - r,
            ;
            lemma_chan_b1(pn, qn, dq, td, t2b, mn, mx, b);
        } else {
            assert(b == mx);
            assert(interp_num(pn, qn, t2b, td) == qn * td);
            lemma_chan_b2(qn, dq, td, b);
        }
    } else {
        assert(mn == b);
        assert(t2b == 180 * (b - r) + 1080 * d);
        assert(interp_num(pn, qn, t2b, td) == pn * td);
        lemma_chan_b4(pn, dq, td, b);
    }
    lemma_chan_exact(pn, qn, dq, hn, hd, -1, b);
}

/// Blue is the maximum channel (and neither red nor green is).
proof fn lemma_rt_bmax(r: int, g: int, b: int)
    requires
        0 <= r <= 255,
        0 <= g <= 255,
        0 <= b <= 255,
        max3(r, g, b) != min3(r, g, b),
        r != max3(r, g, b),
        g != max3(r, g, b),
    ensures
        chan_rt(r, g, b, 1) == r,
        chan_rt(r, g, b, 0) == g,
        chan_rt(r, g, b, -1) == b,
{
    let mx = max3(r, g, b);
    let mn = min3(r, g, b);
    let d = mx - mn;
    let hn = hue_num(r, g, b);
    let hd = hue_den(r, g, b);
    let sn = sat_num(r, g, b);
    let sd = sat_den(r, g, b);
    let ln = light_num(r, g, b);
    let qn = qn_of(sn, sd, ln, 510);
    let pn = pn_of(sn, sd, ln, 510);
    let dq = pq_den(sd, 510);
    let td = t_den(hd);
    lemma_pq_exact(r, g, b);
    assert(b == mx);
    assert(hd == d && td == 1080 * d && 1 <= d);
    assert(dq >= 1);
    assert(hn == 60 * (r - g) + 240 * d && -d <= r - g <= d);
    // red: t = h + 1/3 wraps down onto the rising edge when red exceeds
    // green, else lies in the flat p region
    let t2r = t_wrap(t_raw(hn, hd, 1), td);
    if r > g {
        assert(mn == g);
        assert(t2r == 180 * (r - g));
        if r - g < d {
            assert(interp_num(pn, qn, t2r, td) == pn * td + (qn - pn) * 6 * t2r);
            assert(mn * td + (mx - mn) * (6 * t2r) == r * td) by (nonlinear_arith)
                requires
                    t2r == 180 * (r - g),
                    td == 1080 * d,
                    mn == g,
                    mx == b,
                    d == b - g,
            ;
            lemma_chan_b1(pn, qn, dq, td, t2r, mn, mx, r);
        } else {
            assert(r == mx);
            assert(interp_num(pn, qn, t2r, td) == qn * td);
            lemma_chan_b2(qn, dq, td, r);
        }
    } else {
        assert(mn == r);
        assert(t2r == 180 * (r - g) + 1080 * d);
        assert(interp_num(pn, qn, t2r, td) == pn * td);
        lemma_chan_b4(pn, dq, td, r);
    }
    lemma_chan_exact(pn, qn, dq, hn, hd, 1, r);
    // green: t = h lies on the falling edge or in the flat p region
    let t2g = t_wrap(t_raw(hn, hd, 0), td);
    assert(t2g == 180 * (r - g) + 720 * d);
    if r < g {
        assert(mn == r);
        assert(interp_num(pn, qn, t2g, td) == pn * td + (qn - pn) * 2 * (2 * td - 3 * t2g));
        assert(mn * td + (mx - mn) * (2 * (2 * td - 3 * t2g)) == g * td) by (nonlinear_arith)
            requires
                t2g == 180 * (r - g) + 720 * d,
                td == 1080 * d,
                mn == r,
                mx == b,
                d == b - r,
        ;
        lemma_chan_b3(pn, qn, dq, td, t2g, mn, mx, g);
    } else {
        assert(mn == g);
        assert(interp_num(pn, qn, t2g, td) == pn * td);
        lemma_chan_b4(pn, dq, td, g);
    }
    lemma_chan_exact(pn, qn, dq, hn, hd, 0, g);
    // blue: t = h - 1/3 lies in the flat q region (or its right edge)
    let t2b = t_wrap(t_raw(hn, hd, -1), td);
    assert(t2b == 180 * (r - g) + 360 * d);
    if r - g < d {
        assert(interp_num(pn, qn, t2b, td) == qn * td);
        lemma_chan_b2(qn, dq, td, b);
    } else {
        assert(r == mx && mn == g);
        assert(interp_num(pn, qn, t2b, td) == pn * td + (qn - pn) * 2 * (2 * td - 3 * t2b));
        assert(mn * td + (mx - mn) * (2 * (2 * td - 3 * t2b)) == b * td) by (nonlinear_arith)
            requires
                t2b == 180 * (r - g) + 360 * d,
                r - g == d,
                td == 1080 * d,
                mn == g,
                mx == b,
                d == mx - mn,
        ;
        lemma_chan_b3(pn, qn, dq, td, t2b, mn, mx, b);
    }
    lemma_chan_exact(pn, qn, dq, hn, hd, -1, b);
}

/// A gray color: hue and saturation are zero, p equals q, and every
/// interpolation branch returns the lightness.
proof fn lemma_rt_achromatic(r: int, g: int, b: int)
    requires
        0 <= r <= 255,
        r == g && g == b,
    ensures
        chan_rt(r, g, b, 1) == r,
        chan_rt(r, g, b, 0) == g,
        chan_rt(r, g, b, -1) == b,
{
    assert(max3(r, g, b) == r && min3(r, g, b) == r);
    let qn = qn_of(0, 1, 200 * r, 510);
    let pn = pn_of(0, 1, 200 * r, 510);
    assert(qn == 20000 * r && pn == 20000 * r) by (nonlinear_arith)
        requires
            qn == if 2 * (200 * r) < 100 * 510 {
                (200 * r) * (100 * 1 + 0)
            } else {
                100 * ((200 * r) * 1 + 0 * 510) - (200 * r) * 0
            },
            pn == 200 * ((200 * r) * 1) - qn,
    ;
    let dq = pq_den(1, 510);
    let td = t_den(1);
    assert(dq == 5100000 && td == 1080);
    assert(255 * (qn * td) == r * (dq * td)) by (nonlinear_arith)
        requires
            qn == 20000 * r,
            td == 1080,
            dq == 5100000,
    ;
    assert(255 * (pn * td) == r * (dq * td));
    let t2r = t_wrap(t_raw(0, 1, 1), td);
    assert(t2r == 360);
    assert(interp_num(pn, qn, t2r, td) == qn * td);
    lemma_chan_exact(pn, qn, dq, 0, 1, 1, r);
    let t2g = t_wrap(t_raw(0, 1, 0), td);
    assert(t2g == 0);
    assert(interp_num(pn, qn, t2g, td) == pn * td + (qn - pn) * 6 * 0);
    assert(interp_num(pn, qn, t2g, td) == qn * td);
    lemma_chan_exact(pn, qn, dq, 0, 1, 0, g);
    let t2b = t_wrap(t_raw(0, 1, -1), td);
    assert(t2b == 720);
    assert(interp_num(pn, qn, t2b, td) == pn * td);
    lemma_chan_exact(pn, qn, dq, 0, 1, -1, b);
}

// ----- the round-trip law -----

/// Round trip: converting any RGB color to HSL and back to RGB reproduces
/// every channel exactly (so in particular within the one-unit tolerance the
/// data model asks for).
pub proof fn lemma_hsl_round_trip(c: RGB)
    ensures
        chan_rt(c.r as int, c.g as int, c.b as int, 1) == c.r as int,
        chan_rt(c.r as int, c.g as int, c.b as int, 0) == c.g as int,
        chan_rt(c.r as int, c.g as int, c.b as int, -1) == c.b as int,
{
    let r = c.r as int;
    let g = c.g as int;
    let b = c.b as int;
    let mx = max3(r, g, b);
    let mn = min3(r, g, b);
    if mx == mn {
        assert(r == g && g == b);
        lemma_rt_achromatic(r, g, b);
    } else if r == mx {
        lemma_rt_rmax(r, g, b);
    } else if g == mx {
        lemma_rt_gmax(r, g, b);
    } else {
        lemma_rt_bmax(r, g, b);
    }
}

/// Two reductions modulo 360 degrees of hues 90 degrees apart differ by
/// exactly 90 degrees, up to one wrap of 360.
proof fn lemma_mod_step(xa: int, xb: int, m: int, hd: int, ha: int, hb: int)
    requires
        m == 360 * hd,
        hd >= 1,
        0 <= xa < 2 * m,
        xb == xa + 90 * hd,
        xb < 2 * m,
        ha == xa % m,
        hb == xb % m,
    ensures
        hb - ha == 90 * hd || hb - ha == 90 * hd - 360 * hd,
{
    vstd::arithmetic::div_mod::lemma_mod_bound(xa, m);
    vstd::arithmetic::div_mod::lemma_mod_bound(xb, m);
    lemma_fundamental_div_mod(xa, m);
    lemma_fundamental_div_mod(xb, m);
    let qa = xa / m;
    let qb = xb / m;
    assert(hb - ha == 90 * hd - m * (qb - qa)) by (nonlinear_arith)
        requires
            xa == m * qa + ha,
            xb == m * qb + hb,
            xb == xa + 90 * hd,
    ;
    assert(hb - ha == 90 * hd || hb - ha == 90 * hd - 360 * hd) by (nonlinear_arith)
        requires
            hb - ha == 90 * hd - m * (qb - qa),
            0 <= ha < m,
            0 <= hb < m,
            m == 360 * hd,
            hd >= 1,
            0 <= xa,
            xa == m * qa + ha,
            0 <= xb < 2 * m,
            xb == m * qb + hb,
    ;
}

/// Tetrads walk the hue circle in quarter turns: the hue from which each
/// tetrad element after the first is produced lies exactly 90 degrees (modulo
/// 360) past the hue of the element before it.
pub proof fn lemma_tetrad_hues_ninety_apart(c: RGB, k: int)
    requires
        0 <= k < 3,
    ensures
        ({
            let hd = hue_den(c.r as int, c.g as int, c.b as int);
            let ha = tetrad_hue_num(c, k);
            let hb = tetrad_hue_num(c, k + 1);
            hb - ha == 90 * hd || hb - ha == 90 * hd - 360 * hd
        }),
{
    let r = c.r as int;
    let g = c.g as int;
    let bb = c.b as int;
    let hn = hue_num(r, g, bb);
    let hd = hue_den(r, g, bb);
    let m = 360 * hd;
    assert(1 <= hd && 0 <= hn < m);
    let ha = tetrad_hue_num(c, k);
    let hb = tetrad_hue_num(c, k + 1);
    if k == 0 {
        vstd::arithmetic::div_mod::lemma_small_mod(hn as nat, m as nat);
        assert(ha == hn % m);
        assert(hb == (hn + 90 * hd) % m);
        lemma_mod_step(hn, hn + 90 * hd, m, hd, ha, hb);
    } else if k == 1 {
        assert(ha == (hn + 90 * hd) % m);
        assert(hb == (hn + 180 * hd) % m);
        lemma_mod_step(hn + 90 * hd, hn + 180 * hd, m, hd, ha, hb);
    } else {
        assert(ha == (hn + 180 * hd) % m);
        assert(hb == (hn + 270 * hd) % m);
        lemma_mod_step(hn + 180 * hd, hn + 270 * hd, m, hd, ha, hb);
    }
}

/// The round trip stated over the contracts of `to_hsl` and `to_rgb`: any
/// HSL value with exactly the fields `to_hsl` promises for c converts back
/// to c, channel for channel.
pub proof fn lemma_round_trip_via_hsl(c: RGB, hsl: HSL)
    requires
        hsl.h.num == hue_num(c.r as int, c.g as int, c.b as int),
        hsl.h.den == hue_den(c.r as int, c.g as int, c.b as int),
        hsl.s.num == sat_num(c.r as int, c.g as int, c.b as int),
        hsl.s.den == sat_den(c.r as int, c.g as int, c.b as int),
        hsl.l.num == light_num(c.r as int, c.g as int, c.b as int),
        hsl.l.den == 510,
    ensures
        hsl_chan(hsl, 1) == c.r as int,
        hsl_chan(hsl, 0) == c.g as int,
        hsl_chan(hsl, -1) == c.b as int,
{
    lemma_hsl_round_trip(c);
}

} // verus!
