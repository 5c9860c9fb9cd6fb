//! Color values and the conversion between their RGB and HSL
//! representations.
//!
//! A color has four channels, each a fixed-point value in [0, `UNIT`].
//! The conversions follow the standard HSL formulas, carried out in
//! fixed-point integer arithmetic; the specification functions state the
//! exact value of every channel the conversions produce.

use vstd::arithmetic::div_mod::{
    lemma_div_denominator, lemma_div_is_ordered, lemma_div_multiples_vanish, lemma_div_pos_is_pos,
};
use vstd::arithmetic::mul::lemma_mul_inequality;
use vstd::prelude::*;

use crate::units::UNIT;

verus! {

/// A color as four fixed-point channels, each in [0, `UNIT`]:
/// red, green, blue and alpha.
#[derive(Clone, Copy, PartialEq, Eq, Structural, Debug)]
pub struct Color {
    pub r: u64,
    pub g: u64,
    pub b: u64,
    pub a: u64,
}

impl Color {
    /// Every channel lies in [0, `UNIT`].
    pub open spec fn wf(self) -> bool {
        self.r <= UNIT && self.g <= UNIT && self.b <= UNIT && self.a <= UNIT
    }

    /// Builds a color from its four channels.
    pub fn new(r: u64, g: u64, b: u64, a: u64) -> (c: Color)
        requires
            r <= UNIT,
            g <= UNIT,
            b <= UNIT,
            a <= UNIT,
        ensures
            c == (Color { r, g, b, a }),
            c.wf(),
    {
        Color { r, g, b, a }
    }

    /// Replaces the RGB channels, keeping alpha.
    pub fn with_rgb(self, r: u64, g: u64, b: u64) -> (c: Color)
        requires
            r <= UNIT,
            g <= UNIT,
            b <= UNIT,
        ensures
            c == (Color { r, g, b, a: self.a }),
    {
        Color { r, g, b, a: self.a }
    }
}

/// The larger of three values, taken as `max(max(a, b), c)`.
pub open spec fn max3(a: int, b: int, c: int) -> int {
    let m = if a > b {
        a
    } else {
        b
    };
    if m > c {
        m
    } else {
        c
    }
}

/// The smaller of three values, taken as `min(min(a, b), c)`.
pub open spec fn min3(a: int, b: int, c: int) -> int {
    let m = if a < b {
        a
    } else {
        b
    };
    if m < c {
        m
    } else {
        c
    }
}

/// The auxiliary value `q` of the HSL-to-RGB conversion:
/// `l * (1 + s)` for dark colors, `l + s - l * s` otherwise,
/// in fixed-point arithmetic.
pub open spec fn hsl_q(s: int, l: int) -> int {
    if l < UNIT / 2 {
        l * (UNIT + s) / (UNIT as int)
    } else {
        l + s - l * s / (UNIT as int)
    }
}

/// The auxiliary value `p = 2 * l - q` of the HSL-to-RGB conversion.
pub open spec fn hsl_p(s: int, l: int) -> int {
    2 * l - hsl_q(s, l)
}

/// One channel of the HSL-to-RGB conversion: the piecewise-linear ramp
/// between `p` and `q` evaluated at hue offset `t0`, where `t0` beyond
/// `UNIT` wraps around.
pub open spec fn hue_channel(p: int, q: int, t0: int) -> int {
    let t = if t0 > UNIT {
        t0 - UNIT
    } else {
        t0
    };
    if t < UNIT / 6 {
        p + (q - p) * t * 6 / (UNIT as int)
    } else if t < UNIT / 2 {
        q
    } else if t < 2 * (UNIT as int) / 3 {
        p + (q - p) * (2 * (UNIT as int) / 3 - t) * 6 / (UNIT as int)
    } else {
        p
    }
}

/// The RGB channels encoding hue `h`, saturation `s` and lightness `l`,
/// each argument and each resulting channel in [0, `UNIT`].
pub open spec fn hsl_to_rgb_spec(h: int, s: int, l: int) -> (int, int, int) {
    if s == 0 {
        (l, l, l)
    } else {
        let q = hsl_q(s, l);
        let p = hsl_p(s, l);
        let tb = if h >= UNIT / 3 {
            h - UNIT / 3
        } else {
            h + (UNIT - UNIT / 3)
        };
        (hue_channel(p, q, h + UNIT / 3), hue_channel(p, q, h), hue_channel(p, q, tb))
    }
}

/// The hue, saturation and lightness encoding the RGB channels `r`, `g`,
/// `b`, each argument and each resulting component in [0, `UNIT`].
/// An achromatic color reports hue 0 and saturation 0.
pub open spec fn rgb_to_hsl_spec(r: int, g: int, b: int) -> (int, int, int) {
    let mx = max3(r, g, b);
    let mn = min3(r, g, b);
    let l = (mx + mn) / 2;
    if mx == mn {
        (0, 0, l)
    } else {
        let d = mx - mn;
        let s = if l < UNIT / 2 {
            d * UNIT / (mx + mn)
        } else {
            d * UNIT / (2 * (UNIT as int) - mx - mn)
        };
        let h = if r == mx {
            if g >= b {
                (g - b) * UNIT / (6 * d)
            } else {
                UNIT - (b - g) * UNIT / (6 * d)
            }
        } else if g == mx {
            if b >= r {
                UNIT / 3 + (b - r) * UNIT / (6 * d)
            } else {
                UNIT / 3 - (r - b) * UNIT / (6 * d)
            }
        } else {
            if r >= g {
                2 * (UNIT as int) / 3 + (r - g) * UNIT / (6 * d)
            } else {
                2 * (UNIT as int) / 3 - (g - r) * UNIT / (6 * d)
            }
        };
        (h, s, l)
    }
}

/// For nonnegative `a` and `0 <= b <= d`, the scaled product `a * b / d`
/// stays within [0, a].
proof fn lemma_mul_div_le(a: int, b: int, d: int)
    requires
        0 <= a,
        0 <= b <= d,
        0 < d,
    ensures
        0 <= a * b / d <= a,
{
    lemma_mul_inequality(b, d, a);
    assert(a * b == b * a) by (nonlinear_arith);
    assert(a * d == d * a) by (nonlinear_arith);
    lemma_div_is_ordered(a * b, a * d, d);
    lemma_div_multiples_vanish(a, d);
    assert(0 <= a * b) by (nonlinear_arith)
        requires
            0 <= a,
            0 <= b,
    ;
    lemma_div_pos_is_pos(a * b, d);
}

/// For `0 <= x <= d`, the fraction `x * UNIT / (6 * d)` stays within
/// [0, UNIT / 6].
proof fn lemma_frac_sixth(x: int, d: int)
    requires
        0 <= x <= d,
        1 <= d,
    ensures
        0 <= x * UNIT / (6 * d) <= UNIT / 6,
{
    let u = UNIT as int;
    lemma_mul_inequality(x, d, u);
    lemma_div_is_ordered(x * u, d * u, 6 * d);
    assert(0 <= d * u) by (nonlinear_arith)
        requires
            0 <= d,
            0 <= u,
    ;
    lemma_div_denominator(d * u, d, 6);
    lemma_div_multiples_vanish(u, d);
    assert(d * u == u * d) by (nonlinear_arith);
    assert(d * 6 == 6 * d);
    assert(d * u / (6 * d) == u / 6);
    assert(0 <= x * u) by (nonlinear_arith)
        requires
            0 <= x,
            0 <= u,
    ;
    lemma_div_pos_is_pos(x * u, 6 * d);
}

/// Computes one channel of [`hsl_to_rgb_spec`]: [`hue_channel`].
fn hue_channel_exec(p: u64, q: u64, t0: u64) -> (c: u64)
    requires
        p <= q,
        q <= UNIT,
        t0 <= 2 * UNIT,
    ensures
        c == hue_channel(p as int, q as int, t0 as int),
        p <= c <= q,
{
    let t: u64 = if t0 > UNIT {
        t0 - UNIT
    } else {
        t0
    };
    if t < UNIT / 6 {
        proof {
            assert((q - p) * t <= UNIT * UNIT) by (nonlinear_arith)
                requires
                    0 <= q - p <= UNIT,
                    0 <= t <= UNIT,
            ;
            lemma_mul_div_le((q - p) as int, t * 6, UNIT as int);
            assert((q - p) * t * 6 == (q - p) * (t * 6)) by (nonlinear_arith);
        }
        p + (q - p) * t * 6 / UNIT
    } else if t < UNIT / 2 {
        q
    } else if t < 2 * UNIT / 3 {
        let w: u64 = 2 * UNIT / 3 - t;
        proof {
            assert((q - p) * w <= UNIT * UNIT) by (nonlinear_arith)
                requires
                    0 <= q - p <= UNIT,
                    0 <= w <= UNIT,
            ;
            lemma_mul_div_le((q - p) as int, w * 6, UNIT as int);
            assert((q - p) * w * 6 == (q - p) * (w * 6)) by (nonlinear_arith);
        }
        p + (q - p) * w * 6 / UNIT
    } else {
        p
    }
}

/// Converts hue, saturation and lightness to RGB channels:
/// computes [`hsl_to_rgb_spec`].
pub fn hsl_to_rgb(h: u64, s: u64, l: u64) -> (rgb: (u64, u64, u64))
    requires
        h <= UNIT,
        s <= UNIT,
        l <= UNIT,
    ensures
        (rgb.0 as int, rgb.1 as int, rgb.2 as int) == hsl_to_rgb_spec(
            h as int,
            s as int,
            l as int,
        ),
        rgb.0 <= UNIT,
        rgb.1 <= UNIT,
        rgb.2 <= UNIT,
{
    if s == 0 {
        (l, l, l)
    } else {
        let q: u64 = if l < UNIT / 2 {
            proof {
                assert(l * (UNIT + s) <= 999_999_000_000) by (nonlinear_arith)
                    requires
                        0 <= l <= 499_999,
                        0 <= s <= UNIT,
                        UNIT == 1_000_000,
                ;
                // q stays between l and 2 * l
                let u = UNIT as int;
                lemma_mul_inequality(u, u + s, l as int);
                lemma_mul_inequality(u + s, 2 * u, l as int);
                assert(l * (u + s) == (u + s) * l) by (nonlinear_arith);
                assert(l * u == u * l) by (nonlinear_arith);
                assert(l * (2 * u) == (2 * l) * u == u * (2 * l)) by (nonlinear_arith);
                lemma_div_is_ordered(l * u, l * (u + s), u);
                lemma_div_is_ordered(l * (u + s), (2 * l) * u, u);
                lemma_div_multiples_vanish(l as int, u);
                lemma_div_multiples_vanish(2 * l, u);
            }
            l * (UNIT + s) / UNIT
        } else {
            proof {
                assert(l * s <= UNIT * UNIT) by (nonlinear_arith)
                    requires
                        0 <= l <= UNIT,
                        0 <= s <= UNIT,
                ;
                lemma_mul_div_le(s as int, l as int, UNIT as int);
                assert(s * l == l * s) by (nonlinear_arith);
                // l * s / UNIT >= l + s - UNIT, so q = l + s - l * s / UNIT <= UNIT
                let u = UNIT as int;
                if l + s > u {
                    assert((l + s - u) * u <= l * s) by (nonlinear_arith)
                        requires
                            0 <= l <= u,
                            0 <= s <= u,
                    ;
                    lemma_div_is_ordered((l + s - u) * u, l * s, u);
                    lemma_div_multiples_vanish(l + s - u, u);
                    assert((l + s - u) * u == u * (l + s - u)) by (nonlinear_arith);
                }
                lemma_div_pos_is_pos(l * s, u);
            }
            l + s - l * s / UNIT
        };
        let p: u64 = 2 * l - q;
        let tb: u64 = if h >= UNIT / 3 {
            h - UNIT / 3
        } else {
            h + (UNIT - UNIT / 3)
        };
        let r = hue_channel_exec(p, q, h + UNIT / 3);
        let g = hue_channel_exec(p, q, h);
        let b = hue_channel_exec(p, q, tb);
        (r, g, b)
    }
}

/// Converts RGB channels to hue, saturation and lightness:
/// computes [`rgb_to_hsl_spec`].
pub fn rgb_to_hsl(r: u64, g: u64, b: u64) -> (hsl: (u64, u64, u64))
    requires
        r <= UNIT,
        g <= UNIT,
        b <= UNIT,
    ensures
        (hsl.0 as int, hsl.1 as int, hsl.2 as int) == rgb_to_hsl_spec(
            r as int,
            g as int,
            b as int,
        ),
        hsl.0 <= UNIT,
        hsl.1 <= UNIT,
        hsl.2 <= UNIT,
{
    let m1: u64 = if r > g {
        r
    } else {
        g
    };
    let mx: u64 = if m1 > b {
        m1
    } else {
        b
    };
    let n1: u64 = if r < g {
        r
    } else {
        g
    };
    let mn: u64 = if n1 < b {
        n1
    } else {
        b
    };
    let l: u64 = (mx + mn) / 2;
    if mx == mn {
        (0, 0, l)
    } else {
        let d: u64 = mx - mn;
        let s: u64 = if l < UNIT / 2 {
            proof {
                lemma_mul_div_le(UNIT as int, d as int, (mx + mn) as int);
                assert(UNIT * d == d * UNIT) by (nonlinear_arith);
            }
            d * UNIT / (mx + mn)
        } else {
            proof {
                lemma_mul_div_le(UNIT as int, d as int, (2 * UNIT - mx - mn) as int);
                assert(UNIT * d == d * UNIT) by (nonlinear_arith);
            }
            d * UNIT / (2 * UNIT - mx - mn)
        };
        let h: u64 = if r == mx {
            if g >= b {
                proof {
                    lemma_frac_sixth((g - b) as int, d as int);
                }
                (g - b) * UNIT / (6 * d)
            } else {
                proof {
                    lemma_frac_sixth((b - g) as int, d as int);
                }
                UNIT - (b - g) * UNIT / (6 * d)
            }
        } else if g == mx {
            if b >= r {
                proof {
                    lemma_frac_sixth((b - r) as int, d as int);
                }
                UNIT / 3 + (b - r) * UNIT / (6 * d)
            } else {
                proof {
                    lemma_frac_sixth((r - b) as int, d as int);
                }
                UNIT / 3 - (r - b) * UNIT / (6 * d)
            }
        } else {
            if r >= g {
                proof {
                    lemma_frac_sixth((r - g) as int, d as int);
                }
                2 * UNIT / 3 + (r - g) * UNIT / (6 * d)
            } else {
                proof {
                    lemma_frac_sixth((g - r) as int, d as int);
                }
                2 * UNIT / 3 - (g - r) * UNIT / (6 * d)
            }
        };
        (h, s, l)
    }
}

/// Reconstruction of the conversion's auxiliary values: for a chromatic
/// color, the saturation and lightness that [`rgb_to_hsl_spec`] computes
/// from the channel extremes `mx` and `mn` give back `q` within 3 of
/// `mx` and `p` within 3 of `mn` in [`hsl_to_rgb_spec`].
proof fn lemma_q_p_near(mx: int, mn: int)
    requires
        0 <= mn < mx <= UNIT,
    ensures
        ({
            let u = UNIT as int;
            let l = (mx + mn) / 2;
            let d = mx - mn;
            let s = if l < u / 2 {
                d * u / (mx + mn)
            } else {
                d * u / (2 * u - mx - mn)
            };
            &&& 1 <= s <= u
            &&& mx - 3 <= hsl_q(s, l) <= mx + 3
            &&& mn - 3 <= hsl_p(s, l) <= mn + 3
            &&& hsl_p(s, l) <= hsl_q(s, l)
            &&& 0 <= hsl_p(s, l)
            &&& hsl_q(s, l) <= u
        }),
{
    let u = UNIT as int;
    let m = mx + mn;
    let l = m / 2;
    let d = mx - mn;
    vstd::arithmetic::div_mod::lemma_fundamental_div_mod(m, 2);
    let e0 = m % 2;
    assert(m == 2 * l + e0 && 0 <= e0 < 2);
    if l < u / 2 {
        // the lightness branch: m is at most u - 1
        assert(m <= u - 1);
        let s = d * u / m;
        vstd::arithmetic::div_mod::lemma_fundamental_div_mod(d * u, m);
        let r1 = (d * u) % m;
        assert(d * u == m * s + r1 && 0 <= r1 < m);
        assert(1 <= s <= u) by (nonlinear_arith)
            requires
                d * u == m * s + r1,
                0 <= r1 < m,
                1 <= d,
                d <= m,
                m <= u - 1,
                u == 1_000_000,
        ;
        let q = l * (u + s) / u;
        vstd::arithmetic::div_mod::lemma_fundamental_div_mod(l * (u + s), u);
        let r2 = (l * (u + s)) % u;
        assert(l * (u + s) == u * q + r2 && 0 <= r2 < u);
        // 2 * l * (u + s) == (m + d) * u - r1 - e0 * (u + s), and m + d == 2 * mx
        assert(2 * (u * q + r2) == 2 * mx * u - r1 - e0 * (u + s)) by (nonlinear_arith)
            requires
                l * (u + s) == u * q + r2,
                m == 2 * l + e0,
                d * u == m * s + r1,
                m + d == 2 * mx,
        ;
        assert(mx - 2 <= q <= mx) by (nonlinear_arith)
            requires
                2 * (u * q + r2) == 2 * mx * u - r1 - e0 * (u + s),
                0 <= r2 < u,
                0 <= r1 < m,
                m <= u - 1,
                0 <= e0 < 2,
                1 <= s <= u,
                u == 1_000_000,
        ;
        // q is at least l, so p = 2 * l - q stays at most q
        lemma_mul_inequality(u, u + s, l);
        assert(l * u == u * l && l * (u + s) == (u + s) * l) by (nonlinear_arith);
        lemma_div_is_ordered(l * u, l * (u + s), u);
        lemma_div_multiples_vanish(l, u);
        assert(l <= q);
        // and q stays at most 2 * l, so p is nonnegative
        lemma_mul_inequality(u + s, 2 * u, l);
        assert((u + s) * l == l * (u + s) && (2 * u) * l == u * (2 * l)) by (nonlinear_arith);
        lemma_div_is_ordered(l * (u + s), u * (2 * l), u);
        lemma_div_multiples_vanish(2 * l, u);
        assert(q <= 2 * l);
        assert(hsl_q(s, l) == q);
        assert(hsl_p(s, l) == 2 * l - q);
        assert(mn - 3 <= 2 * l - q <= mn + 3);
        assert(q <= u);
    } else {
        // the lightness branch: m is at least u
        assert(m >= u);
        let w = 2 * u - m;
        assert(1 <= w <= u);
        let s = d * u / w;
        vstd::arithmetic::div_mod::lemma_fundamental_div_mod(d * u, w);
        let r1 = (d * u) % w;
        assert(d * u == w * s + r1 && 0 <= r1 < w);
        assert(1 <= s <= u) by (nonlinear_arith)
            requires
                d * u == w * s + r1,
                0 <= r1 < w,
                1 <= d,
                d <= w,
                w <= u,
                u == 1_000_000,
        ;
        let k = l * s / u;
        vstd::arithmetic::div_mod::lemma_fundamental_div_mod(l * s, u);
        let r2 = (l * s) % u;
        assert(l * s == u * k + r2 && 0 <= r2 < u);
        let q = l + s - k;
        // 2 * u * q == 2 * mx * u + e0 * (s - u) - r1 + 2 * r2
        assert(2 * u * q == 2 * mx * u + e0 * (s - u) - r1 + 2 * r2) by (nonlinear_arith)
            requires
                q == l + s - k,
                l * s == u * k + r2,
                m == 2 * l + e0,
                d * u == w * s + r1,
                w == 2 * u - m,
                m + d == 2 * mx,
        ;
        assert(q == mx) by (nonlinear_arith)
            requires
                2 * u * q == 2 * mx * u + e0 * (s - u) - r1 + 2 * r2,
                0 <= r2 < u,
                0 <= r1 < w,
                w <= u,
                0 <= e0 < 2,
                1 <= s <= u,
                u == 1_000_000,
        ;
        assert(hsl_q(s, l) == q);
        assert(hsl_p(s, l) == 2 * l - q);
        assert(mn - 3 <= 2 * l - q <= mn + 3);
        assert(2 * l - q <= q) by (nonlinear_arith)
            requires
                q == mx,
                2 * l + e0 == mx + mn,
                0 <= e0 < 2,
                mn < mx,
        ;
    }
}

/// The ramp segment of [`hue_channel`] reconstructs a middle channel:
/// with `q` within 3 of `mx`, `p` within 3 of `mn`, and `a` within the
/// rounding slack of the scaled hue offset of channel `mn + x`, the ramp
/// lands within 40 of that channel.
proof fn lemma_ramp(p: int, q: int, mn: int, mx: int, x: int, a: int)
    requires
        0 <= mn,
        mx <= UNIT,
        mn < mx,
        0 <= x <= mx - mn,
        mn - 3 <= p <= mn + 3,
        mx - 3 <= q <= mx + 3,
        0 <= p <= q,
        0 <= a <= 166_666,
        6 * (mx - mn) * a <= x * UNIT,
        x * UNIT < 6 * (mx - mn) * a + 18 * (mx - mn),
    ensures
        mn + x - 40 <= p + (q - p) * a * 6 / (UNIT as int) <= mn + x + 40,
{
    let u = UNIT as int;
    let d = mx - mn;
    let c = q - p;
    assert(d - 6 <= c <= d + 6);
    assert(c * a * 6 <= x * u + 36 * a) by (nonlinear_arith)
        requires
            c <= d + 6,
            0 <= a,
            6 * d * a <= x * u,
    ;
    assert(c * a * 6 >= x * u - 18 * d - 36 * a) by (nonlinear_arith)
        requires
            c >= d - 6,
            0 <= a,
            x * u < 6 * d * a + 18 * d,
    ;
    assert(x * u - 24 * u <= c * a * 6 <= x * u + 6 * u);
    lemma_div_is_ordered(c * a * 6, x * u + 6 * u, u);
    lemma_div_is_ordered(x * u - 24 * u, c * a * 6, u);
    lemma_div_multiples_vanish(x + 6, u);
    lemma_div_multiples_vanish(x - 24, u);
    assert(x * u + 6 * u == u * (x + 6));
    assert(x * u - 24 * u == u * (x - 24));
    assert(x - 24 <= c * a * 6 / u <= x + 6);
    assert((q - p) * a * 6 == c * a * 6);
}

/// Round trip: converting any color's RGB channels to hue, saturation
/// and lightness and back reproduces each channel within 40 fixed-point
/// units, four hundred-thousandths of the channel range; on achromatic
/// colors the round trip is exact ([`lemma_gray_round_trip`]).
pub proof fn lemma_rgb_round_trip(r: int, g: int, b: int)
    requires
        0 <= r <= UNIT,
        0 <= g <= UNIT,
        0 <= b <= UNIT,
    ensures
        ({
            let hsl = rgb_to_hsl_spec(r, g, b);
            let rgb = hsl_to_rgb_spec(hsl.0, hsl.1, hsl.2);
            &&& r - 40 <= rgb.0 <= r + 40
            &&& g - 40 <= rgb.1 <= g + 40
            &&& b - 40 <= rgb.2 <= b + 40
        }),
{
    let u = UNIT as int;
    let mx = max3(r, g, b);
    let mn = min3(r, g, b);
    if mx == mn {
        lemma_gray_round_trip(r);
    } else {
        let l = (mx + mn) / 2;
        let d = mx - mn;
        let s = if l < u / 2 {
            d * u / (mx + mn)
        } else {
            d * u / (2 * u - mx - mn)
        };
        lemma_q_p_near(mx, mn);
        let q = hsl_q(s, l);
        let p = hsl_p(s, l);
        if r == mx {
            if g >= b {
                assert(mn == b);
                let x = g - b;
                let h = x * u / (6 * d);
                lemma_frac_sixth(x, d);
                vstd::arithmetic::div_mod::lemma_fundamental_div_mod(x * u, 6 * d);
                assert(x * u == 6 * d * h + (x * u) % (6 * d));
                // red lands on the plateau at q
                assert(hue_channel(p, q, h + u / 3) == q);
                // blue lands on the plateau at p
                assert(h < u / 3);
                assert(hue_channel(p, q, h + (u - u / 3)) == p);
                // green comes back along the ramp
                if h < u / 6 {
                    lemma_ramp(p, q, mn, mx, x, h);
                    assert(hue_channel(p, q, h) == p + (q - p) * h * 6 / u);
                } else {
                    assert(h == u / 6);
                    assert(hue_channel(p, q, h) == q);
                    assert((d - x) * u <= 4 * d) by (nonlinear_arith)
                        requires
                            x * u >= 6 * d * (u / 6),
                            u == 1_000_000,
                            0 < d,
                    ;
                    assert(d - x <= 4);
                }
            } else {
                assert(mn == g);
                let x = b - g;
                let e = x * u / (6 * d);
                lemma_frac_sixth(x, d);
                vstd::arithmetic::div_mod::lemma_fundamental_div_mod(x * u, 6 * d);
                let h = u - e;
                // red wraps around onto the plateau at q
                assert(h + u / 3 > u);
                assert(hue_channel(p, q, h + u / 3) == q);
                // green lands on the plateau at p
                assert(hue_channel(p, q, h) == p);
                // blue comes back along the descending ramp
                assert(h >= u / 3);
                let tb = h - u / 3;
                if e >= 2 {
                    assert(2 * u / 3 - tb == e - 1);
                    assert(6 * d * (e - 1) <= x * u && x * u < 6 * d * (e - 1) + 18 * d)
                        by (nonlinear_arith)
                        requires
                            x * u == 6 * d * e + (x * u) % (6 * d),
                            0 <= (x * u) % (6 * d) < 6 * d,
                            1 <= d,
                    ;
                    lemma_ramp(p, q, mn, mx, x, e - 1);
                    assert(hue_channel(p, q, tb) == p + (q - p) * (2 * u / 3 - tb) * 6 / u);
                } else {
                    assert(hue_channel(p, q, tb) == p);
                    assert(x * u < 18 * d) by (nonlinear_arith)
                        requires
                            x * u == 6 * d * (x * u / (6 * d)) + (x * u) % (6 * d),
                            0 <= (x * u) % (6 * d) < 6 * d,
                            x * u / (6 * d) <= 1,
                            1 <= d,
                    ;
                    assert(x <= 17) by (nonlinear_arith)
                        requires
                            x * u < 18 * d,
                            d <= u,
                            0 <= x,
                            u == 1_000_000,
                    ;
                }
            }
        } else if g == mx {
            assert(r < mx);
            if b >= r {
                assert(mn == r);
                let x = b - r;
                let f = x * u / (6 * d);
                lemma_frac_sixth(x, d);
                vstd::arithmetic::div_mod::lemma_fundamental_div_mod(x * u, 6 * d);
                let h = u / 3 + f;
                // green on the plateau at q, red on the plateau at p
                assert(hue_channel(p, q, h) == q);
                assert(hue_channel(p, q, h + u / 3) == p);
                // blue comes back along the ramp
                assert(h >= u / 3);
                let tb = h - u / 3;
                assert(tb == f);
                if f < u / 6 {
                    lemma_ramp(p, q, mn, mx, x, f);
                    assert(hue_channel(p, q, tb) == p + (q - p) * tb * 6 / u);
                } else {
                    assert(f == u / 6);
                    assert(hue_channel(p, q, tb) == q);
                    assert((d - x) * u <= 4 * d) by (nonlinear_arith)
                        requires
                            x * u >= 6 * d * (u / 6),
                            u == 1_000_000,
                            0 < d,
                    ;
                    assert(d - x <= 4);
                }
            } else {
                assert(mn == b);
                let x = r - b;
                let e = x * u / (6 * d);
                lemma_frac_sixth(x, d);
                vstd::arithmetic::div_mod::lemma_fundamental_div_mod(x * u, 6 * d);
                let h = u / 3 - e;
                // green on the plateau at q
                assert(hue_channel(p, q, h) == q);
                // red comes back along the descending ramp
                let tr = h + u / 3;
                if e >= 1 {
                    assert(2 * u / 3 - tr == e);
                    lemma_ramp(p, q, mn, mx, x, e);
                    assert(hue_channel(p, q, tr) == p + (q - p) * (2 * u / 3 - tr) * 6 / u);
                } else {
                    assert(hue_channel(p, q, tr) == p);
                    assert(x * u < 6 * d) by (nonlinear_arith)
                        requires
                            x * u == 6 * d * (x * u / (6 * d)) + (x * u) % (6 * d),
                            0 <= (x * u) % (6 * d) < 6 * d,
                            x * u / (6 * d) == 0,
                            1 <= d,
                    ;
                    assert(x <= 5) by (nonlinear_arith)
                        requires
                            x * u < 6 * d,
                            d <= u,
                            0 <= x,
                            u == 1_000_000,
                    ;
                }
                // blue lands on the plateau at p, or at the ramp's foot
                if e >= 1 {
                    assert(h < u / 3);
                    assert(hue_channel(p, q, h + (u - u / 3)) == p);
                } else {
                    assert(h == u / 3);
                    assert(hue_channel(p, q, h - u / 3) == p + (q - p) * 0 * 6 / u);
                    assert((q - p) * 0 == 0);
                    assert(0int / u == 0);
                }
            }
        } else {
            assert(b == mx);
            assert(r < mx && g < mx);
            if r >= g {
                assert(mn == g);
                let x = r - g;
                let f = x * u / (6 * d);
                lemma_frac_sixth(x, d);
                vstd::arithmetic::div_mod::lemma_fundamental_div_mod(x * u, 6 * d);
                let h = 2 * u / 3 + f;
                // blue on the plateau at q, green on the plateau at p
                assert(h >= u / 3);
                assert(hue_channel(p, q, h - u / 3) == q);
                assert(hue_channel(p, q, h) == p);
                // red comes back along the ramp, wrapped past the top
                let tr = h + u / 3;
                if f >= 2 {
                    assert(tr > u);
                    assert(tr - u == f - 1);
                    assert(6 * d * (f - 1) <= x * u && x * u < 6 * d * (f - 1) + 18 * d)
                        by (nonlinear_arith)
                        requires
                            x * u == 6 * d * f + (x * u) % (6 * d),
                            0 <= (x * u) % (6 * d) < 6 * d,
                            1 <= d,
                    ;
                    lemma_ramp(p, q, mn, mx, x, f - 1);
                    assert(hue_channel(p, q, tr) == p + (q - p) * (tr - u) * 6 / u);
                } else {
                    assert(hue_channel(p, q, tr) == p);
                    assert(x * u < 18 * d) by (nonlinear_arith)
                        requires
                            x * u == 6 * d * (x * u / (6 * d)) + (x * u) % (6 * d),
                            0 <= (x * u) % (6 * d) < 6 * d,
                            x * u / (6 * d) <= 1,
                            1 <= d,
                    ;
                    assert(x <= 17) by (nonlinear_arith)
                        requires
                            x * u < 18 * d,
                            d <= u,
                            0 <= x,
                            u == 1_000_000,
                    ;
                }
            } else {
                assert(mn == r);
                let x = g - r;
                let e = x * u / (6 * d);
                lemma_frac_sixth(x, d);
                vstd::arithmetic::div_mod::lemma_fundamental_div_mod(x * u, 6 * d);
                let h = 2 * u / 3 - e;
                // blue on the plateau at q, red on the plateau at p
                assert(h >= u / 3);
                assert(hue_channel(p, q, h - u / 3) == q);
                assert(hue_channel(p, q, h + u / 3) == p);
                // green comes back along the descending ramp
                if e >= 1 {
                    assert(2 * u / 3 - h == e);
                    lemma_ramp(p, q, mn, mx, x, e);
                    assert(hue_channel(p, q, h) == p + (q - p) * (2 * u / 3 - h) * 6 / u);
                } else {
                    assert(hue_channel(p, q, h) == p);
                    assert(x * u < 6 * d) by (nonlinear_arith)
                        requires
                            x * u == 6 * d * (x * u / (6 * d)) + (x * u) % (6 * d),
                            0 <= (x * u) % (6 * d) < 6 * d,
                            x * u / (6 * d) == 0,
                            1 <= d,
                    ;
                    assert(x <= 5) by (nonlinear_arith)
                        requires
                            x * u < 6 * d,
                            d <= u,
                            0 <= x,
                            u == 1_000_000,
                    ;
                }
            }
        }
    }
}

/// Round trip on achromatic colors: a color whose three RGB channels are
/// equal converts to hue 0, saturation 0, lightness equal to that channel,
/// and converting back reproduces the channels exactly.
pub proof fn lemma_gray_round_trip(v: int)
    requires
        0 <= v <= UNIT,
    ensures
        rgb_to_hsl_spec(v, v, v) == (0int, 0int, v),
        hsl_to_rgb_spec(0, 0, v) == (v, v, v),
{
    assert((v + v) / 2 == v);
}

} // verus!
