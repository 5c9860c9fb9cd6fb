//! Fixed-point scalars and the clamped mappings between screen
//! coordinates and normalized editor values.
//!
//! A quantity that the GUI treats as a real number in [0, 1] is stored
//! as an integer number of parts of [`UNIT`]; a screen coordinate is a
//! whole number of pixels.  Every mapping from a cursor position into a
//! normalized domain clamps its result, so no out-of-range value can
//! reach persistent state.

use vstd::prelude::*;

verus! {

/// Fixed-point denominator: the integer that stands for the real value 1.
pub const UNIT: u64 = 1_000_000;

/// Largest magnitude of a screen coordinate the editor accepts, in pixels.
pub const MAX_COORD: i64 = 1_000_000;

/// Largest extent (width, height, value span) the editor accepts.
pub const MAX_SPAN: u64 = 1_000_000_000_000;

/// Normalized position of `pos` on the axis that starts at `origin` and is
/// `extent` pixels long, scaled to [0, `UNIT`] and clamped to that interval.
pub open spec fn norm_clamped_spec(origin: int, extent: int, pos: int) -> int {
    let scaled = (pos - origin) * (UNIT as int) / extent;
    if scaled <= 0 {
        0
    } else if scaled >= UNIT {
        UNIT as int
    } else {
        scaled
    }
}

/// Value encoded by vertical cursor position `pos_y` on a canvas whose top
/// edge is `origin_y`, whose height is `h` pixels, and whose displayed range
/// is [`vmin`, `vmax`] with `vmax` at the top; clamped to [`vmin`, `vmax`].
pub open spec fn value_clamped_spec(origin_y: int, h: int, vmin: int, vmax: int, pos_y: int) -> int {
    let raw = (h - (pos_y - origin_y)) * (vmax - vmin) / h;
    if raw <= vmin {
        vmin
    } else if raw >= vmax {
        vmax
    } else {
        raw
    }
}

/// Clamping: for every cursor position, also one far outside the axis,
/// the normalized coordinate stays within [0, `UNIT`]; it is never
/// extrapolated.
pub proof fn lemma_norm_clamped_in_range(origin: int, extent: int, pos: int)
    requires
        1 <= extent,
    ensures
        0 <= norm_clamped_spec(origin, extent, pos) <= UNIT,
{
}

/// Clamping: for every cursor position, also one far outside the canvas,
/// the encoded value stays within [`vmin`, `vmax`]; it is never
/// extrapolated.
pub proof fn lemma_value_clamped_in_range(origin_y: int, h: int, vmin: int, vmax: int, pos_y: int)
    requires
        1 <= h,
        vmin <= vmax,
    ensures
        vmin <= value_clamped_spec(origin_y, h, vmin, vmax, pos_y) <= vmax,
{
}

/// Computes [`norm_clamped_spec`]: cursor position to normalized [0, `UNIT`].
///
/// The result is clamped for every cursor position, also one far outside
/// the axis.
pub fn norm_clamped(origin: i64, extent: u64, pos: i64) -> (t: u64)
    requires
        1 <= extent <= MAX_SPAN,
        -MAX_COORD <= origin <= MAX_COORD,
        -MAX_COORD <= pos <= MAX_COORD,
    ensures
        t == norm_clamped_spec(origin as int, extent as int, pos as int),
        t <= UNIT,
{
    if pos <= origin {
        proof {
            assert((pos - origin) * (UNIT as int) / (extent as int) <= 0) by (nonlinear_arith)
                requires
                    pos - origin <= 0,
                    extent >= 1,
            ;
        }
        0
    } else {
        let dx: u64 = (pos - origin) as u64;
        let scaled: u64 = dx * UNIT / extent;
        if scaled >= UNIT {
            UNIT
        } else {
            proof {
                assert((pos - origin) * (UNIT as int) / (extent as int) >= 0) by (nonlinear_arith)
                    requires
                        pos - origin >= 0,
                        extent >= 1,
                ;
            }
            scaled
        }
    }
}

/// Computes [`value_clamped_spec`]: vertical cursor position to a value in
/// [`vmin`, `vmax`], with `vmax` at the canvas top.
///
/// The result is clamped for every cursor position, also one far outside
/// the canvas.
pub fn value_clamped(origin_y: i64, h: u64, vmin: u64, vmax: u64, pos_y: i64) -> (v: u64)
    requires
        1 <= h <= MAX_COORD,
        -MAX_COORD <= origin_y <= MAX_COORD,
        -MAX_COORD <= pos_y <= MAX_COORD,
        vmin <= vmax,
        vmax - vmin <= MAX_SPAN,
    ensures
        v == value_clamped_spec(origin_y as int, h as int, vmin as int, vmax as int, pos_y as int),
        vmin <= v <= vmax,
{
    let num: i64 = (h as i64) - (pos_y - origin_y);
    if num <= 0 {
        proof {
            assert((h - (pos_y - origin_y)) * (vmax - vmin) / (h as int) <= 0) by (nonlinear_arith)
                requires
                    h - (pos_y - origin_y) <= 0,
                    h >= 1,
                    vmax - vmin >= 0,
            ;
        }
        vmin
    } else {
        proof {
            assert((num as int) * ((vmax - vmin) as int) <= 3_000_000 * (MAX_SPAN as int))
                by (nonlinear_arith)
                requires
                    0 <= num <= 3_000_000,
                    0 <= vmax - vmin <= MAX_SPAN,
            ;
        }
        let raw: u64 = (num as u64) * (vmax - vmin) / h;
        proof {
            assert((h - (pos_y - origin_y)) * (vmax - vmin) / (h as int) >= 0) by (nonlinear_arith)
                requires
                    h - (pos_y - origin_y) >= 1,
                    h >= 1,
                    vmax - vmin >= 0,
            ;
        }
        if raw <= vmin {
            vmin
        } else if raw >= vmax {
            vmax
        } else {
            raw
        }
    }
}

} // verus!
