//! The HSL/RGB color picker and the color box that opens it.
//!
//! The picker is a modal panel: a gradient surface sampling hue and
//! lightness at full saturation, a preview bar, RGB/HSL/alpha sliders
//! and an ok button.  The color box is a swatch that toggles the
//! picker's persistent "open" flag and clears it when the picker signals
//! close.  Everything that decides — sampling, clamping, committing
//! slider edits, the close conditions, and the flag's lifecycle — is
//! specified here; drawing is left to the caller.

use vstd::prelude::*;

use crate::color::{hsl_to_rgb, hsl_to_rgb_spec, rgb_to_hsl, rgb_to_hsl_spec, Color};
use crate::store::{Slot, WidgetId, WidgetStore};
use crate::units::{MAX_COORD, UNIT};
use vstd::arithmetic::div_mod::{
    lemma_div_is_ordered, lemma_div_multiples_vanish, lemma_div_pos_is_pos,
};
use vstd::arithmetic::mul::lemma_mul_inequality;

verus! {

/// Side of the square gradient surface, in pixels.
pub const SURFACE_SIDE: u64 = 200;

/// Vertical offset of the gradient surface below the panel anchor, in
/// pixels: the preview bar sits above it.
pub const SURFACE_TOP_OFFSET: u64 = 20;

/// Margin around the panel: a primary-button press farther out than this
/// closes the picker.
pub const CLOSE_MARGIN: i64 = 10;

/// Width of the expanded close-detection rectangle, in pixels.
pub const PANEL_WIDTH: i64 = 230;

/// Height of the expanded close-detection rectangle, in pixels.
pub const PANEL_HEIGHT: i64 = 420;

/// Where the picker panel is anchored on screen, in pixels.
#[derive(Clone, Copy, Debug)]
pub struct PickerLayout {
    pub pos_x: i64,
    pub pos_y: i64,
}

impl PickerLayout {
    /// The anchor leaves room for the panel within the coordinate bounds.
    pub open spec fn wf(self) -> bool {
        -(MAX_COORD - 1_000) <= self.pos_x <= MAX_COORD - 1_000 && -(MAX_COORD - 1_000)
            <= self.pos_y <= MAX_COORD - 1_000
    }
}

/// The hue and lightness sampled from a cursor position strictly inside
/// the gradient surface, or None when the cursor is not on the surface.
/// Across the surface, hue runs top to bottom and lightness right to
/// left, both linearly.
pub open spec fn surface_sample_spec(pos_x: int, pos_y: int, mx: int, my: int) -> Option<
    (int, int),
> {
    let x = mx - pos_x;
    let y = my - (pos_y + SURFACE_TOP_OFFSET);
    if 0 < x < SURFACE_SIDE && 0 < y < SURFACE_SIDE {
        Some(
            (
                y * UNIT / (SURFACE_SIDE as int),
                UNIT - x * UNIT / (SURFACE_SIDE as int),
            ),
        )
    } else {
        None
    }
}

/// Samples hue and lightness under the cursor: decides
/// [`surface_sample_spec`], with both components clamped by construction
/// to [0, `UNIT`].
pub fn surface_sample(layout: &PickerLayout, mx: i64, my: i64) -> (r: Option<(u64, u64)>)
    requires
        layout.wf(),
        -MAX_COORD <= mx <= MAX_COORD,
        -MAX_COORD <= my <= MAX_COORD,
    ensures
        match r {
            Some(hl) => {
                surface_sample_spec(layout.pos_x as int, layout.pos_y as int, mx as int, my as int)
                    == Some((hl.0 as int, hl.1 as int)) && hl.0 <= UNIT && hl.1 <= UNIT
            },
            None => surface_sample_spec(
                layout.pos_x as int,
                layout.pos_y as int,
                mx as int,
                my as int,
            ) is None,
        },
{
    if mx > layout.pos_x && mx - layout.pos_x < SURFACE_SIDE as i64 && my > layout.pos_y
        + SURFACE_TOP_OFFSET as i64 && my - (layout.pos_y + SURFACE_TOP_OFFSET as i64)
        < SURFACE_SIDE as i64 {
        let x: u64 = (mx - layout.pos_x) as u64;
        let y: u64 = (my - (layout.pos_y + SURFACE_TOP_OFFSET as i64)) as u64;
        proof {
            lemma_div_is_ordered(y as int * UNIT, SURFACE_SIDE as int * UNIT, SURFACE_SIDE as int);
            lemma_div_multiples_vanish(UNIT as int, SURFACE_SIDE as int);
            lemma_div_pos_is_pos(y as int * UNIT, SURFACE_SIDE as int);
            lemma_div_is_ordered(x as int * UNIT, SURFACE_SIDE as int * UNIT, SURFACE_SIDE as int);
            lemma_div_pos_is_pos(x as int * UNIT, SURFACE_SIDE as int);
        }
        let hue: u64 = y * UNIT / SURFACE_SIDE;
        let light: u64 = UNIT - x * UNIT / SURFACE_SIDE;
        Some((hue, light))
    } else {
        None
    }
}

/// One frame of pointer interaction with the gradient surface: while the
/// primary button is down, the cursor is on the surface, and no other
/// widget captures the pointer, the color's RGB channels are set from
/// the sampled hue and lightness at saturation 1, keeping alpha;
/// otherwise the color is unchanged.
pub open spec fn surface_step_spec(
    pos_x: int,
    pos_y: int,
    mx: int,
    my: int,
    button_down: bool,
    mouse_captured: bool,
    c: Color,
) -> Color {
    match surface_sample_spec(pos_x, pos_y, mx, my) {
        Some(hl) => {
            if button_down && !mouse_captured {
                let rgb = hsl_to_rgb_spec(hl.0, UNIT as int, hl.1);
                Color { r: rgb.0 as u64, g: rgb.1 as u64, b: rgb.2 as u64, a: c.a }
            } else {
                c
            }
        },
        None => c,
    }
}

/// Applies one frame of gradient-surface interaction to the color:
/// computes [`surface_step_spec`].
pub fn surface_apply(
    layout: &PickerLayout,
    mx: i64,
    my: i64,
    button_down: bool,
    mouse_captured: bool,
    color: &mut Color,
)
    requires
        layout.wf(),
        -MAX_COORD <= mx <= MAX_COORD,
        -MAX_COORD <= my <= MAX_COORD,
        old(color).wf(),
    ensures
        final(color).wf(),
        *final(color) == surface_step_spec(
            layout.pos_x as int,
            layout.pos_y as int,
            mx as int,
            my as int,
            button_down,
            mouse_captured,
            *old(color),
        ),
{
    match surface_sample(layout, mx, my) {
        Some(hl) => {
            if button_down && !mouse_captured {
                let rgb = hsl_to_rgb(hl.0, UNIT, hl.1);
                *color = Color { r: rgb.0, g: rgb.1, b: rgb.2, a: color.a };
            }
        },
        None => {},
    }
}

/// The color after an HSL slider edit: RGB recomputed from the sliders'
/// hue, saturation and lightness, alpha kept.  The picker commits this
/// every frame, so HSL edits take precedence over the RGB shown earlier
/// in the same frame.
pub open spec fn hsl_commit_spec(c: Color, h: int, s: int, l: int) -> Color {
    let rgb = hsl_to_rgb_spec(h, s, l);
    Color { r: rgb.0 as u64, g: rgb.1 as u64, b: rgb.2 as u64, a: c.a }
}

/// Commits the HSL sliders into the color: computes [`hsl_commit_spec`].
pub fn apply_hsl_edit(color: &mut Color, h: u64, s: u64, l: u64)
    requires
        old(color).wf(),
        h <= UNIT,
        s <= UNIT,
        l <= UNIT,
    ensures
        final(color).wf(),
        *final(color) == hsl_commit_spec(*old(color), h as int, s as int, l as int),
{
    let rgb = hsl_to_rgb(h, s, l);
    *color = Color { r: rgb.0, g: rgb.1, b: rgb.2, a: color.a };
}

/// Whether the picker should close this frame: the ok button was
/// activated, an escape or confirm key is held, or the primary button
/// was pressed outside the panel's expanded rectangle (the panel plus
/// [`CLOSE_MARGIN`] on each side, edges included).
pub open spec fn close_requested_spec(
    pos_x: int,
    pos_y: int,
    mx: int,
    my: int,
    ok_pressed: bool,
    escape_down: bool,
    enter_down: bool,
    button_pressed: bool,
) -> bool {
    ||| ok_pressed
    ||| escape_down
    ||| enter_down
    ||| (button_pressed && !(pos_x - CLOSE_MARGIN <= mx <= pos_x - CLOSE_MARGIN + PANEL_WIDTH
        && pos_y - CLOSE_MARGIN <= my <= pos_y - CLOSE_MARGIN + PANEL_HEIGHT))
}

/// Decides [`close_requested_spec`] for this frame's input.
pub fn close_requested(
    layout: &PickerLayout,
    mx: i64,
    my: i64,
    ok_pressed: bool,
    escape_down: bool,
    enter_down: bool,
    button_pressed: bool,
) -> (r: bool)
    requires
        layout.wf(),
        -MAX_COORD <= mx <= MAX_COORD,
        -MAX_COORD <= my <= MAX_COORD,
    ensures
        r == close_requested_spec(
            layout.pos_x as int,
            layout.pos_y as int,
            mx as int,
            my as int,
            ok_pressed,
            escape_down,
            enter_down,
            button_pressed,
        ),
{
    let inside = mx >= layout.pos_x - CLOSE_MARGIN && mx <= layout.pos_x - CLOSE_MARGIN
        + PANEL_WIDTH && my >= layout.pos_y - CLOSE_MARGIN && my <= layout.pos_y - CLOSE_MARGIN
        + PANEL_HEIGHT;
    ok_pressed || escape_down || enter_down || (button_pressed && !inside)
}

/// Horizontal and vertical pixel offsets, within the panel, of the
/// marker the gradient surface draws at the current color's lightness
/// and hue.  The marker tracks the color itself, so it follows slider
/// edits as well as surface taps.
pub open spec fn marker_offsets_spec(c: Color) -> (int, int) {
    let hsl = rgb_to_hsl_spec(c.r as int, c.g as int, c.b as int);
    (
        (UNIT - hsl.2) * SURFACE_SIDE / (UNIT as int),
        hsl.0 * SURFACE_SIDE / (UNIT as int) + SURFACE_TOP_OFFSET,
    )
}

/// Computes [`marker_offsets_spec`]; both offsets stay on the panel.
pub fn marker_offsets(c: &Color) -> (o: (u64, u64))
    requires
        c.wf(),
    ensures
        (o.0 as int, o.1 as int) == marker_offsets_spec(*c),
        o.0 <= SURFACE_SIDE,
        o.1 <= SURFACE_SIDE + SURFACE_TOP_OFFSET,
{
    let hsl = rgb_to_hsl(c.r, c.g, c.b);
    proof {
        lemma_mul_inequality((UNIT - hsl.2) as int, UNIT as int, SURFACE_SIDE as int);
        lemma_div_is_ordered(
            (UNIT - hsl.2) as int * SURFACE_SIDE,
            UNIT as int * SURFACE_SIDE,
            UNIT as int,
        );
        lemma_div_multiples_vanish(SURFACE_SIDE as int, UNIT as int);
        assert(UNIT as int * SURFACE_SIDE == SURFACE_SIDE as int * UNIT);
        lemma_mul_inequality(hsl.0 as int, UNIT as int, SURFACE_SIDE as int);
        lemma_div_is_ordered(hsl.0 as int * SURFACE_SIDE, UNIT as int * SURFACE_SIDE, UNIT as int);
        assert((UNIT - hsl.2) as int * SURFACE_SIDE == (UNIT - hsl.2) * SURFACE_SIDE);
        assert(hsl.0 as int * SURFACE_SIDE == hsl.0 * SURFACE_SIDE);
    }
    let mx: u64 = (UNIT - hsl.2) * SURFACE_SIDE / UNIT;
    let my: u64 = hsl.0 * SURFACE_SIDE / UNIT + SURFACE_TOP_OFFSET;
    (mx, my)
}

/// The boolean flag recorded in a store snapshot under key `k`, false
/// when nothing (or a foreign slot kind) is there.
pub open spec fn flag_of(m: Map<Seq<u64>, Slot>, k: Seq<u64>) -> bool {
    if m.contains_key(k) {
        match m[k] {
            Slot::Flag(v) => v,
            Slot::DragIndex(_) => false,
        }
    } else {
        false
    }
}

/// The color box's open flag after the click phase of a frame: a click
/// on the swatch toggles it.
pub open spec fn colorbox_toggle_spec(open: bool, clicked: bool) -> bool {
    if clicked {
        !open
    } else {
        open
    }
}

/// The color box's open flag after a whole frame: a click toggles it,
/// and if the picker runs (the flag is set) and signals close, the flag
/// is cleared.
pub open spec fn colorbox_frame_spec(open: bool, clicked: bool, close_signal: bool) -> bool {
    let o = colorbox_toggle_spec(open, clicked);
    if o && close_signal {
        false
    } else {
        o
    }
}

/// The open flag left after a run of whole frames, each a pair of the
/// frame's clicked and close-signal inputs.
pub open spec fn colorbox_run(open: bool, frames: Seq<(bool, bool)>) -> bool
    decreases frames.len(),
{
    if frames.len() == 0 {
        open
    } else {
        colorbox_run(colorbox_frame_spec(open, frames[0].0, frames[0].1), frames.drop_first())
    }
}

/// A close signal always leaves the flag false, whatever the click.
pub proof fn lemma_close_signal_closes(open: bool, clicked: bool)
    ensures
        colorbox_frame_spec(open, clicked, true) == false,
{
}

/// Once closed, the picker stays closed: from a false flag, any run of
/// frames without a swatch click leaves the flag false, whatever close
/// signals occur.
pub proof fn lemma_close_is_idempotent(frames: Seq<(bool, bool)>)
    requires
        forall|i: int| 0 <= i < frames.len() ==> !(#[trigger] frames[i]).0,
    ensures
        colorbox_run(false, frames) == false,
    decreases frames.len(),
{
    if frames.len() > 0 {
        assert(colorbox_frame_spec(false, frames[0].0, frames[0].1) == false);
        lemma_close_is_idempotent(frames.drop_first());
    }
}

/// The click phase of the color box: a click on the swatch toggles the
/// persistent open flag; returns the flag, which tells the caller
/// whether to render the picker this frame.
pub fn colorbox_begin(store: &mut WidgetStore, id: &WidgetId, clicked: bool) -> (open: bool)
    requires
        old(store).wf(),
        old(store)@.contains_key(id@) ==> old(store)@[id@] is Flag,
    ensures
        final(store).wf(),
        open == colorbox_toggle_spec(flag_of(old(store)@, id@), clicked),
        final(store)@ == old(store)@.insert(id@, Slot::Flag(open)),
{
    let cur = store.get_flag(id);
    if clicked {
        store.set_flag(id, !cur);
        proof {
            assert(store@ =~= old(store)@.insert(id@, Slot::Flag(!cur)));
        }
        !cur
    } else {
        cur
    }
}

/// The close phase of the color box: when the picker it rendered this
/// frame signals close, the open flag is cleared; otherwise the store is
/// untouched.
pub fn colorbox_end(store: &mut WidgetStore, id: &WidgetId, close_signal: bool)
    requires
        old(store).wf(),
    ensures
        final(store).wf(),
        final(store)@ == if close_signal {
            old(store)@.insert(id@, Slot::Flag(false))
        } else {
            old(store)@
        },
{
    if close_signal {
        store.set_flag(id, false);
    }
}

/// The color of one pixel of the gradient surface texture: column `i` of
/// row `j` encodes hue `j / h` and lightness `1 - i / h` at saturation 1
/// and full alpha, with `h` the texture's height.
pub open spec fn gradient_pixel_spec(i: int, j: int, h: int) -> Color {
    let rgb = hsl_to_rgb_spec(j * UNIT / h, UNIT as int, UNIT - i * UNIT / h);
    Color { r: rgb.0 as u64, g: rgb.1 as u64, b: rgb.2 as u64, a: UNIT }
}

/// The gradient surface texture as a row-major pixel vector: pixel
/// `(i, j)` is at index `j * w + i` and equals [`gradient_pixel_spec`].
/// Generated once and reused every frame.
pub fn gradient_pixels(w: usize, h: usize) -> (pix: Vec<Color>)
    requires
        1 <= w <= 10_000,
        w <= h <= 10_000,
    ensures
        pix@.len() == w * h,
        forall|i: int, j: int|
            0 <= i < w && 0 <= j < h ==> pix@[j * (w as int) + i] == gradient_pixel_spec(
                i,
                j,
                h as int,
            ),
{
    let mut pix: Vec<Color> = Vec::new();
    let mut j: usize = 0;
    while j < h
        invariant
            1 <= w <= 10_000,
            w <= h <= 10_000,
            j <= h,
            pix@.len() == j * w,
            forall|n: int|
                0 <= n < pix@.len() ==> pix@[n] == gradient_pixel_spec(
                    n % (w as int),
                    n / (w as int),
                    h as int,
                ),
        decreases h - j,
    {
        let mut i: usize = 0;
        proof {
            assert((j + 1) * w == j * w + w) by (nonlinear_arith);
            assert(j * w + w <= h * w) by (nonlinear_arith)
                requires
                    j + 1 <= h,
                    0 <= w,
            ;
            assert(h * w <= 100_000_000) by (nonlinear_arith)
                requires
                    0 <= h <= 10_000,
                    0 <= w <= 10_000,
            ;
        }
        while i < w
            invariant
                1 <= w <= 10_000,
                w <= h <= 10_000,
                j < h,
                i <= w,
                j * w + w <= h * w <= 100_000_000,
                (j + 1) * w == j * w + w,
                pix@.len() == j * w + i,
                forall|n: int|
                    0 <= n < pix@.len() ==> pix@[n] == gradient_pixel_spec(
                        n % (w as int),
                        n / (w as int),
                        h as int,
                    ),
            decreases w - i,
        {
            proof {
                lemma_mul_inequality(i as int, h as int, UNIT as int);
                assert(i as int * UNIT == UNIT as int * i) by (nonlinear_arith);
                assert(h as int * UNIT == UNIT as int * h) by (nonlinear_arith);
                lemma_mul_inequality(j as int, h as int, UNIT as int);
                assert(j as int * UNIT == UNIT as int * j) by (nonlinear_arith);
                lemma_div_is_ordered(UNIT as int * i, UNIT as int * h, h as int);
                lemma_div_is_ordered(UNIT as int * j, UNIT as int * h, h as int);
                assert(UNIT as int * h == h as int * UNIT) by (nonlinear_arith);
                lemma_div_multiples_vanish(UNIT as int, h as int);
                lemma_div_pos_is_pos(UNIT as int * i, h as int);
                lemma_div_pos_is_pos(UNIT as int * j, h as int);
                assert(UNIT as int * i == i as int * UNIT) by (nonlinear_arith);
                assert(UNIT as int * j == j as int * UNIT) by (nonlinear_arith);
            }
            let hue: u64 = (j as u64) * UNIT / (h as u64);
            let light: u64 = UNIT - (i as u64) * UNIT / (h as u64);
            let rgb = hsl_to_rgb(hue, UNIT, light);
            let c = Color { r: rgb.0, g: rgb.1, b: rgb.2, a: UNIT };
            pix.push(c);
            proof {
                let n = j * (w as int) + i;
                vstd::arithmetic::div_mod::lemma_fundamental_div_mod_converse(
                    n,
                    w as int,
                    j as int,
                    i as int,
                );
                assert(pix@[n] == gradient_pixel_spec(i as int, j as int, h as int));
            }
            i += 1;
        }
        j += 1;
    }
    proof {
        assert((h as int) * (w as int) == (w as int) * (h as int)) by (nonlinear_arith);
        assert forall|i: int, j: int| 0 <= i < w && 0 <= j < h implies pix@[j * (w as int) + i]
            == gradient_pixel_spec(i, j, h as int) by {
            let n = j * (w as int) + i;
            vstd::arithmetic::div_mod::lemma_fundamental_div_mod_converse(n, w as int, j, i);
            assert(0 <= n < pix@.len()) by (nonlinear_arith)
                requires
                    0 <= i < w,
                    0 <= j < h,
                    n == j * (w as int) + i,
                    pix@.len() == (h as int) * (w as int),
            ;
        }
    }
    pix
}

} // verus!
