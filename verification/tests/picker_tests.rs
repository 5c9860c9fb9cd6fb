use particle_editor::color::Color;
use particle_editor::picker::{
    apply_hsl_edit, close_requested, colorbox_begin, colorbox_end, gradient_pixels,
    marker_offsets, surface_apply, surface_sample, PickerLayout,
};
use particle_editor::store::{WidgetId, WidgetStore};
use particle_editor::units::UNIT;

const U: u64 = UNIT;

fn layout() -> PickerLayout {
    PickerLayout { pos_x: 0, pos_y: 0 }
}

#[test]
fn surface_sample_maps_cursor_linearly() {
    // the surface spans (0,20) to (200,220); its center samples
    // hue 0.5 and lightness 0.5
    assert_eq!(surface_sample(&layout(), 100, 120), Some((500_000, 500_000)));
    // one pixel in from the top-left corner: low hue, high lightness
    assert_eq!(surface_sample(&layout(), 1, 21), Some((5_000, 995_000)));
}

#[test]
fn surface_sample_misses_outside_and_on_edges() {
    assert_eq!(surface_sample(&layout(), -50, 120), None);
    assert_eq!(surface_sample(&layout(), 100, 10), None);
    // the border itself does not sample
    assert_eq!(surface_sample(&layout(), 0, 120), None);
    assert_eq!(surface_sample(&layout(), 200, 120), None);
    assert_eq!(surface_sample(&layout(), 100, 20), None);
    assert_eq!(surface_sample(&layout(), 100, 220), None);
}

#[test]
fn surface_tap_sets_rgb_and_keeps_alpha() {
    let mut c = Color::new(U, 0, 0, 250_000);
    // center tap: hue 0.5, lightness 0.5 at saturation 1 is near-cyan
    surface_apply(&layout(), 100, 120, true, false, &mut c);
    assert_eq!(c.r, 0);
    assert_eq!(c.g, 999_996);
    assert_eq!(c.b, U);
    assert_eq!(c.a, 250_000);
}

#[test]
fn surface_without_press_or_when_captured_changes_nothing() {
    let start = Color::new(U, 0, 0, U);
    let mut c = start;
    surface_apply(&layout(), 100, 120, false, false, &mut c);
    assert_eq!(c, start);
    surface_apply(&layout(), 100, 120, true, true, &mut c);
    assert_eq!(c, start);
}

#[test]
fn hsl_slider_edit_commits_rgb_and_keeps_alpha() {
    // the end-to-end slider scenario: from red, set hue 0.5 at
    // saturation 1 and lightness 0.5; the result approximates cyan
    let mut c = Color::new(U, 0, 0, U);
    apply_hsl_edit(&mut c, U / 2, U, U / 2);
    assert_eq!(c.r, 0);
    assert!(U - c.g <= 10);
    assert_eq!(c.b, U);
    assert_eq!(c.a, U);
}

#[test]
fn close_conditions() {
    let lay = PickerLayout { pos_x: 100, pos_y: 100 };
    // each trigger alone closes
    assert!(close_requested(&lay, 150, 150, true, false, false, false));
    assert!(close_requested(&lay, 150, 150, false, true, false, false));
    assert!(close_requested(&lay, 150, 150, false, false, true, false));
    // a press outside the expanded panel rectangle closes
    assert!(close_requested(&lay, 500, 150, false, false, false, true));
    // a press inside it does not
    assert!(!close_requested(&lay, 150, 150, false, false, false, true));
    // the margin belongs to the inside
    assert!(!close_requested(&lay, 90, 90, false, false, false, true));
    assert!(!close_requested(&lay, 320, 510, false, false, false, true));
    assert!(close_requested(&lay, 89, 150, false, false, false, true));
    // no trigger, no close
    assert!(!close_requested(&lay, 500, 150, false, false, false, false));
}

#[test]
fn marker_tracks_current_color() {
    // pure red: lightness 0.5, hue 0
    let c = Color::new(U, 0, 0, U);
    assert_eq!(marker_offsets(&c), (100, 20));
    // white: lightness 1 puts the marker at the left edge
    let w = Color::new(U, U, U, U);
    assert_eq!(marker_offsets(&w), (0, 20));
}

#[test]
fn colorbox_click_toggles_open_flag() {
    let mut store = WidgetStore::new();
    let id = WidgetId::new(5);
    assert_eq!(colorbox_begin(&mut store, &id, false), false);
    assert_eq!(colorbox_begin(&mut store, &id, true), true);
    assert_eq!(colorbox_begin(&mut store, &id, false), true);
    assert_eq!(colorbox_begin(&mut store, &id, true), false);
}

#[test]
fn close_signal_clears_flag_until_next_click() {
    let mut store = WidgetStore::new();
    let id = WidgetId::new(5);
    // open the picker, then let it signal close
    assert_eq!(colorbox_begin(&mut store, &id, true), true);
    colorbox_end(&mut store, &id, true);
    // the flag is false and stays false over later frames without a
    // click, whatever close signals arrive
    assert_eq!(colorbox_begin(&mut store, &id, false), false);
    colorbox_end(&mut store, &id, true);
    assert_eq!(colorbox_begin(&mut store, &id, false), false);
    colorbox_end(&mut store, &id, false);
    assert_eq!(colorbox_begin(&mut store, &id, false), false);
    // only a fresh click reopens
    assert_eq!(colorbox_begin(&mut store, &id, true), true);
}

#[test]
fn gradient_pixels_encode_hue_and_lightness() {
    let pix = gradient_pixels(4, 4);
    assert_eq!(pix.len(), 16);
    // column 0 has lightness 1: white, whatever the hue
    for j in 0..4 {
        assert_eq!(pix[j * 4], Color::new(U, U, U, U));
    }
    // row 0, column 2: hue 0 at lightness 0.5 is pure red
    assert_eq!(pix[2], Color::new(U, 0, 0, U));
}
