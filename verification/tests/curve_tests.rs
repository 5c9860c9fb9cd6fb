use particle_editor::curve::{curve_update, point_near, Curve, CurveCanvas, CurvePoint};
use particle_editor::store::{WidgetId, WidgetStore};
use particle_editor::units::{norm_clamped, value_clamped, UNIT};

const U: u64 = UNIT;

fn canvas() -> CurveCanvas {
    CurveCanvas { pos_x: 0, pos_y: 0, width: 200, height: 100, value_min: 0, value_max: 2 * U }
}

fn points_of(curve: &Curve) -> Vec<(u64, u64)> {
    curve.points.iter().map(|p| (p.x, p.value)).collect()
}

#[test]
fn cursor_outside_canvas_is_clamped() {
    // far left and far right of a 200-pixel axis
    assert_eq!(norm_clamped(0, 200, -500), 0);
    assert_eq!(norm_clamped(0, 200, 900), U);
    // below and above a 100-pixel canvas displaying [0, 2]
    assert_eq!(value_clamped(0, 100, 0, 2 * U, 250), 0);
    assert_eq!(value_clamped(0, 100, 0, 2 * U, -100), 2 * U);
}

#[test]
fn tap_inserts_one_sorted_point() {
    // start with the two conventional endpoints; tap at normalized
    // x = 0.3 where the canvas maps the cursor's y to value 1.5
    let mut store = WidgetStore::new();
    let id = WidgetId::new(1);
    let mut curve = Curve::from_points(vec![
        CurvePoint { x: 0, value: U },
        CurvePoint { x: U, value: U },
    ]);
    curve_update(&mut store, &id, &canvas(), 60, 25, true, &mut curve);
    assert_eq!(
        points_of(&curve),
        vec![(0, U), (300_000, 1_500_000), (U, U)]
    );
    // insertion starts no drag: releasing changes nothing
    curve_update(&mut store, &id, &canvas(), 60, 25, false, &mut curve);
    assert_eq!(curve.points.len(), 3);
}

#[test]
fn tap_near_existing_point_starts_drag_not_insert() {
    let mut store = WidgetStore::new();
    let id = WidgetId::new(1);
    let mut curve = Curve::from_points(vec![
        CurvePoint { x: 0, value: U },
        CurvePoint { x: 400_000, value: U },
        CurvePoint { x: U, value: U },
    ]);
    // cursor at normalized x = 0.4, y mapping to value 1.4
    curve_update(&mut store, &id, &canvas(), 80, 30, true, &mut curve);
    assert_eq!(curve.points.len(), 3);
    // the picked point keeps its x but takes the cursor's value
    assert_eq!(points_of(&curve)[1], (400_000, 1_400_000));
}

#[test]
fn drag_keeps_index_even_past_neighbor() {
    let mut store = WidgetStore::new();
    let id = WidgetId::new(1);
    let mut curve = Curve::from_points(vec![
        CurvePoint { x: 300_000, value: U },
        CurvePoint { x: 400_000, value: U },
        CurvePoint { x: U, value: U },
    ]);
    // press at x = 0.4: the first point within the threshold is index 1
    // (index 0 is exactly at the threshold, which does not count)
    curve_update(&mut store, &id, &canvas(), 80, 30, true, &mut curve);
    assert_eq!(points_of(&curve)[1], (400_000, 1_400_000));
    // drag left past the neighbor at x = 0.3: still index 1, no re-sort
    curve_update(&mut store, &id, &canvas(), 20, 30, true, &mut curve);
    assert_eq!(
        points_of(&curve),
        vec![(300_000, U), (100_000, 1_400_000), (U, U)]
    );
    // release clears the drag session and leaves the points alone
    curve_update(&mut store, &id, &canvas(), 20, 30, false, &mut curve);
    assert_eq!(
        points_of(&curve),
        vec![(300_000, U), (100_000, 1_400_000), (U, U)]
    );
    // the next insertion re-sorts the whole sequence
    curve_update(&mut store, &id, &canvas(), 140, 30, true, &mut curve);
    let pts = points_of(&curve);
    assert_eq!(pts.len(), 4);
    assert_eq!(pts[2], (700_000, 1_400_000));
    for w in pts.windows(2) {
        assert!(w[0].0 <= w[1].0);
    }
}

#[test]
fn identical_x_ties_go_to_the_first_point() {
    let mut store = WidgetStore::new();
    let id = WidgetId::new(1);
    let mut curve = Curve::from_points(vec![
        CurvePoint { x: 400_000, value: U },
        CurvePoint { x: 400_000, value: 1_800_000 },
    ]);
    // both points are equally near the cursor: the first one is picked
    curve_update(&mut store, &id, &canvas(), 80, 30, true, &mut curve);
    assert_eq!(points_of(&curve), vec![(400_000, 1_400_000), (400_000, 1_800_000)]);
}

#[test]
fn press_outside_canvas_changes_nothing() {
    let mut store = WidgetStore::new();
    let id = WidgetId::new(1);
    let mut curve = Curve::from_points(vec![
        CurvePoint { x: 0, value: U },
        CurvePoint { x: U, value: U },
    ]);
    curve_update(&mut store, &id, &canvas(), 300, 150, true, &mut curve);
    assert_eq!(points_of(&curve), vec![(0, U), (U, U)]);
}

#[test]
fn highlight_threshold_is_strict() {
    assert!(point_near(400_000, 400_000));
    assert!(point_near(400_000, 499_999));
    assert!(!point_near(400_000, 500_000));
    assert!(!point_near(500_000, 400_000));
    assert!(point_near(500_000, 400_001));
}

#[test]
fn two_editors_have_independent_drag_sessions() {
    // the drag session is keyed by the curve's own widget identity
    let mut store = WidgetStore::new();
    let id_a = WidgetId::new(1);
    let id_b = WidgetId::new(2);
    let mut curve_a = Curve::from_points(vec![
        CurvePoint { x: 400_000, value: U },
        CurvePoint { x: U, value: U },
    ]);
    let mut curve_b = Curve::from_points(vec![
        CurvePoint { x: 0, value: U },
        CurvePoint { x: U, value: U },
    ]);
    // editor A starts a drag on its first point
    curve_update(&mut store, &id_a, &canvas(), 80, 30, true, &mut curve_a);
    // editor B sees no drag session: its press inserts a fresh point
    curve_update(&mut store, &id_b, &canvas(), 100, 30, true, &mut curve_b);
    assert_eq!(curve_b.points.len(), 3);
}
