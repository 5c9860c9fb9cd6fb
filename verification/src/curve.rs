//! The control-point curve editor.
//!
//! A curve is an ordered sequence of control points, each a pair of a
//! normalized x in [0, `UNIT`] and a value in a displayed range; an
//! external evaluator interpolates between the points, the editor only
//! edits them.  Each frame the editor maps the cursor into normalized
//! coordinates (clamped), and while the primary button is held it either
//! continues an active drag session, picks up a nearby point, or inserts
//! a new one and re-sorts.  Re-sorting is deliberately suppressed while a
//! drag is active, so the dragged index stays valid even when the point
//! moves past a neighbor.
//!
//! The whole per-frame behavior is a pure step function,
//! [`curve_step`]; the executable update is proved to compute it.

use vstd::prelude::*;
use vstd::seq_lib::group_to_multiset_ensures;

use crate::store::{Slot, WidgetId, WidgetStore};
use crate::units::{
    norm_clamped, norm_clamped_spec, value_clamped, value_clamped_spec, MAX_COORD, MAX_SPAN, UNIT,
};

verus! {

/// Proximity threshold in normalized x: a point this close to the cursor
/// is picked up instead of inserting a new one, and is highlighted.
pub const NEAR_X: u64 = UNIT / 10;

/// One control point: normalized x and displayed value.
#[derive(Clone, Copy, PartialEq, Eq, Structural, Debug)]
pub struct CurvePoint {
    pub x: u64,
    pub value: u64,
}

/// The fixed canvas the curve is edited on: its top-left corner and size
/// in pixels, and the value range displayed between its bottom and top
/// edges.
#[derive(Clone, Copy, Debug)]
pub struct CurveCanvas {
    pub pos_x: i64,
    pub pos_y: i64,
    pub width: u64,
    pub height: u64,
    pub value_min: u64,
    pub value_max: u64,
}

impl CurveCanvas {
    /// The canvas has positive size, lies within the coordinate bounds,
    /// and displays a nonempty value range.
    pub open spec fn wf(self) -> bool {
        &&& 1 <= self.width <= MAX_COORD
        &&& 1 <= self.height <= MAX_COORD
        &&& -MAX_COORD <= self.pos_x && self.pos_x + self.width <= MAX_COORD
        &&& -MAX_COORD <= self.pos_y && self.pos_y + self.height <= MAX_COORD
        &&& self.value_min <= self.value_max
        &&& self.value_max - self.value_min <= MAX_SPAN
    }

    /// Whether a cursor position lies on the canvas, edges included.
    pub open spec fn contains_spec(self, mx: int, my: int) -> bool {
        self.pos_x <= mx <= self.pos_x + self.width && self.pos_y <= my <= self.pos_y + self.height
    }

    /// Decides [`CurveCanvas::contains_spec`].
    pub fn contains(&self, mx: i64, my: i64) -> (r: bool)
        requires
            self.wf(),
            -MAX_COORD <= mx <= MAX_COORD,
            -MAX_COORD <= my <= MAX_COORD,
        ensures
            r == self.contains_spec(mx as int, my as int),
    {
        mx >= self.pos_x && mx - self.pos_x <= self.width as i64 && my >= self.pos_y && my
            - self.pos_y <= self.height as i64
    }

    /// Normalized x encoded by the cursor, clamped to [0, `UNIT`].
    pub open spec fn norm_x_spec(self, mx: int) -> int {
        norm_clamped_spec(self.pos_x as int, self.width as int, mx)
    }

    /// Value encoded by the cursor, clamped to [value_min, value_max].
    pub open spec fn value_at_spec(self, my: int) -> int {
        value_clamped_spec(
            self.pos_y as int,
            self.height as int,
            self.value_min as int,
            self.value_max as int,
            my,
        )
    }
}

/// Whether normalized x `x` lies strictly within the proximity threshold
/// of the cursor's normalized x `t`.
pub open spec fn near_spec(x: int, t: int) -> bool {
    -(NEAR_X as int) < x - t < NEAR_X as int
}

/// Decides [`near_spec`]: whether a point is close enough to the cursor
/// to be picked up or highlighted.
pub fn point_near(x: u64, t: u64) -> (r: bool)
    requires
        x <= UNIT,
        t <= UNIT,
    ensures
        r == near_spec(x as int, t as int),
{
    if x >= t {
        x - t < NEAR_X
    } else {
        t - x < NEAR_X
    }
}

/// The first index at or after `i` whose point is near `t`, if any.
pub open spec fn find_near_from(points: Seq<CurvePoint>, t: int, i: int) -> Option<int>
    decreases points.len() - i,
    when 0 <= i <= points.len()
{
    if i >= points.len() {
        None
    } else if near_spec(points[i].x as int, t) {
        Some(i)
    } else {
        find_near_from(points, t, i + 1)
    }
}

/// The first index whose point is near `t`, if any: ties between close
/// points go to the earliest index in current sequence order.
pub open spec fn find_near(points: Seq<CurvePoint>, t: int) -> Option<int> {
    find_near_from(points, t, 0)
}

proof fn lemma_find_near_bounds(points: Seq<CurvePoint>, t: int, j: int)
    requires
        0 <= j <= points.len(),
    ensures
        match find_near_from(points, t, j) {
            Some(i) => j <= i < points.len() && near_spec(points[i].x as int, t),
            None => true,
        },
    decreases points.len() - j,
{
    if j < points.len() && !near_spec(points[j].x as int, t) {
        lemma_find_near_bounds(points, t, j + 1);
    }
}

proof fn lemma_find_near_prefix(points: Seq<CurvePoint>, t: int, i: int)
    requires
        0 <= i <= points.len(),
        forall|j: int| 0 <= j < i ==> !near_spec(points[j].x as int, t),
    ensures
        find_near(points, t) == find_near_from(points, t, i),
    decreases i,
{
    if i > 0 {
        lemma_find_near_prefix(points, t, i - 1);
    }
}

/// Stable insertion of `p`: `p` goes in front of the longest suffix of
/// points whose x exceeds `p.x`.
pub open spec fn insert_by_x(s: Seq<CurvePoint>, p: CurvePoint) -> Seq<CurvePoint>
    decreases s.len(),
{
    if s.len() == 0 {
        seq![p]
    } else if s.last().x <= p.x {
        s.push(p)
    } else {
        insert_by_x(s.drop_last(), p).push(s.last())
    }
}

/// Stable insertion sort of the points by x alone: the order the editor
/// restores after inserting a new point.
pub open spec fn sort_by_x(s: Seq<CurvePoint>) -> Seq<CurvePoint>
    decreases s.len(),
{
    if s.len() == 0 {
        Seq::empty()
    } else {
        insert_by_x(sort_by_x(s.drop_last()), s.last())
    }
}

/// Non-decreasing in x.
pub open spec fn x_sorted(s: Seq<CurvePoint>) -> bool {
    forall|i: int, j: int| 0 <= i < j < s.len() ==> s[i].x <= s[j].x
}

/// Inserting a point into a sequence sorted by x keeps it sorted by x.
pub proof fn lemma_insert_by_x_sorted(s: Seq<CurvePoint>, p: CurvePoint)
    requires
        x_sorted(s),
    ensures
        x_sorted(insert_by_x(s, p)),
    decreases s.len(),
{
    broadcast use group_to_multiset_ensures;

    if s.len() == 0 {
    } else if s.last().x <= p.x {
    } else {
        assert(x_sorted(s.drop_last()));
        lemma_insert_by_x_sorted(s.drop_last(), p);
        let r = insert_by_x(s.drop_last(), p);
        lemma_insert_by_x_multiset(s.drop_last(), p);
        assert forall|i: int| 0 <= i < r.len() implies r[i].x <= s.last().x by {
            assert(r.to_multiset().contains(r[i]));
            if r[i] != p {
                assert(s.drop_last().to_multiset().contains(r[i]));
                let k = choose|k: int| 0 <= k < s.drop_last().len() && s.drop_last()[k] == r[i];
                assert(s[k].x <= s.last().x);
            }
        }
    }
}

/// Sorting by x yields a sequence non-decreasing in x.
pub proof fn lemma_sort_by_x_sorted(s: Seq<CurvePoint>)
    ensures
        x_sorted(sort_by_x(s)),
    decreases s.len(),
{
    if s.len() > 0 {
        lemma_sort_by_x_sorted(s.drop_last());
        lemma_insert_by_x_sorted(sort_by_x(s.drop_last()), s.last());
    }
}

/// Inserting a point adds exactly that point to the sequence's multiset.
pub proof fn lemma_insert_by_x_multiset(s: Seq<CurvePoint>, p: CurvePoint)
    ensures
        insert_by_x(s, p).to_multiset() == s.to_multiset().insert(p),
        insert_by_x(s, p).len() == s.len() + 1,
    decreases s.len(),
{
    broadcast use group_to_multiset_ensures;

    if s.len() == 0 {
        assert(seq![p] =~= s.push(p));
        assert(s.push(p).to_multiset() =~= s.to_multiset().insert(p));
    } else if s.last().x <= p.x {
        assert(s.push(p).to_multiset() =~= s.to_multiset().insert(p));
    } else {
        lemma_insert_by_x_multiset(s.drop_last(), p);
        let r = insert_by_x(s.drop_last(), p);
        assert(r.push(s.last()).to_multiset() =~= r.to_multiset().insert(s.last()));
        assert(s.drop_last().push(s.last()) =~= s);
        assert(s.drop_last().push(s.last()).to_multiset() =~= s.drop_last().to_multiset().insert(
            s.last(),
        ));
        assert(s.drop_last().to_multiset().insert(p).insert(s.last())
            =~= s.drop_last().to_multiset().insert(s.last()).insert(p));
    }
}

/// Sorting by x permutes the points: same multiset, same length.
pub proof fn lemma_sort_by_x_multiset(s: Seq<CurvePoint>)
    ensures
        sort_by_x(s).to_multiset() == s.to_multiset(),
        sort_by_x(s).len() == s.len(),
    decreases s.len(),
{
    broadcast use group_to_multiset_ensures;

    if s.len() > 0 {
        lemma_sort_by_x_multiset(s.drop_last());
        lemma_insert_by_x_multiset(sort_by_x(s.drop_last()), s.last());
        assert(s.drop_last().push(s.last()) =~= s);
        assert(s.drop_last().push(s.last()).to_multiset() =~= s.drop_last().to_multiset().insert(
            s.last(),
        ));
    }
}

proof fn lemma_insert_by_x_at(s: Seq<CurvePoint>, p: CurvePoint, j: int)
    requires
        0 <= j <= s.len(),
        forall|k: int| j <= k < s.len() ==> s[k].x > p.x,
        j > 0 ==> s[j - 1].x <= p.x,
    ensures
        insert_by_x(s, p) == s.take(j).push(p) + s.skip(j),
    decreases s.len(),
{
    if j == s.len() {
        if s.len() == 0 {
            assert(seq![p] =~= s.take(0).push(p) + s.skip(0));
        } else {
            assert(s.push(p) =~= s.take(j).push(p) + s.skip(j));
        }
    } else {
        assert(s[s.len() - 1].x > p.x);
        lemma_insert_by_x_at(s.drop_last(), p, j);
        assert(s.drop_last().take(j) =~= s.take(j));
        assert((s.drop_last().take(j).push(p) + s.drop_last().skip(j)).push(s.last()) =~= s.take(
            j,
        ).push(p) + s.skip(j));
    }
}

fn vec_insert_by_x(out: &mut Vec<CurvePoint>, p: CurvePoint)
    ensures
        final(out)@ == insert_by_x(old(out)@, p),
{
    let mut j: usize = out.len();
    while j > 0 && out[j - 1].x > p.x
        invariant
            j <= out.len(),
            forall|k: int| j <= k < out@.len() ==> out@[k].x > p.x,
        decreases j,
    {
        j -= 1;
    }
    proof {
        lemma_insert_by_x_at(out@, p, j as int);
    }
    out.insert(j, p);
    proof {
        assert(old(out)@.insert(j as int, p) =~= old(out)@.take(j as int).push(p) + old(
            out,
        )@.skip(j as int));
    }
}

fn vec_sort_by_x(v: &mut Vec<CurvePoint>)
    ensures
        final(v)@ == sort_by_x(old(v)@),
{
    let mut out: Vec<CurvePoint> = Vec::new();
    let mut i: usize = 0;
    proof {
        assert(v@.take(0) =~= Seq::<CurvePoint>::empty());
    }
    while i < v.len()
        invariant
            i <= v@.len(),
            out@ == sort_by_x(v@.take(i as int)),
        decreases v@.len() - i,
    {
        let p = v[i];
        vec_insert_by_x(&mut out, p);
        proof {
            assert(v@.take(i as int + 1).drop_last() =~= v@.take(i as int));
            assert(v@.take(i as int + 1).last() == v@[i as int]);
        }
        i += 1;
    }
    proof {
        assert(v@.take(v@.len() as int) =~= v@);
    }
    *v = out;
}

/// The curve under edit: its ordered control points.
pub struct Curve {
    pub points: Vec<CurvePoint>,
}

impl View for Curve {
    type V = Seq<CurvePoint>;

    open spec fn view(&self) -> Seq<CurvePoint> {
        self.points@
    }
}

impl Curve {
    /// At least two points, each with x in [0, `UNIT`] and value in the
    /// canvas's displayed range.
    pub open spec fn wf(&self, vmin: u64, vmax: u64) -> bool {
        &&& self@.len() >= 2
        &&& forall|i: int|
            0 <= i < self@.len() ==> (#[trigger] self@[i]).x <= UNIT && vmin <= self@[i].value
                <= vmax
    }

    /// A curve from its control points; the caller supplies at least the
    /// two conventional endpoints.
    pub fn from_points(points: Vec<CurvePoint>) -> (c: Curve)
        requires
            points@.len() >= 2,
        ensures
            c@ == points@,
    {
        Curve { points }
    }
}

/// One frame of the curve editor as a pure function: from the points, the
/// active drag session, and the frame's cursor and button state, to the
/// new points and the new drag session.
///
/// While the button is held: an active drag overwrites the dragged
/// point's x and value with the cursor's clamped coordinates, without
/// re-sorting; otherwise, a press on the canvas either picks up the first
/// point near the cursor's x (starting a drag and setting its value) or
/// inserts a new point and re-sorts by x.  Releasing the button clears
/// the drag session.
pub open spec fn curve_step(
    points: Seq<CurvePoint>,
    drag: Option<usize>,
    canvas: CurveCanvas,
    mx: int,
    my: int,
    button_down: bool,
) -> (Seq<CurvePoint>, Option<usize>) {
    if !button_down {
        (points, None::<usize>)
    } else {
        let t = canvas.norm_x_spec(mx);
        let v = canvas.value_at_spec(my);
        match drag {
            Some(ix) => (
                points.update(ix as int, CurvePoint { x: t as u64, value: v as u64 }),
                Some(ix),
            ),
            None => {
                if canvas.contains_spec(mx, my) {
                    match find_near(points, t) {
                        Some(i) => (
                            points.update(i, CurvePoint { x: points[i].x, value: v as u64 }),
                            Some(i as usize),
                        ),
                        None => (
                            sort_by_x(points.push(CurvePoint { x: t as u64, value: v as u64 })),
                            None::<usize>,
                        ),
                    }
                } else {
                    (points, None::<usize>)
                }
            },
        }
    }
}

/// The drag session recorded in a store snapshot under key `k`: the
/// stored index, or None when nothing (or a foreign slot kind) is there.
pub open spec fn drag_of(m: Map<Seq<u64>, Slot>, k: Seq<u64>) -> Option<usize> {
    if m.contains_key(k) {
        match m[k] {
            Slot::DragIndex(v) => v,
            Slot::Flag(_) => None,
        }
    } else {
        None
    }
}

/// Runs one frame of the curve editor: computes [`curve_step`] on the
/// curve and the drag session persisted in `store` under `id`, and
/// writes both results back.
///
/// A drag session which indexes outside the curve means the curve was
/// truncated externally; that is a caller error, excluded by
/// precondition.
pub fn curve_update(
    store: &mut WidgetStore,
    id: &WidgetId,
    canvas: &CurveCanvas,
    mouse_x: i64,
    mouse_y: i64,
    button_down: bool,
    curve: &mut Curve,
)
    requires
        old(store).wf(),
        canvas.wf(),
        old(curve).wf(canvas.value_min, canvas.value_max),
        -MAX_COORD <= mouse_x <= MAX_COORD,
        -MAX_COORD <= mouse_y <= MAX_COORD,
        old(store)@.contains_key(id@) ==> old(store)@[id@] is DragIndex,
        (match drag_of(old(store)@, id@) {
            Some(ix) => ix < old(curve)@.len(),
            None => true,
        }),
    ensures
        final(store).wf(),
        final(curve).wf(canvas.value_min, canvas.value_max),
        ({
            let (pts, drag) = curve_step(
                old(curve)@,
                drag_of(old(store)@, id@),
                *canvas,
                mouse_x as int,
                mouse_y as int,
                button_down,
            );
            final(curve)@ == pts && final(store)@ == old(store)@.insert(
                id@,
                Slot::DragIndex(drag),
            )
        }),
{
    let drag = store.get_drag(id);
    if button_down {
        let t = norm_clamped(canvas.pos_x, canvas.width, mouse_x);
        let v = value_clamped(
            canvas.pos_y,
            canvas.height,
            canvas.value_min,
            canvas.value_max,
            mouse_y,
        );
        match drag {
            Some(ix) => {
                let p = CurvePoint { x: t, value: v };
                curve.points.remove(ix);
                curve.points.insert(ix, p);
                proof {
                    assert(curve@ =~= old(curve)@.update(ix as int, p));
                }
            },
            None => {
                if canvas.contains(mouse_x, mouse_y) {
                    match curve_find_near(curve, t) {
                        Some(i) => {
                            let p = CurvePoint { x: curve.points[i].x, value: v };
                            curve.points.remove(i);
                            curve.points.insert(i, p);
                            store.set_drag(id, Some(i));
                            proof {
                                assert(curve@ =~= old(curve)@.update(i as int, p));
                                assert(store@ =~= old(store)@.insert(
                                    id@,
                                    Slot::DragIndex(Some(i)),
                                ));
                            }
                        },
                        None => {
                            let p = CurvePoint { x: t, value: v };
                            curve.points.push(p);
                            vec_sort_by_x(&mut curve.points);
                            proof {
                                broadcast use group_to_multiset_ensures;

                                lemma_sort_by_x_multiset(old(curve)@.push(p));
                                assert forall|k: int|
                                    0 <= k < curve@.len() implies (#[trigger] curve@[k]).x <= UNIT
                                    && canvas.value_min <= curve@[k].value <= canvas.value_max by {
                                    assert(curve@.to_multiset().contains(curve@[k]));
                                    assert(old(curve)@.push(p).to_multiset().contains(curve@[k]));
                                    assert(old(curve)@.push(p).contains(curve@[k]));
                                    let m = choose|m: int|
                                        0 <= m < old(curve)@.push(p).len() && old(curve)@.push(p)[m]
                                            == curve@[k];
                                    if m < old(curve)@.len() {
                                        assert(old(curve)@[m] == curve@[k]);
                                    }
                                }
                            }
                        },
                    }
                }
            },
        }
    } else {
        store.set_drag(id, None);
        proof {
            assert(store@ =~= old(store)@.insert(id@, Slot::DragIndex(None::<usize>)));
        }
    }
}

/// The curve state left after a run of frames, each a triple of the
/// frame's cursor x, cursor y and button state, folding [`curve_step`].
pub open spec fn curve_run(
    points: Seq<CurvePoint>,
    drag: Option<usize>,
    canvas: CurveCanvas,
    frames: Seq<(int, int, bool)>,
) -> (Seq<CurvePoint>, Option<usize>)
    decreases frames.len(),
{
    if frames.len() == 0 {
        (points, drag)
    } else {
        let s = curve_step(points, drag, canvas, frames[0].0, frames[0].1, frames[0].2);
        curve_run(s.0, s.1, canvas, frames.drop_first())
    }
}

/// Drag index stability: a drag session started on point index `k`
/// keeps dragging index `k` through every frame in which the button
/// stays held; every such frame rewrites only point `k`, never
/// re-sorts, and never changes the number of points — even when the
/// dragged x moves past a neighbor's.
pub proof fn lemma_drag_session_stable(
    points: Seq<CurvePoint>,
    canvas: CurveCanvas,
    k: usize,
    frames: Seq<(int, int, bool)>,
)
    requires
        k < points.len(),
        forall|i: int| 0 <= i < frames.len() ==> (#[trigger] frames[i]).2,
    ensures
        ({
            let (pts, drag) = curve_run(points, Some(k), canvas, frames);
            &&& drag == Some(k)
            &&& pts.len() == points.len()
            &&& forall|j: int| 0 <= j < pts.len() && j != k ==> pts[j] == points[j]
        }),
    decreases frames.len(),
{
    if frames.len() > 0 {
        let s = curve_step(points, Some(k), canvas, frames[0].0, frames[0].1, frames[0].2);
        lemma_drag_session_stable(s.0, canvas, k, frames.drop_first());
    }
}

/// Sort invariant: any frame processed without an active drag session
/// leaves a sorted curve sorted.  A point picked up by proximity keeps
/// its x, an insertion re-sorts, and everything else leaves the points
/// alone; only frames inside a drag session may disturb the order.
pub proof fn lemma_sorted_outside_drag(
    points: Seq<CurvePoint>,
    canvas: CurveCanvas,
    mx: int,
    my: int,
    button_down: bool,
)
    requires
        x_sorted(points),
    ensures
        x_sorted(curve_step(points, None, canvas, mx, my, button_down).0),
{
    let t = canvas.norm_x_spec(mx);
    let v = canvas.value_at_spec(my);
    if button_down && canvas.contains_spec(mx, my) {
        match find_near(points, t) {
            Some(i) => {
                lemma_find_near_bounds(points, t, 0);
                let u = points.update(i, CurvePoint { x: points[i].x, value: v as u64 });
                assert forall|a: int, b: int| 0 <= a < b < u.len() implies u[a].x <= u[b].x by {
                    assert(points[a].x <= points[b].x);
                }
            },
            None => {
                lemma_sort_by_x_sorted(points.push(CurvePoint { x: t as u64, value: v as u64 }));
            },
        }
    }
}

/// Insertion: a press on the canvas with no existing point within the
/// proximity threshold of the cursor's normalized x, and no active drag,
/// inserts exactly one new point — at the cursor's clamped coordinates —
/// grows the curve by exactly one, leaves it sorted by x, and starts no
/// drag session.
pub proof fn lemma_insertion(
    points: Seq<CurvePoint>,
    canvas: CurveCanvas,
    mx: int,
    my: int,
)
    requires
        canvas.contains_spec(mx, my),
        find_near(points, canvas.norm_x_spec(mx)) is None,
    ensures
        ({
            let p = CurvePoint {
                x: canvas.norm_x_spec(mx) as u64,
                value: canvas.value_at_spec(my) as u64,
            };
            let (pts, drag) = curve_step(points, None, canvas, mx, my, true);
            &&& pts.len() == points.len() + 1
            &&& pts.to_multiset() == points.to_multiset().insert(p)
            &&& x_sorted(pts)
            &&& drag is None
        }),
{
    broadcast use group_to_multiset_ensures;

    let p = CurvePoint {
        x: canvas.norm_x_spec(mx) as u64,
        value: canvas.value_at_spec(my) as u64,
    };
    lemma_sort_by_x_multiset(points.push(p));
    lemma_sort_by_x_sorted(points.push(p));
    assert(points.push(p).to_multiset() =~= points.to_multiset().insert(p));
}

/// The first point of the curve within the proximity threshold of
/// normalized cursor x `t`, in current sequence order: decides
/// [`find_near`].
pub fn curve_find_near(curve: &Curve, t: u64) -> (r: Option<usize>)
    requires
        t <= UNIT,
        forall|i: int| 0 <= i < curve@.len() ==> (#[trigger] curve@[i]).x <= UNIT,
    ensures
        match r {
            Some(i) => i < curve@.len() && find_near(curve@, t as int) == Some(i as int),
            None => find_near(curve@, t as int) is None,
        },
{
    let mut k: usize = 0;
    while k < curve.points.len()
        invariant
            k <= curve@.len(),
            t <= UNIT,
            forall|i: int| 0 <= i < curve@.len() ==> (#[trigger] curve@[i]).x <= UNIT,
            forall|j: int| 0 <= j < k ==> !near_spec(curve@[j].x as int, t as int),
        decreases curve@.len() - k,
    {
        if point_near(curve.points[k].x, t) {
            proof {
                lemma_find_near_prefix(curve@, t as int, k as int);
            }
            return Some(k);
        }
        k += 1;
    }
    proof {
        lemma_find_near_prefix(curve@, t as int, curve@.len() as int);
    }
    None
}

} // verus!
