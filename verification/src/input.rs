//! Stroke points, draw events and the input normalizer.
//!
//! Pointer samples arrive in a source coordinate frame whose origin and axis
//! orientation differ from the canvas frame. The normalizer re-centers them
//! onto the canvas and fills the gaps of fast strokes by linear interpolation,
//! so that every cycle hands the raster canvas a dense stream of draw events.

use vstd::arithmetic::div_mod::lemma_div_is_ordered;
use vstd::arithmetic::div_mod::lemma_div_multiples_vanish;
use vstd::arithmetic::div_mod::lemma_div_nonincreasing;
use vstd::arithmetic::div_mod::lemma_div_pos_is_pos;
use vstd::prelude::*;

use crate::state::PredictionState;

verus! {

/// A canvas-local point. Coordinates are whole pixels; the vertical axis of
/// the source frame grows upward, the canvas flips it when stamping.
#[derive(Clone, Copy, PartialEq, Eq, Structural, Debug)]
pub struct StrokePoint {
    pub x: i64,
    pub y: i64,
}

/// One unit of work for the raster canvas: stamp the brush at a point, or
/// wipe the whole buffer.
#[derive(Clone, Copy, PartialEq, Eq, Structural, Debug)]
pub enum DrawEvent {
    Draw(StrokePoint),
    Clear,
}

/// Magnitude bound on pointer and widget coordinates. Screen coordinates are
/// tiny against it; it keeps every distance and interpolation product inside
/// 64 bits.
pub const MAX_COORD: i64 = 1_000_000_000;

impl StrokePoint {
    /// Both coordinates within the supported range.
    pub open spec fn in_range(self) -> bool {
        -MAX_COORD <= self.x <= MAX_COORD && -MAX_COORD <= self.y <= MAX_COORD
    }
}

/// Placement of the drawing widget in the source coordinate frame: the
/// translation of its center and its logical size.
#[derive(Clone, Copy, PartialEq, Eq, Structural, Debug)]
pub struct Geometry {
    pub origin_x: i64,
    pub origin_y: i64,
    pub width: i64,
    pub height: i64,
}

impl Geometry {
    /// Nonnegative size and bounded placement.
    pub open spec fn wf(self) -> bool {
        -MAX_COORD <= self.origin_x <= MAX_COORD && -MAX_COORD <= self.origin_y <= MAX_COORD && 0
            <= self.width <= MAX_COORD && 0 <= self.height <= MAX_COORD
    }
}

/// Where a raw pointer sample lands on the canvas: shifted by the widget
/// translation and re-centered onto the widget's local frame, whose origin
/// sits at the widget center.
pub open spec fn transform_spec(raw: StrokePoint, g: Geometry) -> StrokePoint {
    StrokePoint {
        x: (raw.x - g.origin_x + g.width / 2) as i64,
        y: (raw.y - g.origin_y + g.height / 2) as i64,
    }
}

/// Converts one raw pointer sample into canvas-local coordinates.
pub fn to_canvas_local(raw: StrokePoint, g: &Geometry) -> (p: StrokePoint)
    requires
        raw.in_range(),
        g.wf(),
    ensures
        p == transform_spec(raw, *g),
        -3 * MAX_COORD <= p.x <= 3 * MAX_COORD,
        -3 * MAX_COORD <= p.y <= 3 * MAX_COORD,
{
    let half_w: i64 = ((g.width as u64) / 2) as i64;
    let half_h: i64 = ((g.height as u64) / 2) as i64;
    StrokePoint { x: raw.x - g.origin_x + half_w, y: raw.y - g.origin_y + half_h }
}

/// The integer square root: the largest integer whose square does not exceed
/// the argument.
pub open spec fn sqrt_floor(n: nat) -> nat
    decreases n,
{
    if n == 0 {
        0
    } else {
        let r = sqrt_floor((n - 1) as nat);
        if (r + 1) * (r + 1) <= n {
            r + 1
        } else {
            r
        }
    }
}

/// `sqrt_floor` brackets its argument between consecutive squares.
pub proof fn lemma_sqrt_floor_bounds(n: nat)
    ensures
        sqrt_floor(n) * sqrt_floor(n) <= n < (sqrt_floor(n) + 1) * (sqrt_floor(n) + 1),
    decreases n,
{
    if n > 0 {
        lemma_sqrt_floor_bounds((n - 1) as nat);
        let r = sqrt_floor((n - 1) as nat);
        assert(r * r <= n - 1 < (r + 1) * (r + 1));
        if (r + 1) * (r + 1) <= n {
            assert(sqrt_floor(n) == r + 1);
            assert(n < (r + 2) * (r + 2)) by (nonlinear_arith)
                requires
                    n - 1 < (r + 1) * (r + 1),
                    r >= 0,
            ;
        } else {
            assert(sqrt_floor(n) == r);
        }
    } else {
        assert(sqrt_floor(n) == 0);
        assert(0 * 0 <= n && n < (0 + 1) * (0 + 1)) by (nonlinear_arith)
            requires
                n == 0,
        ;
    }
}

/// Any integer bracketed between consecutive squares is the square root.
pub proof fn lemma_sqrt_floor_unique(n: nat, r: nat)
    requires
        r * r <= n < (r + 1) * (r + 1),
    ensures
        r == sqrt_floor(n),
{
    lemma_sqrt_floor_bounds(n);
    let s = sqrt_floor(n);
    if r < s {
        assert(false) by (nonlinear_arith)
            requires
                r < s,
                r >= 0,
                s * s <= n,
                n < (r + 1) * (r + 1),
        ;
    }
    if s < r {
        assert(false) by (nonlinear_arith)
            requires
                s < r,
                s >= 0,
                r * r <= n,
                n < (s + 1) * (s + 1),
        ;
    }
}

/// Computes the integer square root by bisection.
pub fn isqrt(n: u64) -> (r: u64)
    ensures
        r == sqrt_floor(n as nat),
        r * r <= n < (r + 1) * (r + 1),
{
    if n == 0 {
        proof {
            assert(0 * 0 <= (n as nat) && (n as nat) < (0 + 1) * (0 + 1)) by (nonlinear_arith)
                requires
                    n == 0u64,
            ;
            lemma_sqrt_floor_unique(n as nat, 0);
        }
        return 0;
    }
    let mut lo: u64 = 0;
    let mut hi: u64 = 0x1_0000_0000;
    assert((hi as int) * (hi as int) > n) by (nonlinear_arith)
        requires
            hi == 0x1_0000_0000u64,
            n <= 0xffff_ffff_ffff_ffffu64,
    ;
    while lo + 1 < hi
        invariant
            lo < hi <= 0x1_0000_0000,
            lo * lo <= n,
            (hi as int) * (hi as int) > n,
        decreases hi - lo,
    {
        let mid: u64 = lo + (hi - lo) / 2;
        assert(0 <= mid * mid <= 0x1_0000_0000_0000_0000) by (nonlinear_arith)
            requires
                0 <= mid <= 0x1_0000_0000u64,
        ;
        let sq: u128 = (mid as u128) * (mid as u128);
        if sq <= n as u128 {
            lo = mid;
        } else {
            hi = mid;
        }
    }
    proof {
        lemma_sqrt_floor_unique(n as nat, lo as nat);
    }
    lo
}

/// The squared Euclidean distance between two points.
pub open spec fn dist_sq(p0: StrokePoint, p1: StrokePoint) -> int {
    (p1.x - p0.x) * (p1.x - p0.x) + (p1.y - p0.y) * (p1.y - p0.y)
}

/// How many points a stroke segment is resolved into: three per 28 pixels
/// of distance and always at least three, so fast strokes leave no visible
/// gaps relative to the brush size.
pub open spec fn interp_steps(p0: StrokePoint, p1: StrokePoint) -> int {
    (sqrt_floor(dist_sq(p0, p1) as nat) as int / 28 + 1) * 3
}

/// Computes the number of interpolation points for a stroke segment.
pub fn interp_step_count(p0: StrokePoint, p1: StrokePoint) -> (k: u64)
    requires
        p0.in_range(),
        p1.in_range(),
    ensures
        k == interp_steps(p0, p1),
        3 <= k < 0x4000_0000,
{
    let dx: i64 = p1.x - p0.x;
    let dy: i64 = p1.y - p0.y;
    assert(0 <= dx * dx <= 0x3782_dace_9d90_0000i64 && 0 <= dy * dy
        <= 0x3782_dace_9d90_0000i64) by (nonlinear_arith)
        requires
            -2_000_000_000 <= dx <= 2_000_000_000,
            -2_000_000_000 <= dy <= 2_000_000_000,
    ;
    let d2: u64 = ((dx as i128) * (dx as i128) + (dy as i128) * (dy as i128)) as u64;
    let root: u64 = isqrt(d2);
    assert(root < 0x1_0000_0000) by (nonlinear_arith)
        requires
            root * root <= d2,
            d2 < 0x8000_0000_0000_0000u64,
            root >= 0,
    ;
    (root / 28 + 1) * 3
}

/// Truncating division, the rounding of hardware division: toward zero.
pub open spec fn div_trunc(a: int, b: int) -> int {
    if a >= 0 {
        a / b
    } else {
        -((-a) / b)
    }
}

/// One interpolated coordinate: the segment from `c0` to `c1` divided into
/// `steps - 1` equal parts, taken at part `i`.
pub open spec fn lerp_coord(c0: int, c1: int, i: int, steps: int) -> int {
    c0 + div_trunc((c1 - c0) * i, steps - 1)
}

/// One interpolated point of a stroke segment.
pub open spec fn lerp_point(p0: StrokePoint, p1: StrokePoint, i: int, steps: int) -> StrokePoint {
    StrokePoint {
        x: lerp_coord(p0.x as int, p1.x as int, i, steps) as i64,
        y: lerp_coord(p0.y as int, p1.y as int, i, steps) as i64,
    }
}

/// An interpolated coordinate never leaves the segment between its
/// endpoints.
pub proof fn lemma_lerp_coord_between(c0: int, c1: int, i: int, steps: int)
    requires
        2 <= steps,
        0 <= i <= steps - 1,
    ensures
        c0 <= c1 ==> c0 <= lerp_coord(c0, c1, i, steps) <= c1,
        c1 <= c0 ==> c1 <= lerp_coord(c0, c1, i, steps) <= c0,
{
    let d = c1 - c0;
    let den = steps - 1;
    if d >= 0 {
        assert(0 <= d * i <= d * den) by (nonlinear_arith)
            requires
                d >= 0,
                0 <= i <= den,
        ;
        lemma_div_pos_is_pos(d * i, den);
        lemma_div_is_ordered(d * i, d * den, den);
        lemma_div_multiples_vanish(d, den);
        assert(den * d == d * den) by (nonlinear_arith);
    } else {
        let m = -d;
        assert(0 <= m * i <= m * den) by (nonlinear_arith)
            requires
                m >= 0,
                0 <= i <= den,
        ;
        assert(-(d * i) == m * i) by (nonlinear_arith)
            requires
                m == -d,
        ;
        lemma_div_pos_is_pos(m * i, den);
        lemma_div_is_ordered(m * i, m * den, den);
        lemma_div_multiples_vanish(m, den);
        assert(den * m == m * den) by (nonlinear_arith);
    }
}

/// Truncating division of a bounded numerator by a positive denominator.
fn lerp_div(num: i64, den: i64) -> (q: i64)
    requires
        1 <= den,
        -0x4000_0000_0000_0000 <= num <= 0x4000_0000_0000_0000,
    ensures
        q == div_trunc(num as int, den as int),
        num >= 0 ==> 0 <= q <= num,
        num < 0 ==> num <= q <= 0,
{
    if num >= 0 {
        proof {
            lemma_div_pos_is_pos(num as int, den as int);
            lemma_div_nonincreasing(num as int, den as int);
        }
        ((num as u64) / (den as u64)) as i64
    } else {
        proof {
            lemma_div_pos_is_pos(-num as int, den as int);
            lemma_div_nonincreasing(-num as int, den as int);
        }
        -((((-num) as u64) / (den as u64)) as i64)
    }
}

/// Resolves a stroke segment into its interpolation points: one point per
/// step, the first at `p0`, the last exactly at `p1`.
pub fn interpolate(p0: StrokePoint, p1: StrokePoint) -> (pts: Vec<StrokePoint>)
    requires
        p0.in_range(),
        p1.in_range(),
    ensures
        pts@.len() == interp_steps(p0, p1),
        forall|i: int|
            0 <= i < pts@.len() ==> pts@[i] == lerp_point(p0, p1, i, interp_steps(p0, p1)),
        forall|i: int| 0 <= i < pts@.len() ==> (#[trigger] pts@[i]).in_range(),
        pts@[0] == p0,
        pts@[pts@.len() - 1] == p1,
{
    let steps: u64 = interp_step_count(p0, p1);
    let den: i64 = (steps - 1) as i64;
    let dx: i64 = p1.x - p0.x;
    let dy: i64 = p1.y - p0.y;
    let mut pts: Vec<StrokePoint> = Vec::new();
    let mut i: u64 = 0;
    while i < steps
        invariant
            pts@.len() == i,
            i <= steps,
            steps == interp_steps(p0, p1),
            3 <= steps < 0x4000_0000,
            den == steps - 1,
            dx == p1.x - p0.x,
            dy == p1.y - p0.y,
            p0.in_range(),
            p1.in_range(),
            forall|k: int| 0 <= k < i ==> pts@[k] == lerp_point(p0, p1, k, steps as int),
            forall|k: int| 0 <= k < i ==> (#[trigger] pts@[k]).in_range(),
        decreases steps - i,
    {
        assert(-0x4000_0000_0000_0000 <= dx * i <= 0x4000_0000_0000_0000 && -0x4000_0000_0000_0000
            <= dy * i <= 0x4000_0000_0000_0000) by (nonlinear_arith)
            requires
                -2_000_000_000 <= dx <= 2_000_000_000,
                -2_000_000_000 <= dy <= 2_000_000_000,
                0 <= i < 0x4000_0000u64,
        ;
        let num_x: i64 = dx * (i as i64);
        let num_y: i64 = dy * (i as i64);
        let qx: i64 = lerp_div(num_x, den);
        let qy: i64 = lerp_div(num_y, den);
        let x: i64 = p0.x + qx;
        let y: i64 = p0.y + qy;
        proof {
            lemma_lerp_coord_between(p0.x as int, p1.x as int, i as int, steps as int);
            lemma_lerp_coord_between(p0.y as int, p1.y as int, i as int, steps as int);
        }
        pts.push(StrokePoint { x, y });
        i = i + 1;
    }
    proof {
        let n = interp_steps(p0, p1);
        assert(div_trunc((p1.x - p0.x) * 0, n - 1) == 0) by {
            assert((p1.x - p0.x) * 0 == 0) by (nonlinear_arith);
            vstd::arithmetic::div_mod::lemma_div_of0(n - 1);
        }
        assert(div_trunc((p1.y - p0.y) * 0, n - 1) == 0) by {
            assert((p1.y - p0.y) * 0 == 0) by (nonlinear_arith);
            vstd::arithmetic::div_mod::lemma_div_of0(n - 1);
        }
        lemma_lerp_exact_end(p0.x as int, p1.x as int, n);
        lemma_lerp_exact_end(p0.y as int, p1.y as int, n);
    }
    pts
}

/// How the pointer relates to the drawing widget during one cycle.
#[derive(Clone, Copy, PartialEq, Eq, Structural, Debug)]
pub enum PointerInteraction {
    /// The widget is pressed; samples paint.
    Active,
    /// The pointer floats over the widget without pressing.
    Hover,
    /// The pointer is elsewhere or released.
    Inactive,
}

/// The clear event emitted when the pointer hovers over an idle canvas: a
/// deliberate quirk, hovering while the machine waits resets the drawing.
pub open spec fn hover_clear_events(
    interaction: PointerInteraction,
    state: PredictionState,
) -> Seq<DrawEvent> {
    if interaction is Hover && state is Wait {
        seq![DrawEvent::Clear]
    } else {
        Seq::empty()
    }
}

/// The draw events of one pointer sample: a single transformed point when no
/// previous position exists, else one point per interpolation step of the
/// segment from the previous position.
pub open spec fn sample_batch(
    last: Option<StrokePoint>,
    raw: StrokePoint,
    g: Geometry,
) -> Seq<DrawEvent> {
    match last {
        Option::None => seq![DrawEvent::Draw(transform_spec(raw, g))],
        Option::Some(prev) => Seq::new(
            interp_steps(prev, raw) as nat,
            |i: int| DrawEvent::Draw(transform_spec(lerp_point(prev, raw, i, interp_steps(prev, raw)), g)),
        ),
    }
}

/// The previous position after a run of samples: the last sample if there is
/// one, else whatever was stored before.
pub open spec fn last_after(
    last: Option<StrokePoint>,
    samples: Seq<StrokePoint>,
) -> Option<StrokePoint> {
    if samples.len() == 0 {
        last
    } else {
        Option::Some(samples.last())
    }
}

/// The draw events of a whole run of active pointer samples, each sample
/// interpolated against the position before it.
pub open spec fn stroke_events(
    last: Option<StrokePoint>,
    samples: Seq<StrokePoint>,
    g: Geometry,
) -> Seq<DrawEvent>
    decreases samples.len(),
{
    if samples.len() == 0 {
        Seq::empty()
    } else {
        stroke_events(last, samples.drop_last(), g) + sample_batch(
            last_after(last, samples.drop_last()),
            samples.last(),
            g,
        )
    }
}

/// Tracks the previous pointer position across cycles and turns raw samples
/// into draw events.
pub struct InputNormalizer {
    last_position: Option<StrokePoint>,
}

impl InputNormalizer {
    /// The stored previous pointer position, if the pointer stayed active.
    pub closed spec fn spec_last(self) -> Option<StrokePoint> {
        self.last_position
    }

    /// Any stored position is within the supported coordinate range.
    pub open spec fn wf(self) -> bool {
        match self.spec_last() {
            Option::Some(p) => p.in_range(),
            Option::None => true,
        }
    }

    /// A fresh normalizer with no previous position.
    pub fn new() -> (n: InputNormalizer)
        ensures
            n.spec_last() == Option::<StrokePoint>::None,
            n.wf(),
    {
        InputNormalizer { last_position: None }
    }

    /// Turns one cycle of mouse samples into draw events. While the widget
    /// is pressed, every sample paints, interpolated against the previous
    /// position; hovering over an idle canvas emits a clear; anything but a
    /// press forgets the previous position.
    pub fn mouse_events(
        &mut self,
        interaction: PointerInteraction,
        samples: &Vec<StrokePoint>,
        g: &Geometry,
        state: PredictionState,
    ) -> (evs: Vec<DrawEvent>)
        requires
            old(self).wf(),
            g.wf(),
            forall|i: int| 0 <= i < samples@.len() ==> (#[trigger] samples@[i]).in_range(),
        ensures
            final(self).wf(),
            final(self).spec_last() == (if interaction is Active {
                last_after(old(self).spec_last(), samples@)
            } else {
                Option::<StrokePoint>::None
            }),
            evs@ == hover_clear_events(interaction, state) + (if interaction is Active {
                stroke_events(old(self).spec_last(), samples@, *g)
            } else {
                Seq::<DrawEvent>::empty()
            }),
    {
        let ghost last0 = self.last_position;
        let mut evs: Vec<DrawEvent> = Vec::new();
        if matches!(interaction, PointerInteraction::Hover) && matches!(
            state,
            PredictionState::Wait,
        ) {
            evs.push(DrawEvent::Clear);
        }
        let ghost prefix = evs@;
        proof {
            assert(prefix =~= hover_clear_events(interaction, state));
        }
        match interaction {
            PointerInteraction::Active => {
                let n = samples.len();
                let mut idx: usize = 0;
                while idx < n
                    invariant
                        idx <= n,
                        n == samples@.len(),
                        g.wf(),
                        forall|i: int| 0 <= i < samples@.len() ==> (#[trigger] samples@[i]).in_range(),
                        self.last_position == last_after(last0, samples@.take(idx as int)),
                        self.wf(),
                        last0.is_some() ==> last0->0.in_range(),
                        evs@ == prefix + stroke_events(last0, samples@.take(idx as int), *g),
                    decreases n - idx,
                {
                    let p = samples[idx];
                    let ghost evs_start = evs@;
                    let ghost cur_last = self.last_position;
                    match self.last_position {
                        Option::Some(prev) => {
                            let pts = interpolate(prev, p);
                            let ghost batch = sample_batch(Option::Some(prev), p, *g);
                            let m = pts.len();
                            let mut t: usize = 0;
                            while t < m
                                invariant
                                    t <= m,
                                    m == pts@.len(),
                                    g.wf(),
                                    prev.in_range(),
                                    p.in_range(),
                                    pts@.len() == interp_steps(prev, p),
                                    forall|i: int|
                                        0 <= i < pts@.len() ==> pts@[i] == lerp_point(
                                            prev,
                                            p,
                                            i,
                                            interp_steps(prev, p),
                                        ),
                                    forall|i: int|
                                        0 <= i < pts@.len() ==> (#[trigger] pts@[i]).in_range(),
                                    batch == sample_batch(Option::Some(prev), p, *g),
                                    evs@ == evs_start + batch.take(t as int),
                                decreases m - t,
                            {
                                let q = to_canvas_local(pts[t], g);
                                evs.push(DrawEvent::Draw(q));
                                proof {
                                    assert(batch.take(t as int + 1) =~= batch.take(t as int).push(
                                        batch[t as int],
                                    ));
                                }
                                t = t + 1;
                            }
                            proof {
                                assert(batch.take(m as int) =~= batch);
                            }
                        }
                        Option::None => {
                            let q = to_canvas_local(p, g);
                            evs.push(DrawEvent::Draw(q));
                            proof {
                                assert(evs@ =~= evs_start + sample_batch(
                                    Option::<StrokePoint>::None,
                                    p,
                                    *g,
                                ));
                            }
                        }
                    }
                    self.last_position = Some(p);
                    proof {
                        let taken1 = samples@.take(idx as int + 1);
                        assert(taken1.drop_last() =~= samples@.take(idx as int));
                        assert(taken1.last() == samples@[idx as int]);
                        assert(evs@ =~= prefix + stroke_events(last0, taken1, *g));
                    }
                    idx = idx + 1;
                }
                proof {
                    assert(samples@.take(n as int) =~= samples@);
                }
            }
            _ => {
                self.last_position = None;
                proof {
                    assert(evs@ =~= prefix + Seq::<DrawEvent>::empty());
                }
            }
        }
        evs
    }
}

/// The events a single touch point covered. Its clear trigger while the
/// machine waits comes once per batch; every sample paints, untracked and
/// uninterpolated.
pub open spec fn touch_clear_events(state: PredictionState, n: nat) -> Seq<DrawEvent> {
    if state is Wait && n > 0 {
        seq![DrawEvent::Clear]
    } else {
        Seq::empty()
    }
}

/// One draw event per touch sample, each transformed to canvas-local
/// coordinates.
pub open spec fn touch_draw_events(samples: Seq<StrokePoint>, g: Geometry) -> Seq<DrawEvent> {
    Seq::new(samples.len(), |i: int| DrawEvent::Draw(transform_spec(samples[i], g)))
}

/// Turns one cycle of touch samples into draw events. Touch has no hold
/// state: every sample is active, and an idle canvas is cleared once per
/// batch before painting starts.
pub fn touch_events(
    samples: &Vec<StrokePoint>,
    g: &Geometry,
    state: PredictionState,
) -> (evs: Vec<DrawEvent>)
    requires
        g.wf(),
        forall|i: int| 0 <= i < samples@.len() ==> (#[trigger] samples@[i]).in_range(),
    ensures
        evs@ == touch_clear_events(state, samples@.len()) + touch_draw_events(samples@, *g),
{
    let mut evs: Vec<DrawEvent> = Vec::new();
    if matches!(state, PredictionState::Wait) && samples.len() > 0 {
        evs.push(DrawEvent::Clear);
    }
    let ghost prefix = evs@;
    proof {
        assert(prefix =~= touch_clear_events(state, samples@.len()));
    }
    let n = samples.len();
    let mut idx: usize = 0;
    while idx < n
        invariant
            idx <= n,
            n == samples@.len(),
            g.wf(),
            forall|i: int| 0 <= i < samples@.len() ==> (#[trigger] samples@[i]).in_range(),
            evs@ == prefix + touch_draw_events(samples@, *g).take(idx as int),
        decreases n - idx,
    {
        let q = to_canvas_local(samples[idx], g);
        evs.push(DrawEvent::Draw(q));
        proof {
            let all = touch_draw_events(samples@, *g);
            assert(all.take(idx as int + 1) =~= all.take(idx as int).push(all[idx as int]));
        }
        idx = idx + 1;
    }
    proof {
        assert(touch_draw_events(samples@, *g).take(n as int) =~= touch_draw_events(samples@, *g));
    }
    evs
}

/// At the last step the interpolation lands exactly on the far endpoint.
proof fn lemma_lerp_exact_end(c0: int, c1: int, steps: int)
    requires
        2 <= steps,
    ensures
        lerp_coord(c0, c1, steps - 1, steps) == c1,
{
    let d = c1 - c0;
    let den = steps - 1;
    if d >= 0 {
        lemma_div_multiples_vanish(d, den);
        assert(den * d == d * den) by (nonlinear_arith);
    } else {
        let m = -d;
        lemma_div_multiples_vanish(m, den);
        assert(den * m == m * den) by (nonlinear_arith);
        assert(-(d * den) == m * den) by (nonlinear_arith)
            requires
                m == -d,
        ;
    }
}

} // verus!
