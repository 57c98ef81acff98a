use bevmnist::input::isqrt;
use bevmnist::input::to_canvas_local;
use bevmnist::input::touch_events;
use bevmnist::input::interpolate;
use bevmnist::DrawEvent;
use bevmnist::Geometry;
use bevmnist::InputNormalizer;
use bevmnist::PointerInteraction;
use bevmnist::PredictionState;
use bevmnist::StrokePoint;

fn geometry() -> Geometry {
    Geometry { origin_x: 0, origin_y: 0, width: 600, height: 600 }
}

#[test]
fn isqrt_exact_values() {
    assert_eq!(isqrt(0), 0);
    assert_eq!(isqrt(1), 1);
    assert_eq!(isqrt(3), 1);
    assert_eq!(isqrt(4), 2);
    assert_eq!(isqrt(99), 9);
    assert_eq!(isqrt(100), 10);
    assert_eq!(isqrt(u64::MAX), 4294967295);
}

#[test]
fn transform_recenters_onto_canvas() {
    let g = geometry();
    let p = to_canvas_local(StrokePoint { x: 0, y: 0 }, &g);
    assert_eq!(p, StrokePoint { x: 300, y: 300 });
    let q = to_canvas_local(StrokePoint { x: -250, y: 40 }, &Geometry {
        origin_x: 50,
        origin_y: -10,
        width: 600,
        height: 400,
    });
    assert_eq!(q, StrokePoint { x: 0, y: 250 });
}

#[test]
fn interpolation_count_matches_distance_formula() {
    // Distance 100: (100 / 28 + 1) * 3 = 12 points.
    let pts = interpolate(StrokePoint { x: 0, y: 0 }, StrokePoint { x: 100, y: 0 });
    assert_eq!(pts.len(), 12);
    // Distance 50 on a 3-4-5 triangle: (50 / 28 + 1) * 3 = 6 points.
    let pts = interpolate(StrokePoint { x: 0, y: 0 }, StrokePoint { x: 30, y: 40 });
    assert_eq!(pts.len(), 6);
    // Zero distance still yields the minimum of 3 points.
    let pts = interpolate(StrokePoint { x: 5, y: 5 }, StrokePoint { x: 5, y: 5 });
    assert_eq!(pts.len(), 3);
}

#[test]
fn interpolation_hits_both_endpoints() {
    let p0 = StrokePoint { x: -17, y: 230 };
    let p1 = StrokePoint { x: 412, y: -9 };
    let pts = interpolate(p0, p1);
    assert_eq!(pts[0], p0);
    assert_eq!(pts[pts.len() - 1], p1);
}

#[test]
fn interpolation_steps_are_evenly_spaced() {
    let pts = interpolate(StrokePoint { x: 0, y: 0 }, StrokePoint { x: 30, y: 40 });
    // Six points over five equal parts of (30, 40): multiples of (6, 8).
    for (i, p) in pts.iter().enumerate() {
        assert_eq!(*p, StrokePoint { x: 6 * i as i64, y: 8 * i as i64 });
    }
}

#[test]
fn mouse_hover_on_idle_canvas_clears() {
    let mut norm = InputNormalizer::new();
    let evs = norm.mouse_events(
        PointerInteraction::Hover,
        &Vec::new(),
        &geometry(),
        PredictionState::Wait,
    );
    assert_eq!(evs, vec![DrawEvent::Clear]);
}

#[test]
fn mouse_hover_with_ink_emits_nothing() {
    let mut norm = InputNormalizer::new();
    let evs = norm.mouse_events(
        PointerInteraction::Hover,
        &Vec::new(),
        &geometry(),
        PredictionState::Predict,
    );
    assert!(evs.is_empty());
}

#[test]
fn first_active_sample_draws_once() {
    let mut norm = InputNormalizer::new();
    let evs = norm.mouse_events(
        PointerInteraction::Active,
        &vec![StrokePoint { x: 0, y: 0 }],
        &geometry(),
        PredictionState::Predict,
    );
    assert_eq!(evs, vec![DrawEvent::Draw(StrokePoint { x: 300, y: 300 })]);
}

#[test]
fn second_active_sample_interpolates_from_the_first() {
    let mut norm = InputNormalizer::new();
    let g = geometry();
    norm.mouse_events(
        PointerInteraction::Active,
        &vec![StrokePoint { x: 0, y: 0 }],
        &g,
        PredictionState::Predict,
    );
    let evs = norm.mouse_events(
        PointerInteraction::Active,
        &vec![StrokePoint { x: 30, y: 40 }],
        &g,
        PredictionState::Predict,
    );
    // Distance 50 resolves into 6 interpolated draws, transformed last.
    assert_eq!(evs.len(), 6);
    assert_eq!(evs[0], DrawEvent::Draw(StrokePoint { x: 300, y: 300 }));
    assert_eq!(evs[5], DrawEvent::Draw(StrokePoint { x: 330, y: 340 }));
    assert_eq!(evs[2], DrawEvent::Draw(StrokePoint { x: 312, y: 316 }));
}

#[test]
fn releasing_the_pointer_forgets_the_position() {
    let mut norm = InputNormalizer::new();
    let g = geometry();
    norm.mouse_events(
        PointerInteraction::Active,
        &vec![StrokePoint { x: 0, y: 0 }],
        &g,
        PredictionState::Predict,
    );
    let evs = norm.mouse_events(
        PointerInteraction::Inactive,
        &Vec::new(),
        &g,
        PredictionState::Predict,
    );
    assert!(evs.is_empty());
    // With the position forgotten, the next press draws a single point
    // instead of interpolating.
    let evs = norm.mouse_events(
        PointerInteraction::Active,
        &vec![StrokePoint { x: 30, y: 40 }],
        &g,
        PredictionState::Predict,
    );
    assert_eq!(evs, vec![DrawEvent::Draw(StrokePoint { x: 330, y: 340 })]);
}

#[test]
fn touch_on_idle_canvas_clears_once_per_batch() {
    let evs = touch_events(
        &vec![StrokePoint { x: 0, y: 0 }, StrokePoint { x: 10, y: 10 }],
        &geometry(),
        PredictionState::Wait,
    );
    assert_eq!(
        evs,
        vec![
            DrawEvent::Clear,
            DrawEvent::Draw(StrokePoint { x: 300, y: 300 }),
            DrawEvent::Draw(StrokePoint { x: 310, y: 310 }),
        ]
    );
}

#[test]
fn touch_with_ink_never_clears() {
    let evs = touch_events(
        &vec![StrokePoint { x: 0, y: 0 }],
        &geometry(),
        PredictionState::Predict,
    );
    assert_eq!(evs, vec![DrawEvent::Draw(StrokePoint { x: 300, y: 300 })]);
}

#[test]
fn empty_touch_batch_emits_nothing() {
    let evs = touch_events(&Vec::new(), &geometry(), PredictionState::Wait);
    assert!(evs.is_empty());
}
