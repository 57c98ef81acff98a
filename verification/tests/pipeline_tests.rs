use bevmnist::features::extract_grid;
use bevmnist::pipeline::apply_events;
use bevmnist::pipeline::prediction_input;
use bevmnist::DrawEvent;
use bevmnist::PredictionState;
use bevmnist::RasterCanvas;
use bevmnist::StrokePoint;
use bevmnist::INPUT_SIZE;

const N: usize = INPUT_SIZE as usize;

#[test]
fn state_follows_the_last_event() {
    let draw = DrawEvent::Draw(StrokePoint { x: 5, y: 5 });
    let cases: Vec<(Vec<DrawEvent>, PredictionState)> = vec![
        (vec![], PredictionState::Wait),
        (vec![draw], PredictionState::Predict),
        (vec![DrawEvent::Clear], PredictionState::Wait),
        (vec![draw, draw], PredictionState::Predict),
        (vec![draw, DrawEvent::Clear], PredictionState::Wait),
        (vec![DrawEvent::Clear, draw], PredictionState::Predict),
        (vec![draw, DrawEvent::Clear, draw, draw, DrawEvent::Clear], PredictionState::Wait),
    ];
    for (events, expected) in cases {
        let mut canvas = RasterCanvas::new(56, 56);
        let mut state = PredictionState::init();
        apply_events(&mut canvas, &mut state, &events, 56, 56);
        assert_eq!(state, expected);
    }
}

#[test]
fn clear_event_wipes_the_canvas_from_either_state() {
    let mut canvas = RasterCanvas::new(56, 56);
    let mut state = PredictionState::init();
    let events = vec![
        DrawEvent::Draw(StrokePoint { x: 28, y: 28 }),
        DrawEvent::Clear,
    ];
    apply_events(&mut canvas, &mut state, &events, 56, 56);
    assert_eq!(state, PredictionState::Wait);
    for y in 0..56 {
        for x in 0..56 {
            assert_eq!(canvas.get_pixel(x, y), 0);
        }
    }
}

#[test]
fn inference_is_gated_on_the_state() {
    let canvas = RasterCanvas::new(56, 56);
    assert!(prediction_input(&canvas, &PredictionState::Wait).is_none());
    assert!(prediction_input(&canvas, &PredictionState::Predict).is_some());
}

#[test]
fn grid_has_the_classifier_shape() {
    let canvas = RasterCanvas::new(56, 56);
    let grid = extract_grid(&canvas);
    assert_eq!(grid.len(), N * N);
    assert!(grid.iter().all(|&v| v == 0));
}

#[test]
fn full_blocks_read_one_and_threshold_stays_zero() {
    // Width 56 gives 2x2 blocks and a threshold of 2x2 / 2 = 2.
    let mut canvas = RasterCanvas::new(56, 56);
    // Cell (0, 0): fully saturated block.
    for y in 0..2 {
        for x in 0..2 {
            canvas.set_pixel(x, y, 255);
        }
    }
    // Cell (1, 0): sum exactly at the threshold stays 0 under the strict
    // comparison.
    canvas.set_pixel(2, 0, 2);
    // Cell (2, 0): one point above the threshold flips to 1.
    canvas.set_pixel(4, 0, 3);
    let grid = extract_grid(&canvas);
    assert_eq!(grid[0], 1);
    assert_eq!(grid[1], 0);
    assert_eq!(grid[2], 1);
    assert_eq!(grid[3], 0);
}

#[test]
fn center_dot_end_to_end() {
    // An empty 600x600 canvas, one draw at the canvas center. The stamp has
    // radius 14 and each grid cell covers 21x21 pixels.
    let mut canvas = RasterCanvas::new(600, 600);
    let mut state = PredictionState::init();
    let events = vec![DrawEvent::Draw(StrokePoint { x: 300, y: 300 })];
    apply_events(&mut canvas, &mut state, &events, 600, 600);
    assert_eq!(state, PredictionState::Predict);
    let grid = prediction_input(&canvas, &state).expect("state allows inference");
    // A 1-cluster sits around cell (14, 14); everything beyond the brush
    // radius is 0.
    assert_eq!(grid[14 * N + 14], 1);
    assert_eq!(grid[14 * N + 13], 1);
    assert_eq!(grid[13 * N + 14], 1);
    for cy in 0..N {
        for cx in 0..N {
            if !(12..=15).contains(&cx) || !(12..=15).contains(&cy) {
                assert_eq!(grid[cy * N + cx], 0, "cell ({cx}, {cy})");
            }
        }
    }
}
