//! One processing cycle: apply the cycle's draw events to canvas and state,
//! then gate feature extraction on the resulting state.
//!
//! Events are applied in order. A draw stamps the brush and moves the state
//! machine to `Predict`; a clear wipes the buffer and moves it to `Wait`.
//! The state never gates canvas mutation — a clear clears and a draw paints
//! from either state — it only decides whether inference runs afterwards.

use vstd::prelude::*;

use crate::canvas::stamp_covers;
use crate::canvas::RasterCanvas;
use crate::features::cell_value;
use crate::features::extract_grid;
use crate::features::INPUT_SIZE;
use crate::input::DrawEvent;
use crate::state::PredictionState;

verus! {

/// The intensity of texture pixel `(x, y)` after a sequence of events has
/// run over the canvas `c0`, with the given logical node size.
pub open spec fn pix_after_events(
    c0: RasterCanvas,
    evs: Seq<DrawEvent>,
    node_w: int,
    node_h: int,
    x: int,
    y: int,
) -> u8
    decreases evs.len(),
{
    if evs.len() == 0 {
        c0.pix(x, y)
    } else {
        match evs.last() {
            DrawEvent::Clear => 0u8,
            DrawEvent::Draw(p) => {
                if c0.in_bounds(x, y) && stamp_covers(p, node_w, node_h, c0.spec_width(), x, y) {
                    255u8
                } else {
                    pix_after_events(c0, evs.drop_last(), node_w, node_h, x, y)
                }
            },
        }
    }
}

/// Applies one cycle's events in order: each draw stamps the brush and
/// each clear wipes the buffer, while the state machine follows along.
pub fn apply_events(
    canvas: &mut RasterCanvas,
    state: &mut PredictionState,
    events: &Vec<DrawEvent>,
    node_width: u32,
    node_height: u32,
)
    requires
        old(canvas).wf(),
    ensures
        final(canvas).wf(),
        final(canvas).spec_width() == old(canvas).spec_width(),
        final(canvas).spec_height() == old(canvas).spec_height(),
        forall|x: int, y: int|
            final(canvas).pix(x, y) == pix_after_events(
                *old(canvas),
                events@,
                node_width as int,
                node_height as int,
                x,
                y,
            ),
        *final(state) == old(state).spec_after_events(events@),
{
    let ghost nw: int = node_width as int;
    let ghost nh: int = node_height as int;
    let n = events.len();
    let mut k: usize = 0;
    while k < n
        invariant
            k <= n,
            n == events@.len(),
            nw == node_width as int,
            nh == node_height as int,
            canvas.wf(),
            canvas.spec_width() == old(canvas).spec_width(),
            canvas.spec_height() == old(canvas).spec_height(),
            forall|x: int, y: int|
                canvas.pix(x, y) == pix_after_events(
                    *old(canvas),
                    events@.take(k as int),
                    nw,
                    nh,
                    x,
                    y,
                ),
            *state == old(state).spec_after_events(events@.take(k as int)),
        decreases n - k,
    {
        let ev = events[k];
        match ev {
            DrawEvent::Draw(p) => {
                canvas.draw(p, node_width, node_height);
            }
            DrawEvent::Clear => {
                canvas.clear();
            }
        }
        state.apply_event(ev);
        proof {
            let t1 = events@.take(k as int + 1);
            assert(t1.drop_last() =~= events@.take(k as int));
            assert(t1.last() == events@[k as int]);
            crate::state::lemma_state_after_events(*old(state), events@.take(k as int));
            crate::state::lemma_state_after_events(*old(state), t1);
        }
        k = k + 1;
    }
    proof {
        assert(events@.take(n as int) =~= events@);
    }
}

/// The input the classifier may see this cycle: the extracted 28x28 grid
/// while the state allows inference, nothing while it waits. Inference is
/// never invoked in `Wait`.
pub fn prediction_input(canvas: &RasterCanvas, state: &PredictionState) -> (r: Option<Vec<u8>>)
    requires
        canvas.wf(),
    ensures
        r is Some <==> *state is Predict,
        r matches Some(grid) ==> grid@.len() == INPUT_SIZE * INPUT_SIZE && (forall|
            cy: int,
            cx: int,
        |
            0 <= cy < INPUT_SIZE && 0 <= cx < INPUT_SIZE ==> grid@[cy * (INPUT_SIZE as int) + cx]
                == #[trigger] cell_value(*canvas, cx, cy)),
{
    if state.allows_inference() {
        Some(extract_grid(canvas))
    } else {
        None
    }
}

} // verus!
