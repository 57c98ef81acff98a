//! The prediction state machine.
//!
//! Inference is gated by a two-state machine: `Wait` while the canvas is
//! empty or just cleared, `Predict` while it holds ink. Every draw event
//! moves it to `Predict`, every clear event moves it to `Wait`; both are
//! idempotent. The state gates whether feature extraction and classification
//! run in a cycle; it never gates canvas mutation itself.

use vstd::prelude::*;

use crate::input::DrawEvent;

verus! {

/// Whether the current cycle may run inference.
#[derive(Clone, Copy, PartialEq, Eq, Structural, Debug)]
pub enum PredictionState {
    /// Canvas is empty or was just cleared; no inference is attempted.
    Wait,
    /// Canvas holds ink; inference runs each cycle.
    Predict,
}

impl PredictionState {
    /// The state a single event leaves the machine in: any draw moves to
    /// `Predict`, any clear moves to `Wait`, from either starting state.
    pub open spec fn spec_after_event(self, ev: DrawEvent) -> PredictionState {
        match ev {
            DrawEvent::Draw(_) => PredictionState::Predict,
            DrawEvent::Clear => PredictionState::Wait,
        }
    }

    /// The state after a whole sequence of events has been applied in order.
    pub open spec fn spec_after_events(self, evs: Seq<DrawEvent>) -> PredictionState
        decreases evs.len(),
    {
        if evs.len() == 0 {
            self
        } else {
            self.spec_after_event(evs[0]).spec_after_events(evs.drop_first())
        }
    }

    /// Initial state of the machine: waiting, no inference.
    pub fn init() -> (s: PredictionState)
        ensures
            s == PredictionState::Wait,
    {
        PredictionState::Wait
    }

    /// Applies one event to the machine.
    pub fn apply_event(&mut self, ev: DrawEvent)
        ensures
            *final(self) == old(self).spec_after_event(ev),
    {
        match ev {
            DrawEvent::Draw(_) => {
                *self = PredictionState::Predict;
            }
            DrawEvent::Clear => {
                *self = PredictionState::Wait;
            }
        }
    }

    /// Whether inference may run in this cycle.
    pub fn allows_inference(&self) -> (b: bool)
        ensures
            b == (*self is Predict),
    {
        match self {
            PredictionState::Predict => true,
            PredictionState::Wait => false,
        }
    }
}

/// The state after any event sequence depends only on the last event: it is
/// `Predict` exactly when the sequence ends in a draw, `Wait` when it ends in
/// a clear, and the starting state only survives an empty sequence.
pub proof fn lemma_state_after_events(s: PredictionState, evs: Seq<DrawEvent>)
    ensures
        s.spec_after_events(evs) == if evs.len() == 0 {
            s
        } else if evs.last() is Draw {
            PredictionState::Predict
        } else {
            PredictionState::Wait
        },
    decreases evs.len(),
{
    if evs.len() > 0 {
        let s1 = s.spec_after_event(evs[0]);
        lemma_state_after_events(s1, evs.drop_first());
        if evs.len() == 1 {
            assert(evs.drop_first().len() == 0);
            assert(evs.last() == evs[0]);
        } else {
            assert(evs.drop_first().last() == evs.last());
        }
    }
}

} // verus!
