//! Verified core of a freehand digit-drawing classifier.
//!
//! The library turns raw pointer samples into canvas pixel mutations,
//! maintains a grayscale raster buffer, downsamples it into a fixed 28x28
//! binary grid for a classification engine, selects the displayed class from
//! the engine's scores, and governs when inference may run through a small
//! Wait/Predict state machine. Window plumbing, asset loading and the engine
//! call itself live outside the library and exchange plain values with it.

pub mod canvas;
pub mod classify;
pub mod features;
pub mod input;
pub mod pipeline;
pub mod state;

pub use canvas::RasterCanvas;
pub use classify::CONFIDENCE_THRESHOLD;
pub use classify::SCORE_SCALE;
pub use features::INPUT_SIZE;
pub use input::DrawEvent;
pub use input::Geometry;
pub use input::InputNormalizer;
pub use input::PointerInteraction;
pub use input::StrokePoint;
pub use state::PredictionState;
