//! Core of a sorting-algorithm visualizer: five instrumented sorting
//! algorithms that emit a trace of array mutations and frames to show, a
//! renderer that rasterizes an array into a pixel buffer as colored bars,
//! and the pitch mapping for the optional per-step tones.

pub mod step;
pub mod bubble;
pub mod selection;
pub mod insertion;
pub mod quick;
pub mod merge;
pub mod render;
pub mod tone;
