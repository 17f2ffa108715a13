//! Composing a frame from the page and the draw instructions of a mode.
pub mod ansi_sequence_extractor;
pub mod api_types;
pub mod renderer;
pub mod terminal;

pub use ansi_sequence_extractor::AnsiSequenceExtractor;
pub use api_types::{DataOverlay, Draw, StyledSegment, TextStyle};
pub use renderer::{Paint, Renderer};
