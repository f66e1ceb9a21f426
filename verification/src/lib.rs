//! Planning the cuts of a talking-head video: which time ranges are removed,
//! which are kept, how each clip is named and extracted, and the text that
//! the planning model is given.

pub mod text;
pub mod number_laws;
pub mod types;
pub mod editor;
pub mod render;
pub mod audio;
pub mod cli;
pub mod llm;
pub mod transcibe;

pub use types::{EditCommand, EditPlan, Segment, TimelineSegment};
