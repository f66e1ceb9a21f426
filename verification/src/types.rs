//! The values that flow through an edit: transcript segments, the cuts that
//! the planning model asks for, its plan, and the timeline that results.
//!
//! Every time is a whole number of nanoseconds from the start of the video.

use vstd::prelude::*;

verus! {

/// One timestamped piece of the transcript.
pub struct Segment {
    /// Start time, in nanoseconds.
    pub start: i64,
    /// End time, in nanoseconds.
    pub end: i64,
    pub text: String,
}

/// One range that the planning model asks to remove, with the transcript
/// text it covers and the reason for the cut.
pub struct EditCommand {
    /// Start time, in nanoseconds.
    pub start: i64,
    /// End time, in nanoseconds.
    pub end: i64,
    pub text: String,
    pub reason: String,
}

/// The planning model's answer: its overall reasoning and the cuts.
pub struct EditPlan {
    pub reasoning: String,
    pub edits: Vec<EditCommand>,
}

/// A numbered range of the timeline, either kept or removed.
#[derive(Clone, Copy, Debug, PartialEq, Eq, Structural)]
pub struct TimelineSegment {
    pub index: usize,
    /// Start time, in nanoseconds.
    pub start: i64,
    /// End time, in nanoseconds.
    pub end: i64,
}

} // verus!
