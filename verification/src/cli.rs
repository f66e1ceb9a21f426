//! The command line of the tool.

use vstd::prelude::*;

verus! {

/// The options of a run.
pub struct Args {
    /// The video to edit.
    pub input: String,
    /// The directory that receives everything the run writes.
    pub output: String,
    /// Guidance for the planning model, given with the transcript.
    pub user_instructions: String,
    /// The Whisper model, such as "small.en".
    pub whisper_model: String,
    /// The planning model, such as "qwen2.5:7b".
    pub ollama_model: String,
    /// Whether each removed clip is printed with the reason for its cut.
    pub show_reasons: bool,
}

} // verus!
