//! What the planning model is asked, and what is done with a plan that
//! holds no cut.

use vstd::prelude::*;
use crate::types::EditPlan;

verus! {

/// The request sent to the planning model: the editing task, the user's
/// instructions, the answer format, and the transcript.
pub open spec fn prompt_text(user_instructions: Seq<char>, transcript: Seq<char>) -> Seq<char> {
    "You are a video editor. Below is a transcript with timestamps in seconds.\nIdentify segments to CUT: filler words (um, uh, like), long silences, repeated sentences, false starts, and off-topic rambling.\n\nAdditional instructions from the user:\n"@
        + user_instructions
        + "\n\nReturn a JSON object with an \"edits\" array. Each edit has:\n- \"start\": start time in seconds (number)\n- \"end\": end time in seconds (number)\n- \"reason\": why it should be cut (string)\n\n- \"text\": Whatever text in the segment (string)\n\nExample: {\"edits\": [{\"start\": 2.5, \"end\": 4.0, \"reason\": \"filler word um\", \"text\":\"segment text\"}]}\n\nTranscript:\n"@
        + transcript
}

/// Builds the request sent to the planning model.
pub fn build_prompt(user_instructions: &str, transcript: &str) -> (prompt: String)
    ensures
        prompt@ == prompt_text(user_instructions@, transcript@),
{
    let mut prompt = String::from_str(
        "You are a video editor. Below is a transcript with timestamps in seconds.\nIdentify segments to CUT: filler words (um, uh, like), long silences, repeated sentences, false starts, and off-topic rambling.\n\nAdditional instructions from the user:\n",
    );
    prompt.append(user_instructions);
    prompt.append(
        "\n\nReturn a JSON object with an \"edits\" array. Each edit has:\n- \"start\": start time in seconds (number)\n- \"end\": end time in seconds (number)\n- \"reason\": why it should be cut (string)\n\n- \"text\": Whatever text in the segment (string)\n\nExample: {\"edits\": [{\"start\": 2.5, \"end\": 4.0, \"reason\": \"filler word um\", \"text\":\"segment text\"}]}\n\nTranscript:\n",
    );
    prompt.append(transcript);
    prompt
}

/// The message for a plan without cuts, which stops the run.
pub open spec fn no_edits_message(reasoning: Seq<char>) -> Seq<char> {
    "AI Model did not create any editing for the video, reasoning of the model: "@ + reasoning
}

/// `None` when the plan holds at least one cut; otherwise the message that
/// stops the run, with the model's reasoning.
pub fn check_plan(plan: &EditPlan) -> (msg: Option<String>)
    ensures
        match msg {
            None => plan.edits@.len() > 0,
            Some(m) => plan.edits@.len() == 0 && m@ == no_edits_message(plan.reasoning@),
        },
{
    if plan.edits.is_empty() {
        let mut m = String::from_str(
            "AI Model did not create any editing for the video, reasoning of the model: ",
        );
        m.append(plan.reasoning.as_str());
        Some(m)
    } else {
        None
    }
}

/// The request holds the user's instructions and the transcript whole and
/// unchanged: the instructions right after a fixed opening of 242
/// characters, then a fixed middle of 346 characters, then the transcript
/// to the end. The opening and the middle are the same for every request.
pub proof fn law_prompt_holds_inputs_whole(
    instructions1: Seq<char>,
    transcript1: Seq<char>,
    instructions2: Seq<char>,
    transcript2: Seq<char>,
)
    ensures
        ({
            let p1 = prompt_text(instructions1, transcript1);
            let p2 = prompt_text(instructions2, transcript2);
            let u1 = instructions1.len() as int;
            let u2 = instructions2.len() as int;
            &&& p1.len() == 242 + u1 + 346 + transcript1.len()
            &&& p1.subrange(242, 242 + u1) == instructions1
            &&& p1.subrange(242 + u1 + 346, p1.len() as int) == transcript1
            &&& p1.subrange(0, 242) == p2.subrange(0, 242)
            &&& p1.subrange(242 + u1, 242 + u1 + 346) == p2.subrange(242 + u2, 242 + u2 + 346)
        }),
{
    reveal_strlit(
        "You are a video editor. Below is a transcript with timestamps in seconds.\nIdentify segments to CUT: filler words (um, uh, like), long silences, repeated sentences, false starts, and off-topic rambling.\n\nAdditional instructions from the user:\n",
    );
    reveal_strlit(
        "\n\nReturn a JSON object with an \"edits\" array. Each edit has:\n- \"start\": start time in seconds (number)\n- \"end\": end time in seconds (number)\n- \"reason\": why it should be cut (string)\n\n- \"text\": Whatever text in the segment (string)\n\nExample: {\"edits\": [{\"start\": 2.5, \"end\": 4.0, \"reason\": \"filler word um\", \"text\":\"segment text\"}]}\n\nTranscript:\n",
    );
    let head = "You are a video editor. Below is a transcript with timestamps in seconds.\nIdentify segments to CUT: filler words (um, uh, like), long silences, repeated sentences, false starts, and off-topic rambling.\n\nAdditional instructions from the user:\n"@;
    let middle = "\n\nReturn a JSON object with an \"edits\" array. Each edit has:\n- \"start\": start time in seconds (number)\n- \"end\": end time in seconds (number)\n- \"reason\": why it should be cut (string)\n\n- \"text\": Whatever text in the segment (string)\n\nExample: {\"edits\": [{\"start\": 2.5, \"end\": 4.0, \"reason\": \"filler word um\", \"text\":\"segment text\"}]}\n\nTranscript:\n"@;
    assert(head.len() == 242);
    assert(middle.len() == 346);
    let p1 = prompt_text(instructions1, transcript1);
    let p2 = prompt_text(instructions2, transcript2);
    let u1 = instructions1.len() as int;
    let u2 = instructions2.len() as int;
    assert(p1 == head + instructions1 + middle + transcript1);
    assert(p2 == head + instructions2 + middle + transcript2);
    assert(p1.subrange(242, 242 + u1) =~= instructions1);
    assert(p1.subrange(242 + u1 + 346, p1.len() as int) =~= transcript1);
    assert(p1.subrange(0, 242) =~= head);
    assert(p2.subrange(0, 242) =~= head);
    assert(p1.subrange(242 + u1, 242 + u1 + 346) =~= middle);
    assert(p2.subrange(242 + u2, 242 + u2 + 346) =~= middle);
}

} // verus!
