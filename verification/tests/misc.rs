use videotrim::audio::{audio_duration_nanos, audio_path, extract_audio_args};
use videotrim::llm::{build_prompt, check_plan};
use videotrim::transcibe::{model_file_name, model_url, transcript_path, MODEL_CACHE_DIR};
use videotrim::{EditCommand, EditPlan, Segment};

#[test]
fn audio_is_extracted_as_mono_16khz_pcm() {
    let args = extract_audio_args("talk.mp4", "out/audio.wav");
    assert_eq!(
        args,
        vec!["-y", "-i", "talk.mp4", "-vn", "-acodec", "pcm_s16le", "-ar", "16000", "-ac", "1", "out/audio.wav"]
    );
    assert_eq!(audio_path("out"), "out/audio.wav");
}

#[test]
fn audio_duration_from_sample_count() {
    assert_eq!(audio_duration_nanos(16_000, 16_000, 1), Some(1_000_000_000));
    assert_eq!(audio_duration_nanos(8_000, 16_000, 1), Some(500_000_000));
    assert_eq!(audio_duration_nanos(32_000, 16_000, 2), Some(1_000_000_000));
    assert_eq!(audio_duration_nanos(1, 3, 1), Some(333_333_333));
    assert_eq!(audio_duration_nanos(0, 16_000, 1), Some(0));
    assert_eq!(audio_duration_nanos(100, 0, 1), None);
    assert_eq!(audio_duration_nanos(100, 16_000, 0), None);
    assert_eq!(audio_duration_nanos(u64::MAX, 1, 1), None);
}

#[test]
fn prompt_holds_instructions_and_transcript() {
    let user_instructions = "Remove filler words";
    let transcript = "[{\"start\": 0.0}]";
    let expected = format!(
        "You are a video editor. Below is a transcript with timestamps in seconds.\n\
        Identify segments to CUT: filler words (um, uh, like), long silences, \
        repeated sentences, false starts, and off-topic rambling.\n\n\
        Additional instructions from the user:\n{}\n\n\
        Return a JSON object with an \"edits\" array. Each edit has:\n\
        - \"start\": start time in seconds (number)\n\
        - \"end\": end time in seconds (number)\n\
        - \"reason\": why it should be cut (string)\n\n\
        - \"text\": Whatever text in the segment (string)\n\n\
        Example: {{\"edits\": [{{\"start\": 2.5, \"end\": 4.0, \"reason\": \"filler word um\", \"text\":\"segment text\"}}]}}\n\n\
        Transcript:\n{}",
        user_instructions, transcript
    );
    assert_eq!(build_prompt(user_instructions, transcript), expected);
}

#[test]
fn plan_without_edits_stops_with_the_reasoning() {
    let empty = EditPlan { reasoning: String::from("nothing to cut"), edits: vec![] };
    assert_eq!(
        check_plan(&empty),
        Some(String::from(
            "AI Model did not create any editing for the video, reasoning of the model: nothing to cut"
        ))
    );
    let full = EditPlan {
        reasoning: String::from("one filler word"),
        edits: vec![EditCommand {
            start: 1,
            end: 2,
            text: String::from("um"),
            reason: String::from("filler word um"),
        }],
    };
    assert_eq!(check_plan(&full), None);
}

#[test]
fn whisper_model_locations() {
    assert_eq!(model_file_name("small.en"), "ggml-small.en.bin");
    assert_eq!(
        model_url("small.en"),
        "https://huggingface.co/ggerganov/whisper.cpp/resolve/main/ggml-small.en.bin"
    );
    assert_eq!(MODEL_CACHE_DIR, "videotrim_rust_cli_whisper_model");
    assert_eq!(transcript_path("out"), "out/transcript.json");
}

#[test]
fn segment_times_from_centiseconds() {
    let s = Segment::from_centiseconds(150, 275, String::from(" Hello.")).unwrap();
    assert_eq!(s.start, 1_500_000_000);
    assert_eq!(s.end, 2_750_000_000);
    assert_eq!(s.text, " Hello.");
    assert!(Segment::from_centiseconds(i64::MAX / 1000, 0, String::new()).is_none());
}
