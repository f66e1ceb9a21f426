//! Transcription support: where the Whisper model is fetched from and kept,
//! where the transcript is written, and the transcript's segments.

use vstd::prelude::*;
use crate::types::Segment;

verus! {

/// The directory, under the user's cache directory, that holds the
/// downloaded Whisper models.
pub const MODEL_CACHE_DIR: &'static str = "videotrim_rust_cli_whisper_model";

/// The file of the Whisper model `model_name`.
pub open spec fn model_file_name_of(model_name: Seq<char>) -> Seq<char> {
    "ggml-"@ + model_name + ".bin"@
}

/// "ggml-<model_name>.bin".
pub fn model_file_name(model_name: &str) -> (name: String)
    ensures
        name@ == model_file_name_of(model_name@),
{
    let mut name = String::from_str("ggml-");
    name.append(model_name);
    name.append(".bin");
    name
}

/// Where the Whisper model `model_name` is downloaded from.
pub open spec fn model_url_of(model_name: Seq<char>) -> Seq<char> {
    "https://huggingface.co/ggerganov/whisper.cpp/resolve/main/"@ + model_file_name_of(model_name)
}

/// The download address of the Whisper model `model_name`.
pub fn model_url(model_name: &str) -> (url: String)
    ensures
        url@ == model_url_of(model_name@),
{
    let file = model_file_name(model_name);
    let mut url = String::from_str("https://huggingface.co/ggerganov/whisper.cpp/resolve/main/");
    url.append(file.as_str());
    proof {
        assert(url@ =~= model_url_of(model_name@));
    }
    url
}

/// "<output>/transcript.json".
pub fn transcript_path(output: &str) -> (path: String)
    ensures
        path@ == output@ + "/transcript.json"@,
{
    let mut path = String::from_str(output);
    path.append("/transcript.json");
    path
}

/// The model file is the name given, unchanged, between the fixed opening
/// "ggml-" and the fixed ending ".bin"; distinct names give distinct files;
/// the download address is a fixed location followed by that file name.
pub proof fn law_model_name_kept_unchanged(name1: Seq<char>, name2: Seq<char>)
    ensures
        model_file_name_of(name1).len() == name1.len() + 9,
        model_file_name_of(name1).subrange(0, 5) == "ggml-"@,
        model_file_name_of(name1).subrange(5, 5 + name1.len() as int) == name1,
        model_file_name_of(name1).subrange(5 + name1.len() as int, 9 + name1.len() as int) == ".bin"@,
        name1 != name2 ==> model_file_name_of(name1) != model_file_name_of(name2),
        model_url_of(name1).len() == 58 + model_file_name_of(name1).len(),
        model_url_of(name1).subrange(0, 58) == "https://huggingface.co/ggerganov/whisper.cpp/resolve/main/"@,
        model_url_of(name1).subrange(58, model_url_of(name1).len() as int) == model_file_name_of(name1),
{
    reveal_strlit("ggml-");
    reveal_strlit(".bin");
    reveal_strlit("https://huggingface.co/ggerganov/whisper.cpp/resolve/main/");
    let f1 = model_file_name_of(name1);
    let f2 = model_file_name_of(name2);
    assert(f1.subrange(0, 5) =~= "ggml-"@);
    assert(f1.subrange(5, 5 + name1.len() as int) =~= name1);
    assert(f1.subrange(5 + name1.len() as int, 9 + name1.len() as int) =~= ".bin"@);
    if name1 != name2 && f1 == f2 {
        assert(f2.subrange(5, 5 + name2.len() as int) =~= name2);
        assert(name1.len() == name2.len());
        assert(name1 =~= name2);
    }
    let u = model_url_of(name1);
    assert(u.subrange(0, 58) =~= "https://huggingface.co/ggerganov/whisper.cpp/resolve/main/"@);
    assert(u.subrange(58, u.len() as int) =~= f1);
}

/// The number of nanoseconds in a centisecond, the unit of Whisper's
/// timestamps.
pub open spec fn nanos_per_centisecond() -> int {
    10_000_000
}

/// A centisecond is a hundredth of a second.
pub proof fn law_centisecond_is_a_hundredth()
    ensures
        100 * nanos_per_centisecond() == crate::text::nanos_per_second(),
{
}

impl Segment {
    /// The segment with the given text between two Whisper timestamps (in
    /// centiseconds); `None` when a time does not fit in nanoseconds.
    pub fn from_centiseconds(start: i64, end: i64, text: String) -> (seg: Option<Segment>)
        ensures
            match seg {
                Some(s) => s.start == start * nanos_per_centisecond() && s.end == end
                    * nanos_per_centisecond() && s.text@ == text@,
                None => !(i64::MIN <= start * nanos_per_centisecond() <= i64::MAX) || !(i64::MIN
                    <= end * nanos_per_centisecond() <= i64::MAX),
            },
    {
        match (start.checked_mul(10_000_000), end.checked_mul(10_000_000)) {
            (Some(s), Some(e)) => Some(Segment { start: s, end: e, text }),
            _ => None,
        }
    }
}

} // verus!
