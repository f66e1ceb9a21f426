//! The audio track that transcription reads: where it goes, how ffmpeg
//! extracts it (16 kHz mono 16-bit PCM, the format Whisper expects), and
//! how long it lasts.

use vstd::prelude::*;
use crate::text::{push_str, strings};

verus! {

/// Where the extracted audio is written under `output`.
pub open spec fn audio_path_of(output: Seq<char>) -> Seq<char> {
    output + "/audio.wav"@
}

/// "<output>/audio.wav".
pub fn audio_path(output: &str) -> (path: String)
    ensures
        path@ == audio_path_of(output@),
{
    let mut path = String::from_str(output);
    path.append("/audio.wav");
    path
}

/// The ffmpeg arguments that write the audio of `input` to `output` as
/// 16 kHz mono 16-bit PCM, overwriting what is there.
pub open spec fn extract_audio_args_of(input: Seq<char>, output: Seq<char>) -> Seq<Seq<char>> {
    seq![
        "-y"@,
        "-i"@,
        input,
        "-vn"@,
        "-acodec"@,
        "pcm_s16le"@,
        "-ar"@,
        "16000"@,
        "-ac"@,
        "1"@,
        output,
    ]
}

/// The arguments of the ffmpeg command that extracts the audio.
pub fn extract_audio_args(input: &str, output: &str) -> (args: Vec<String>)
    ensures
        strings(args@) == extract_audio_args_of(input@, output@),
{
    let mut args: Vec<String> = Vec::new();
    push_str(&mut args, "-y");
    push_str(&mut args, "-i");
    push_str(&mut args, input);
    push_str(&mut args, "-vn");
    push_str(&mut args, "-acodec");
    push_str(&mut args, "pcm_s16le");
    push_str(&mut args, "-ar");
    push_str(&mut args, "16000");
    push_str(&mut args, "-ac");
    push_str(&mut args, "1");
    push_str(&mut args, output);
    proof {
        assert(strings(args@) =~= extract_audio_args_of(input@, output@));
    }
    args
}

/// The length, in whole nanoseconds (rounded down), of `num_samples`
/// interleaved samples played at `sample_rate` frames per second over
/// `channels` channels.
pub open spec fn duration_nanos(num_samples: nat, sample_rate: nat, channels: nat) -> nat {
    (num_samples * 1_000_000_000) / (sample_rate * channels)
}

/// The computed length is the whole number of nanoseconds that the samples
/// last, rounded down: that many nanoseconds of audio hold no more samples
/// than there are, and one nanosecond more would hold more.
pub proof fn law_duration_rounds_down(num_samples: nat, sample_rate: nat, channels: nat)
    requires
        sample_rate * channels > 0,
    ensures
        duration_nanos(num_samples, sample_rate, channels) * (sample_rate * channels) <= num_samples
            * 1_000_000_000,
        num_samples * 1_000_000_000 < (duration_nanos(num_samples, sample_rate, channels) + 1) * (
        sample_rate * channels),
{
    let d = duration_nanos(num_samples, sample_rate, channels);
    let r = sample_rate * channels;
    let x = num_samples * 1_000_000_000;
    assert(d * r <= x && x < (d + 1) * r) by (nonlinear_arith)
        requires
            r > 0,
            d == x / r,
    ;
}

/// The length of the audio in nanoseconds; `None` when the sample rate or
/// the channel count is zero, or when the length does not fit an `i64`.
pub fn audio_duration_nanos(num_samples: u64, sample_rate: u32, channels: u16) -> (d: Option<i64>)
    ensures
        match d {
            Some(d) => sample_rate * channels > 0 && d == duration_nanos(
                num_samples as nat,
                sample_rate as nat,
                channels as nat,
            ),
            None => sample_rate * channels == 0 || duration_nanos(
                num_samples as nat,
                sample_rate as nat,
                channels as nat,
            ) > i64::MAX,
        },
{
    assert(sample_rate as u64 * channels as u64 <= u32::MAX as u64 * u16::MAX as u64) by (nonlinear_arith);
    let per_second: u64 = sample_rate as u64 * channels as u64;
    if per_second == 0 {
        return None;
    }
    assert(num_samples as u128 * 1_000_000_000u128 <= u64::MAX as u128 * 1_000_000_000u128) by (nonlinear_arith);
    let d: u128 = (num_samples as u128 * 1_000_000_000u128) / per_second as u128;
    if d > i64::MAX as u128 {
        None
    } else {
        Some(d as i64)
    }
}

} // verus!
