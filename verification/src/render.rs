//! The work that renders the edited video: where each clip goes, the
//! ffmpeg arguments that extract it, the list that ffmpeg concatenates,
//! and the arguments of that last step. Running the commands is left to
//! the caller, in the order: removed clips, kept clips, the list file, the
//! concatenation.

use vstd::prelude::*;
use crate::text::{law_replace_all, append_decimal, append_seconds, push_str, strings, append_zero_padded, decimal, replace_all, replace_all_str, seconds_text, zero_padded};
use crate::types::TimelineSegment;
use crate::number_laws::{all_digits, digits_value, law_seconds_text_reads_back, law_zero_padded_reads_back, reads_as_seconds};

verus! {

/// The directory of the kept clips under `output`.
pub open spec fn keep_dir_of(output: Seq<char>) -> Seq<char> {
    output + "/used_clips"@
}

/// The directory of the removed clips under `output`.
pub open spec fn cut_dir_of(output: Seq<char>) -> Seq<char> {
    output + "/removed_clips"@
}

/// The path of clip `index` in `dir`: "<dir>/clip_<index, three digits at
/// least>.<extension>".
pub open spec fn clip_path(dir: Seq<char>, index: nat, extension: Seq<char>) -> Seq<char> {
    dir + "/clip_"@ + zero_padded(index, 3) + "."@ + extension
}

/// The ffmpeg arguments that copy the range `start`..`end` of `input` into
/// `clip`, without re-encoding, overwriting what is there.
pub open spec fn clip_args(input: Seq<char>, start: int, end: int, clip: Seq<char>) -> Seq<Seq<char>> {
    seq![
        "-ss"@,
        seconds_text(start),
        "-i"@,
        input,
        "-t"@,
        seconds_text(end - start),
        "-c"@,
        "copy"@,
        "-y"@,
        clip,
    ]
}

/// A clip's path is the directory, "/clip_", the clip's number in at least
/// three digits (more only when the number needs them), ".", and the
/// extension; its extraction seeks to the range's start and copies its
/// length, both written in seconds that read back exactly, from `input`
/// into that path.
pub proof fn law_clip_path_and_args(
    input: Seq<char>,
    dir: Seq<char>,
    extension: Seq<char>,
    index: nat,
    start: int,
    end: int,
)
    ensures
        ({
            let path = clip_path(dir, index, extension);
            let digits = path.subrange(dir.len() as int + 6, path.len() - extension.len() - 1);
            &&& path.subrange(0, dir.len() as int + 6) == dir + "/clip_"@
            &&& path.subrange(path.len() - extension.len() - 1, path.len() as int) == "."@
                + extension
            &&& dir.len() + 6 <= path.len() - extension.len() - 1
            &&& all_digits(digits)
            &&& digits_value(digits) == index
            &&& digits.len() >= 3
            &&& (digits.len() > 3 ==> digits[0] != '0')
        }),
        ({
            let args = clip_args(input, start, end, clip_path(dir, index, extension));
            let sign_free = |t: Seq<char>, v: int| if v < 0 { t.drop_first() } else { t };
            &&& args.len() == 10
            &&& args[0] == "-ss"@ && args[2] == "-i"@ && args[4] == "-t"@
            &&& args[6] == "-c"@ && args[7] == "copy"@ && args[8] == "-y"@
            &&& args[3] == input
            &&& args[9] == clip_path(dir, index, extension)
            &&& reads_as_seconds(sign_free(args[1], start), if start < 0 { -start } else { start })
            &&& (start < 0) == (args[1].len() > 0 && args[1][0] == '-')
            &&& reads_as_seconds(
                sign_free(args[5], end - start),
                if end - start < 0 { start - end } else { end - start },
            )
            &&& (end - start < 0) == (args[5].len() > 0 && args[5][0] == '-')
        }),
{
    reveal_strlit("/clip_");
    reveal_strlit(".");
    law_zero_padded_reads_back(index, 3);
    crate::number_laws::law_decimal_reads_back(index);
    law_seconds_text_reads_back(start);
    law_seconds_text_reads_back(end - start);
    let z = zero_padded(index, 3);
    let path = clip_path(dir, index, extension);
    assert(path =~= dir + "/clip_"@ + z + "."@ + extension);
    let digits = path.subrange(dir.len() as int + 6, path.len() - extension.len() - 1);
    assert(digits =~= z);
    assert(path.subrange(0, dir.len() as int + 6) =~= dir + "/clip_"@);
    assert(path.subrange(path.len() - extension.len() - 1, path.len() as int) =~= "."@ + extension);
    if z.len() > 3 {
        assert(z == decimal(index));
    }
}

/// The ffmpeg extraction of one clip.
pub struct ClipJob {
    pub index: usize,
    /// Where the clip is written.
    pub path: String,
    /// The arguments of the ffmpeg command that writes it.
    pub args: Vec<String>,
}

/// `job` extracts `seg` of `input` into `dir`.
pub open spec fn is_clip_job(
    job: ClipJob,
    input: Seq<char>,
    dir: Seq<char>,
    extension: Seq<char>,
    seg: TimelineSegment,
) -> bool {
    &&& job.index == seg.index
    &&& job.path@ == clip_path(dir, seg.index as nat, extension)
    &&& strings(job.args@) == clip_args(input, seg.start as int, seg.end as int, job.path@)
}

/// The line of the concatenation list for the clip at `path`: the path with
/// the kept-clips directory written as ".".
pub open spec fn list_line(path: Seq<char>, keep_dir: Seq<char>) -> Seq<char> {
    "file '"@ + replace_all(path, keep_dir, "."@) + "'\n"@
}

/// The concatenation list for the clips at `paths`, one line each.
pub open spec fn list_text(paths: Seq<Seq<char>>, keep_dir: Seq<char>) -> Seq<char>
    decreases paths.len(),
{
    if paths.len() == 0 {
        seq![]
    } else {
        list_text(paths.drop_last(), keep_dir) + list_line(paths.last(), keep_dir)
    }
}

/// The position of the last line break of `s`, or -1 when it has none.
pub open spec fn last_newline(s: Seq<char>) -> int
    decreases s.len(),
{
    if s.len() == 0 {
        -1
    } else if s.last() == '\n' {
        s.len() - 1
    } else {
        last_newline(s.drop_last())
    }
}

/// Where the last line break of `s` stands, and that none follows it.
pub proof fn lemma_last_newline(s: Seq<char>)
    ensures
        -1 <= last_newline(s) < s.len(),
        last_newline(s) >= 0 ==> s[last_newline(s)] == '\n',
        forall|j: int| last_newline(s) < j < s.len() ==> s[j] != '\n',
    decreases s.len(),
{
    if s.len() > 0 && s.last() != '\n' {
        lemma_last_newline(s.drop_last());
        assert forall|j: int| last_newline(s) < j < s.len() implies s[j] != '\n' by {
            if j < s.len() - 1 {
                assert(s[j] == s.drop_last()[j]);
            }
        }
    }
}

/// The lines of `s`, each ended by a line break (a last line without one
/// counts too), without their line breaks.
pub open spec fn lines_of(s: Seq<char>) -> Seq<Seq<char>>
    decreases s.len(),
{
    if s.len() == 0 {
        seq![]
    } else {
        let body = if s.last() == '\n' { s.drop_last() } else { s };
        let j = last_newline(body);
        proof {
            lemma_last_newline(body);
        }
        lines_of(s.take(j + 1)).push(body.skip(j + 1))
    }
}

proof fn lemma_last_newline_after(a: Seq<char>, l: Seq<char>)
    requires
        !l.contains('\n'),
    ensures
        last_newline(a + l) == last_newline(a),
    decreases l.len(),
{
    if l.len() == 0 {
        assert(a + l =~= a);
    } else {
        assert((a + l).drop_last() =~= a + l.drop_last());
        assert(l.last() != '\n') by {
            assert(l.contains(l[l.len() - 1]));
        }
        assert(!l.drop_last().contains('\n')) by {
            if l.drop_last().contains('\n') {
                let k = choose|k: int| 0 <= k < l.drop_last().len() && l.drop_last()[k] == '\n';
                assert(l[k] == '\n');
            }
        }
        lemma_last_newline_after(a, l.drop_last());
    }
}

/// The line of the list for one clip, without its line break.
pub open spec fn expected_list_line(path: Seq<char>, keep_dir: Seq<char>) -> Seq<char> {
    "file '"@ + replace_all(path, keep_dir, "."@) + "'"@
}

/// The concatenation list has exactly one line per kept clip, in order:
/// line `k` is "file '" followed by the clip's path with the kept-clips
/// directory written as ".", and "'". (Paths with line breaks in them would
/// split their own lines.)
pub proof fn law_list_has_one_line_per_clip(paths: Seq<Seq<char>>, keep_dir: Seq<char>)
    requires
        keep_dir.len() > 0,
        forall|k: int| 0 <= k < paths.len() ==> !(#[trigger] paths[k]).contains('\n'),
    ensures
        lines_of(list_text(paths, keep_dir)).len() == paths.len(),
        forall|k: int|
            0 <= k < paths.len() ==> #[trigger] lines_of(list_text(paths, keep_dir))[k]
                == expected_list_line(paths[k], keep_dir),
    decreases paths.len(),
{
    reveal_strlit("file '");
    reveal_strlit("'\n");
    reveal_strlit("'");
    reveal_strlit(".");
    if paths.len() > 0 {
        let init = paths.drop_last();
        assert forall|k: int| 0 <= k < init.len() implies !(#[trigger] init[k]).contains('\n') by {
            assert(init[k] == paths[k]);
        }
        law_list_has_one_line_per_clip(init, keep_dir);
        let x = list_text(init, keep_dir);
        let p = paths.last();
        assert(!p.contains('\n')) by {
            assert(p == paths[paths.len() - 1]);
        }
        let line = expected_list_line(p, keep_dir);
        law_replace_all(p, keep_dir, "."@);
        let r = replace_all(p, keep_dir, "."@);
        assert(!r.contains('\n')) by {
            if r.contains('\n') {
                assert(p.contains('\n') || "."@.contains('\n'));
                if "."@.contains('\n') {
                    let k = choose|k: int| 0 <= k < "."@.len() && "."@[k] == '\n';
                }
            }
        }
        assert(!line.contains('\n')) by {
            if line.contains('\n') {
                let k = choose|k: int| 0 <= k < line.len() && line[k] == '\n';
                if 6 <= k < 6 + r.len() {
                    assert(r[k - 6] == '\n');
                }
            }
        }
        let t = list_text(paths, keep_dir);
        assert(t =~= x + line + seq!['\n']);
        assert(t.last() == '\n');
        assert(t.drop_last() =~= x + line);
        // x is empty or ends in a line break
        if init.len() > 0 {
            assert(x.last() == '\n');
        }
        lemma_last_newline_after(x, line);
        lemma_last_newline(x);
        let j = last_newline(x);
        assert(j == x.len() - 1) by {
            if x.len() > 0 {
                if init.len() == 0 {
                    assert(x.len() == 0);
                }
            }
        }
        assert(t.take(j + 1) =~= x);
        assert((x + line).skip(j + 1) =~= line);
        assert(lines_of(t) == lines_of(x).push(line));
    }
}

/// The ffmpeg arguments that join the clips listed in `list_path` into
/// `output_path`.
pub open spec fn concat_args(list_path: Seq<char>, output_path: Seq<char>) -> Seq<Seq<char>> {
    seq![
        "-f"@,
        "concat"@,
        "-safe"@,
        "0"@,
        "-i"@,
        list_path,
        "-c"@,
        "copy"@,
        "-y"@,
        output_path,
    ]
}

/// Everything that rendering the edited video runs and writes.
pub struct RenderPlan {
    /// The directory of the kept clips.
    pub keep_dir: String,
    /// The directory of the removed clips.
    pub cut_dir: String,
    /// One extraction per removed range, in the order given.
    pub cut_jobs: Vec<ClipJob>,
    /// One extraction per kept range, in the order given.
    pub keep_jobs: Vec<ClipJob>,
    /// Where the concatenation list is written.
    pub list_path: String,
    /// What the concatenation list holds.
    pub list_content: String,
    /// Where the edited video is written.
    pub output_path: String,
    /// The arguments of the ffmpeg command that joins the kept clips.
    pub concat_args: Vec<String>,
}

/// The extraction of `seg` of `input` into `dir`.
fn clip_job(input: &str, dir: &str, extension: &str, seg: &TimelineSegment) -> (job: ClipJob)
    ensures
        is_clip_job(job, input@, dir@, extension@, *seg),
{
    let mut path = String::from_str(dir);
    path.append("/clip_");
    append_zero_padded(&mut path, seg.index as u128, 3);
    path.append(".");
    path.append(extension);
    let mut start = String::new();
    append_seconds(&mut start, seg.start as i128);
    let mut length = String::new();
    append_seconds(&mut length, seg.end as i128 - seg.start as i128);
    let mut args: Vec<String> = Vec::new();
    push_str(&mut args, "-ss");
    push_str(&mut args, start.as_str());
    push_str(&mut args, "-i");
    push_str(&mut args, input);
    push_str(&mut args, "-t");
    push_str(&mut args, length.as_str());
    push_str(&mut args, "-c");
    push_str(&mut args, "copy");
    push_str(&mut args, "-y");
    push_str(&mut args, path.as_str());
    proof {
        assert(path@ =~= clip_path(dir@, seg.index as nat, extension@));
        assert(strings(args@) =~= clip_args(input@, seg.start as int, seg.end as int, path@));
    }
    ClipJob { index: seg.index, path, args }
}

/// The extractions of `segs` of `input` into `dir`, in order.
fn clip_jobs(input: &str, dir: &str, extension: &str, segs: &[TimelineSegment]) -> (jobs: Vec<ClipJob>)
    ensures
        jobs@.len() == segs@.len(),
        forall|i: int|
            0 <= i < segs@.len() ==> is_clip_job(#[trigger] jobs@[i], input@, dir@, extension@, segs@[i]),
{
    let mut jobs: Vec<ClipJob> = Vec::new();
    let mut i: usize = 0;
    while i < segs.len()
        invariant
            i <= segs@.len(),
            jobs@.len() == i,
            forall|k: int|
                0 <= k < i ==> is_clip_job(#[trigger] jobs@[k], input@, dir@, extension@, segs@[k]),
        decreases segs@.len() - i,
    {
        let job = clip_job(input, dir, extension, &segs[i]);
        jobs.push(job);
        i += 1;
    }
    jobs
}

/// The paths of `jobs`.
pub open spec fn job_paths(jobs: Seq<ClipJob>) -> Seq<Seq<char>> {
    jobs.map_values(|j: ClipJob| j.path@)
}

/// The concatenation list for `jobs`.
fn list_of(jobs: &Vec<ClipJob>, keep_dir: &str) -> (text: String)
    requires
        keep_dir@.len() > 0,
    ensures
        text@ == list_text(job_paths(jobs@), keep_dir@),
{
    proof {
        reveal_strlit("file '");
        reveal_strlit("'\n");
        reveal_strlit(".");
    }
    let mut text = String::new();
    let mut i: usize = 0;
    while i < jobs.len()
        invariant
            i <= jobs@.len(),
            keep_dir@.len() > 0,
            text@ == list_text(job_paths(jobs@).take(i as int), keep_dir@),
        decreases jobs@.len() - i,
    {
        let short = replace_all_str(jobs[i].path.as_str(), keep_dir, ".");
        text.append("file '");
        text.append(short.as_str());
        text.append("'\n");
        proof {
            let paths = job_paths(jobs@);
            assert(paths.take(i + 1).drop_last() =~= paths.take(i as int));
            assert(paths.take(i + 1).last() == jobs@[i as int].path@);
            assert(text@ =~= list_text(paths.take(i + 1), keep_dir@));
        }
        i += 1;
    }
    proof {
        assert(job_paths(jobs@).take(jobs@.len() as int) =~= job_paths(jobs@));
    }
    text
}

/// Plans the rendering of the edited video of `input` into the directory
/// `output`: kept clips go to "<output>/used_clips", removed clips to
/// "<output>/removed_clips", the list to "<output>/used_clips/list.txt" and
/// the result to "<output>/edited_video.<extension>".
pub fn plan_render(
    input: &str,
    parts_to_keep: &[TimelineSegment],
    parts_to_cut: &[TimelineSegment],
    output: &str,
    file_extension: &str,
) -> (plan: RenderPlan)
    ensures
        plan.keep_dir@ == keep_dir_of(output@),
        plan.cut_dir@ == cut_dir_of(output@),
        plan.cut_jobs@.len() == parts_to_cut@.len(),
        forall|i: int|
            0 <= i < parts_to_cut@.len() ==> is_clip_job(
                #[trigger] plan.cut_jobs@[i],
                input@,
                cut_dir_of(output@),
                file_extension@,
                parts_to_cut@[i],
            ),
        plan.keep_jobs@.len() == parts_to_keep@.len(),
        forall|i: int|
            0 <= i < parts_to_keep@.len() ==> is_clip_job(
                #[trigger] plan.keep_jobs@[i],
                input@,
                keep_dir_of(output@),
                file_extension@,
                parts_to_keep@[i],
            ),
        plan.list_path@ == keep_dir_of(output@) + "/list.txt"@,
        plan.list_content@ == list_text(job_paths(plan.keep_jobs@), keep_dir_of(output@)),
        plan.output_path@ == output@ + "/edited_video."@ + file_extension@,
        strings(plan.concat_args@) == concat_args(plan.list_path@, plan.output_path@),
{
    let mut keep_dir = String::from_str(output);
    keep_dir.append("/used_clips");
    let mut cut_dir = String::from_str(output);
    cut_dir.append("/removed_clips");
    let cut_jobs = clip_jobs(input, cut_dir.as_str(), file_extension, parts_to_cut);
    let keep_jobs = clip_jobs(input, keep_dir.as_str(), file_extension, parts_to_keep);
    proof {
        reveal_strlit("/used_clips");
    }
    let list_content = list_of(&keep_jobs, keep_dir.as_str());
    let mut list_path = String::from_str(keep_dir.as_str());
    list_path.append("/list.txt");
    let mut output_path = String::from_str(output);
    output_path.append("/edited_video.");
    output_path.append(file_extension);
    let mut args: Vec<String> = Vec::new();
    push_str(&mut args, "-f");
    push_str(&mut args, "concat");
    push_str(&mut args, "-safe");
    push_str(&mut args, "0");
    push_str(&mut args, "-i");
    push_str(&mut args, list_path.as_str());
    push_str(&mut args, "-c");
    push_str(&mut args, "copy");
    push_str(&mut args, "-y");
    push_str(&mut args, output_path.as_str());
    proof {
        assert(strings(args@) =~= concat_args(list_path@, output_path@));
    }
    RenderPlan {
        keep_dir,
        cut_dir,
        cut_jobs,
        keep_jobs,
        list_path,
        list_content,
        output_path,
        concat_args: args,
    }
}

/// The error for a clip that ffmpeg failed to extract:
/// "Failed to extract clip <index>".
pub fn clip_failure_message(index: usize) -> (msg: String)
    ensures
        msg@ == "Failed to extract clip "@ + decimal(index as nat),
{
    let mut msg = String::from_str("Failed to extract clip ");
    append_decimal(&mut msg, index as u128);
    msg
}

} // verus!
