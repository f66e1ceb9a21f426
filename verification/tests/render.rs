use videotrim::render::{clip_failure_message, plan_render};
use videotrim::TimelineSegment;

const S: i64 = 1_000_000_000;

fn strs(v: &[String]) -> Vec<&str> {
    v.iter().map(|s| s.as_str()).collect()
}

#[test]
fn plan_places_clips_and_lists_kept_ones() {
    let keeps = vec![
        TimelineSegment { index: 0, start: 0, end: S },
        TimelineSegment { index: 2, start: 2 * S, end: 5 * S / 2 + 2 * S },
    ];
    let cuts = vec![TimelineSegment { index: 1, start: S, end: 2 * S }];
    let plan = plan_render("talk.mp4", &keeps, &cuts, "out", "mp4");
    assert_eq!(plan.keep_dir, "out/used_clips");
    assert_eq!(plan.cut_dir, "out/removed_clips");
    assert_eq!(plan.cut_jobs.len(), 1);
    assert_eq!(plan.cut_jobs[0].index, 1);
    assert_eq!(plan.cut_jobs[0].path, "out/removed_clips/clip_001.mp4");
    assert_eq!(
        strs(&plan.cut_jobs[0].args),
        vec!["-ss", "1", "-i", "talk.mp4", "-t", "1", "-c", "copy", "-y", "out/removed_clips/clip_001.mp4"]
    );
    assert_eq!(plan.keep_jobs.len(), 2);
    assert_eq!(plan.keep_jobs[1].path, "out/used_clips/clip_002.mp4");
    assert_eq!(
        strs(&plan.keep_jobs[1].args),
        vec!["-ss", "2", "-i", "talk.mp4", "-t", "2.5", "-c", "copy", "-y", "out/used_clips/clip_002.mp4"]
    );
    assert_eq!(plan.list_path, "out/used_clips/list.txt");
    assert_eq!(plan.list_content, "file './clip_000.mp4'\nfile './clip_002.mp4'\n");
    assert_eq!(plan.output_path, "out/edited_video.mp4");
    assert_eq!(
        strs(&plan.concat_args),
        vec!["-f", "concat", "-safe", "0", "-i", "out/used_clips/list.txt", "-c", "copy", "-y", "out/edited_video.mp4"]
    );
}

#[test]
fn fractional_and_negative_times_are_written_in_seconds() {
    let cuts = vec![TimelineSegment { index: 1234, start: -S / 4, end: 1_500_000_001 }];
    let plan = plan_render("in.mov", &[], &cuts, "o", "mov");
    assert_eq!(plan.cut_jobs[0].path, "o/removed_clips/clip_1234.mov");
    assert_eq!(plan.cut_jobs[0].args[1], "-0.25");
    assert_eq!(plan.cut_jobs[0].args[5], "1.750000001");
    assert!(plan.keep_jobs.is_empty());
    assert_eq!(plan.list_content, "");
}

#[test]
fn list_lines_replace_every_occurrence_of_the_kept_directory() {
    let keeps = vec![TimelineSegment { index: 3, start: 0, end: S }];
    let plan = plan_render("x.a/used_clips", &keeps, &[], "a", "a/used_clips");
    assert_eq!(plan.keep_jobs[0].path, "a/used_clips/clip_003.a/used_clips");
    assert_eq!(plan.list_content, "file './clip_003..'\n");
}

#[test]
fn failure_message_names_the_clip() {
    assert_eq!(clip_failure_message(7), "Failed to extract clip 7");
    assert_eq!(clip_failure_message(120), "Failed to extract clip 120");
}
