use videotrim::editor::cuts_and_keeps;
use videotrim::{EditCommand, TimelineSegment};

const S: i64 = 1_000_000_000;

fn cut(start: i64, end: i64, reason: &str) -> EditCommand {
    EditCommand { start, end, text: String::from("segment text"), reason: String::from(reason) }
}

fn seg(index: usize, start: i64, end: i64) -> TimelineSegment {
    TimelineSegment { index, start, end }
}

#[test]
fn out_of_order_cuts_are_sorted_and_gaps_kept() {
    let cuts = vec![cut(5 * S, 6 * S, "tangent"), cut(S, 2 * S, "um")];
    let (keeps, removed, notes) = cuts_and_keeps(&cuts, 10 * S, false);
    assert_eq!(keeps, vec![seg(0, 0, S), seg(2, 2 * S, 5 * S), seg(4, 6 * S, 10 * S)]);
    assert_eq!(removed, vec![seg(1, S, 2 * S), seg(3, 5 * S, 6 * S)]);
    assert!(notes.is_empty());
}

#[test]
fn no_cuts_keeps_the_whole_video() {
    let (keeps, removed, notes) = cuts_and_keeps(&[], 10 * S, true);
    assert_eq!(keeps, vec![seg(0, 0, 10 * S)]);
    assert!(removed.is_empty());
    assert!(notes.is_empty());
}

#[test]
fn empty_video_without_cuts_keeps_nothing() {
    let (keeps, removed, _) = cuts_and_keeps(&[], 0, false);
    assert!(keeps.is_empty());
    assert!(removed.is_empty());
}

#[test]
fn overlapping_cuts_leave_no_gap_between_them() {
    let cuts = vec![cut(S, 4 * S, "a"), cut(2 * S, 3 * S, "b")];
    let (keeps, removed, _) = cuts_and_keeps(&cuts, 10 * S, false);
    assert_eq!(keeps, vec![seg(0, 0, S), seg(3, 4 * S, 10 * S)]);
    assert_eq!(removed, vec![seg(1, S, 4 * S), seg(2, 2 * S, 3 * S)]);
}

#[test]
fn cut_at_the_start_has_no_kept_range_before_it() {
    let cuts = vec![cut(0, 2 * S, "silence")];
    let (keeps, removed, _) = cuts_and_keeps(&cuts, 5 * S, false);
    assert_eq!(removed, vec![seg(0, 0, 2 * S)]);
    assert_eq!(keeps, vec![seg(1, 2 * S, 5 * S)]);
}

#[test]
fn cut_past_the_end_leaves_no_final_range() {
    let cuts = vec![cut(8 * S, 12 * S, "outro")];
    let (keeps, removed, _) = cuts_and_keeps(&cuts, 10 * S, false);
    assert_eq!(keeps, vec![seg(0, 0, 8 * S)]);
    assert_eq!(removed, vec![seg(1, 8 * S, 12 * S)]);
}

#[test]
fn cuts_with_equal_starts_keep_their_given_order() {
    let cuts = vec![cut(S, 3 * S, "b"), cut(S, 2 * S, "a")];
    let (keeps, removed, notes) = cuts_and_keeps(&cuts, 4 * S, true);
    assert_eq!(removed, vec![seg(1, S, 3 * S), seg(2, S, 2 * S)]);
    assert_eq!(keeps, vec![seg(0, 0, S), seg(3, 3 * S, 4 * S)]);
    assert_eq!(
        notes,
        vec![
            String::from("Removing Clip 1, reason: b"),
            String::from("Removing Clip 2, reason: a"),
        ]
    );
}

#[test]
fn notes_name_each_removed_clip_in_order() {
    let cuts = vec![cut(5 * S, 6 * S, "tangent about the weather"), cut(S, 2 * S, "filler word um")];
    let (_, _, notes) = cuts_and_keeps(&cuts, 10 * S, true);
    assert_eq!(
        notes,
        vec![
            String::from("Removing Clip 1, reason: filler word um"),
            String::from("Removing Clip 3, reason: tangent about the weather"),
        ]
    );
}

#[test]
fn cut_before_zero_is_removed_without_a_kept_range() {
    let cuts = vec![cut(-S, S, "noise")];
    let (keeps, removed, _) = cuts_and_keeps(&cuts, 3 * S, false);
    assert_eq!(removed, vec![seg(0, -S, S)]);
    assert_eq!(keeps, vec![seg(1, S, 3 * S)]);
}

#[test]
fn inverted_cut_moves_the_cursor_to_its_end() {
    let cuts = vec![cut(5 * S, 3 * S, "odd")];
    let (keeps, removed, _) = cuts_and_keeps(&cuts, 10 * S, false);
    assert_eq!(keeps, vec![seg(0, 0, 5 * S), seg(2, 3 * S, 10 * S)]);
    assert_eq!(removed, vec![seg(1, 5 * S, 3 * S)]);
}

#[test]
fn every_instant_is_cut_or_kept_and_never_both() {
    let cuts = vec![
        cut(7 * S, 9 * S, "a"),
        cut(S / 2, S, "b"),
        cut(3 * S, 4 * S, "c"),
        cut(3 * S + S / 2, 5 * S, "d"),
    ];
    let total = 10 * S;
    let (keeps, removed, _) = cuts_and_keeps(&cuts, total, false);
    let mut t = 0;
    while t < total {
        let in_cut = cuts.iter().any(|c| c.start <= t && t < c.end);
        let in_keep = keeps.iter().any(|k| k.start <= t && t < k.end);
        assert!(in_cut != in_keep, "instant {t}");
        t += S / 4;
    }
    let mut numbers: Vec<usize> = keeps.iter().chain(removed.iter()).map(|s| s.index).collect();
    numbers.sort();
    assert_eq!(numbers, (0..keeps.len() + removed.len()).collect::<Vec<_>>());
}

#[test]
fn order_of_cuts_and_reason_flag_do_not_change_the_ranges() {
    let a = vec![cut(S, 2 * S, "a"), cut(5 * S, 6 * S, "b"), cut(3 * S, 4 * S, "c")];
    let b = vec![cut(3 * S, 4 * S, "c"), cut(S, 2 * S, "a"), cut(5 * S, 6 * S, "b")];
    let (keeps_a, removed_a, notes_a) = cuts_and_keeps(&a, 8 * S, true);
    let (keeps_b, removed_b, notes_b) = cuts_and_keeps(&b, 8 * S, false);
    assert_eq!(keeps_a, keeps_b);
    assert_eq!(removed_a, removed_b);
    assert_eq!(notes_a.len(), 3);
    assert!(notes_b.is_empty());
}
