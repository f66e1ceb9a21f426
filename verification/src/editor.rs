//! Turning the model's cuts into the timeline of the edited video.
//!
//! The cuts are put in order of start time (cuts that start together keep
//! the order in which the model gave them). Walking through them with a
//! cursor, the gap before each cut that starts after the cursor becomes a
//! kept range, each cut becomes a removed range, and what is left after the
//! last cut, up to the end of the video, is kept too. Kept and removed
//! ranges share one numbering, in timeline order.

use vstd::prelude::*;
use crate::text::{append_decimal, decimal};
use crate::types::{EditCommand, TimelineSegment};

verus! {

/// Whether the cut at position `a` of `cuts` is placed before the one at
/// position `b`: it starts earlier, or both start together and `a` was given
/// first.
pub open spec fn precedes(cuts: Seq<EditCommand>, a: int, b: int) -> bool {
    cuts[a].start < cuts[b].start || (cuts[a].start == cuts[b].start && a < b)
}

/// `order` is the stable order of the first `i` cuts.
pub open spec fn is_order_prefix(cuts: Seq<EditCommand>, order: Seq<usize>, i: nat) -> bool {
    &&& order.len() == i
    &&& forall|p: int| 0 <= p < order.len() ==> (#[trigger] order[p]) < i
    &&& forall|k: usize| k < i ==> #[trigger] order.contains(k)
    &&& forall|p: int, q: int|
        #![trigger order[p], order[q]]
        0 <= p < q < order.len() ==> precedes(cuts, order[p] as int, order[q] as int)
}

/// `order` lists every position of `cuts` once, by start time, cuts with
/// equal starts in their given order.
pub open spec fn is_stable_order(cuts: Seq<EditCommand>, order: Seq<usize>) -> bool {
    is_order_prefix(cuts, order, cuts.len())
}

/// The stable order of `cuts` by start time (unique: see
/// `lemma_stable_order_unique`).
pub open spec fn stable_order(cuts: Seq<EditCommand>) -> Seq<usize> {
    choose|order: Seq<usize>| is_stable_order(cuts, order)
}

/// The cuts in their stable order by start time.
pub open spec fn sorted_commands(cuts: Seq<EditCommand>) -> Seq<EditCommand> {
    stable_order(cuts).map_values(|i: usize| cuts[i as int])
}

/// Inserting cut `i` after every placed cut that starts no later than it,
/// and before the others, extends the stable order of the first `i` cuts
/// to the first `i + 1`.
proof fn lemma_insert_in_order(cuts: Seq<EditCommand>, prev: Seq<usize>, i: usize, pos: int)
    requires
        i < cuts.len(),
        is_order_prefix(cuts, prev, i as nat),
        0 <= pos <= prev.len(),
        forall|q: int| 0 <= q < pos ==> cuts[(#[trigger] prev[q]) as int].start <= cuts[i as int].start,
        pos < prev.len() ==> cuts[i as int].start < cuts[prev[pos] as int].start,
    ensures
        is_order_prefix(cuts, prev.insert(pos, i), (i + 1) as nat),
{
    prev.insert_ensures(pos, i);
    let cur = prev.insert(pos, i);
    assert forall|p: int, q: int|
        #![trigger cur[p], cur[q]]
        0 <= p < q < cur.len() implies precedes(cuts, cur[p] as int, cur[q] as int) by {
        if q < pos {
            assert(cur[p] == prev[p] && cur[q] == prev[q]);
        } else if q == pos {
            assert(cur[p] == prev[p]);
        } else if p == pos {
            assert(cur[q] == prev[q - 1]);
            if q - 1 > pos {
                assert(precedes(cuts, prev[pos] as int, prev[q - 1] as int));
            }
        } else if p < pos {
            assert(cur[p] == prev[p] && cur[q] == prev[q - 1]);
        } else {
            assert(cur[p] == prev[p - 1] && cur[q] == prev[q - 1]);
        }
    }
    assert forall|k: usize| k < i + 1 implies #[trigger] cur.contains(k) by {
        if k == i {
            assert(cur[pos] == i);
        } else {
            assert(prev.contains(k));
            let j = choose|j: int| 0 <= j < prev.len() && prev[j] == k;
            if j < pos {
                assert(cur[j] == prev[j]);
            } else {
                assert(cur[j + 1] == prev[j]);
            }
        }
    }
    assert forall|p: int| 0 <= p < cur.len() implies (#[trigger] cur[p]) < i + 1 by {
        if p < pos {
            assert(cur[p] == prev[p]);
        } else if p > pos {
            assert(cur[p] == prev[p - 1]);
        }
    }
}

/// Where insertion sort places a cut that starts at `key` among the
/// ordered positions `prev`: after the last one that starts no later.
pub open spec fn insertion_position(cuts: Seq<EditCommand>, prev: Seq<usize>, key: i64) -> nat
    decreases prev.len(),
{
    if prev.len() == 0 {
        0
    } else if cuts[prev.last() as int].start <= key {
        prev.len()
    } else {
        insertion_position(cuts, prev.drop_last(), key)
    }
}

/// The order that insertion sort builds for the first `k` cuts.
pub open spec fn insertion_order(cuts: Seq<EditCommand>, k: nat) -> Seq<usize>
    decreases k,
{
    if k == 0 {
        seq![]
    } else {
        let prev = insertion_order(cuts, (k - 1) as nat);
        prev.insert(insertion_position(cuts, prev, cuts[k - 1].start) as int, (k - 1) as usize)
    }
}

proof fn lemma_insertion_position(cuts: Seq<EditCommand>, prev: Seq<usize>, key: i64)
    requires
        forall|p: int, q: int|
            #![trigger prev[p], prev[q]]
            0 <= p < q < prev.len() ==> precedes(cuts, prev[p] as int, prev[q] as int),
    ensures
        insertion_position(cuts, prev, key) <= prev.len(),
        forall|q: int|
            0 <= q < insertion_position(cuts, prev, key) ==> cuts[(#[trigger] prev[q]) as int].start
                <= key,
        insertion_position(cuts, prev, key) < prev.len() ==> key < cuts[prev[insertion_position(
            cuts,
            prev,
            key,
        ) as int] as int].start,
    decreases prev.len(),
{
    if prev.len() > 0 {
        let last = prev.len() - 1;
        if cuts[prev.last() as int].start <= key {
            assert forall|q: int| 0 <= q < prev.len() implies cuts[(#[trigger] prev[q]) as int].start <= key by {
                if q < last {
                    assert(precedes(cuts, prev[q] as int, prev[last] as int));
                }
            }
        } else {
            let shorter = prev.drop_last();
            assert forall|p: int, q: int|
                #![trigger shorter[p], shorter[q]]
                0 <= p < q < shorter.len() implies precedes(cuts, shorter[p] as int, shorter[q] as int) by {
                assert(shorter[p] == prev[p] && shorter[q] == prev[q]);
            }
            lemma_insertion_position(cuts, shorter, key);
            let pos = insertion_position(cuts, shorter, key);
            assert forall|q: int| 0 <= q < pos implies cuts[(#[trigger] prev[q]) as int].start <= key by {
                assert(shorter[q] == prev[q]);
            }
            if pos < shorter.len() {
                assert(shorter[pos as int] == prev[pos as int]);
            }
        }
    }
}

proof fn lemma_insertion_order(cuts: Seq<EditCommand>, k: nat)
    requires
        k <= cuts.len(),
        cuts.len() <= usize::MAX,
    ensures
        is_order_prefix(cuts, insertion_order(cuts, k), k),
    decreases k,
{
    if k > 0 {
        lemma_insertion_order(cuts, (k - 1) as nat);
        let prev = insertion_order(cuts, (k - 1) as nat);
        lemma_insertion_position(cuts, prev, cuts[k - 1].start);
        let pos = insertion_position(cuts, prev, cuts[k - 1].start);
        lemma_insert_in_order(cuts, prev, (k - 1) as usize, pos as int);
    }
}

/// Every sequence of cuts that a `Vec` can hold has a stable order.
pub proof fn lemma_stable_order_exists(cuts: Seq<EditCommand>)
    requires
        cuts.len() <= usize::MAX,
    ensures
        is_stable_order(cuts, stable_order(cuts)),
{
    lemma_insertion_order(cuts, cuts.len());
    assert(is_stable_order(cuts, insertion_order(cuts, cuts.len())));
}

/// Computes the stable order of the cuts by start time (insertion sort).
fn stable_order_of(cuts: &[EditCommand]) -> (order: Vec<usize>)
    ensures
        is_stable_order(cuts@, order@),
{
    let n = cuts.len();
    let mut order: Vec<usize> = Vec::new();
    let mut i: usize = 0;
    while i < n
        invariant
            i <= n,
            n == cuts@.len(),
            is_order_prefix(cuts@, order@, i as nat),
        decreases n - i,
    {
        let key = cuts[i].start;
        let mut pos: usize = 0;
        while pos < order.len() && cuts[order[pos]].start <= key
            invariant
                i < n,
                n == cuts@.len(),
                key == cuts@[i as int].start,
                is_order_prefix(cuts@, order@, i as nat),
                pos <= order@.len(),
                forall|q: int| 0 <= q < pos ==> cuts@[(#[trigger] order@[q]) as int].start <= key,
            decreases order@.len() - pos,
        {
            pos += 1;
        }
        proof {
            lemma_insert_in_order(cuts@, order@, i, pos as int);
        }
        order.insert(pos, i);
        i += 1;
    }
    order
}

proof fn lemma_precedes_strict(cuts: Seq<EditCommand>, a: int, b: int)
    ensures
        !(precedes(cuts, a, b) && precedes(cuts, b, a)),
        !precedes(cuts, a, a),
{
}

/// Two sequences of positions of `cuts`, each strictly ordered by
/// `precedes`, that hold the same positions are equal.
proof fn lemma_ordered_same_elements_equal(cuts: Seq<EditCommand>, s: Seq<usize>, t: Seq<usize>)
    requires
        forall|p: int, q: int|
            #![trigger s[p], s[q]]
            0 <= p < q < s.len() ==> precedes(cuts, s[p] as int, s[q] as int),
        forall|p: int, q: int|
            #![trigger t[p], t[q]]
            0 <= p < q < t.len() ==> precedes(cuts, t[p] as int, t[q] as int),
        forall|x: usize| s.contains(x) <==> t.contains(x),
    ensures
        s == t,
    decreases s.len(),
{
    if s.len() == 0 {
        if t.len() > 0 {
            assert(t.contains(t[0]));
        }
        assert(s =~= t);
    } else {
        assert(s.contains(s[0]));
        assert(t.len() > 0);
        assert(t.contains(t[0]));
        let a = s[0];
        let b = t[0];
        if a != b {
            let p = choose|p: int| 0 <= p < s.len() && s[p] == b;
            let q = choose|q: int| 0 <= q < t.len() && t[q] == a;
            assert(precedes(cuts, s[0] as int, s[p] as int));
            assert(precedes(cuts, t[0] as int, t[q] as int));
            lemma_precedes_strict(cuts, a as int, b as int);
        }
        let s1 = s.drop_first();
        let t1 = t.drop_first();
        assert forall|x: usize| s1.contains(x) <==> t1.contains(x) by {
            if s1.contains(x) {
                let j = choose|j: int| 0 <= j < s1.len() && s1[j] == x;
                assert(s[j + 1] == x);
                assert(precedes(cuts, s[0] as int, s[j + 1] as int));
                lemma_precedes_strict(cuts, a as int, a as int);
                assert(s.contains(x));
                let k = choose|k: int| 0 <= k < t.len() && t[k] == x;
                assert(k != 0);
                assert(t1[k - 1] == x);
            }
            if t1.contains(x) {
                let j = choose|j: int| 0 <= j < t1.len() && t1[j] == x;
                assert(t[j + 1] == x);
                assert(precedes(cuts, t[0] as int, t[j + 1] as int));
                lemma_precedes_strict(cuts, a as int, a as int);
                assert(t.contains(x));
                let k = choose|k: int| 0 <= k < s.len() && s[k] == x;
                assert(k != 0);
                assert(s1[k - 1] == x);
            }
        }
        assert forall|p: int, q: int|
            #![trigger s1[p], s1[q]]
            0 <= p < q < s1.len() implies precedes(cuts, s1[p] as int, s1[q] as int) by {
            assert(s1[p] == s[p + 1] && s1[q] == s[q + 1]);
        }
        assert forall|p: int, q: int|
            #![trigger t1[p], t1[q]]
            0 <= p < q < t1.len() implies precedes(cuts, t1[p] as int, t1[q] as int) by {
            assert(t1[p] == t[p + 1] && t1[q] == t[q + 1]);
        }
        lemma_ordered_same_elements_equal(cuts, s1, t1);
        assert(a == b);
        assert(s =~= seq![a] + s1);
        assert(t =~= seq![b] + t1);
    }
}

/// There is exactly one stable order of the cuts by start time.
pub proof fn lemma_stable_order_unique(cuts: Seq<EditCommand>, o1: Seq<usize>, o2: Seq<usize>)
    requires
        is_stable_order(cuts, o1),
        is_stable_order(cuts, o2),
    ensures
        o1 == o2,
{
    assert forall|x: usize| o1.contains(x) <==> o2.contains(x) by {
        if o1.contains(x) {
            let j = choose|j: int| 0 <= j < o1.len() && o1[j] == x;
            assert(o1[j] < cuts.len());
        }
        if o2.contains(x) {
            let j = choose|j: int| 0 <= j < o2.len() && o2[j] == x;
            assert(o2[j] < cuts.len());
        }
    }
    lemma_ordered_same_elements_equal(cuts, o1, o2);
}

/// Where the walk through the ordered cuts stands: the ranges kept and
/// removed so far, the notes written for the removed ones, the cursor (the
/// furthest end seen, never before 0), and the next number to hand out.
pub struct SplitState {
    pub keeps: Seq<TimelineSegment>,
    pub cuts: Seq<TimelineSegment>,
    pub notes: Seq<Seq<char>>,
    pub cursor: i64,
    pub next: nat,
}

/// The line that explains the removal of clip `index`.
pub open spec fn removal_note(index: nat, reason: Seq<char>) -> Seq<char> {
    "Removing Clip "@ + decimal(index) + ", reason: "@ + reason
}

/// The note of a removed clip is "Removing Clip ", the clip's number in
/// plain decimal, ", reason: " and the reason unchanged.
pub proof fn law_removal_note(index: nat, reason: Seq<char>)
    ensures
        ({
            let note = removal_note(index, reason);
            let digits = note.subrange(14, note.len() - 10 - reason.len());
            &&& 14 < note.len() - 10 - reason.len()
            &&& note.subrange(0, 14) == "Removing Clip "@
            &&& crate::number_laws::plain_number(digits)
            &&& crate::number_laws::digits_value(digits) == index
            &&& note.subrange(note.len() - 10 - reason.len(), note.len() - reason.len()) == ", reason: "@
            &&& note.subrange(note.len() - reason.len(), note.len() as int) == reason
        }),
{
    reveal_strlit("Removing Clip ");
    reveal_strlit(", reason: ");
    crate::number_laws::law_decimal_reads_back(index);
    let note = removal_note(index, reason);
    let d = decimal(index);
    assert(note =~= "Removing Clip "@ + d + ", reason: "@ + reason);
    assert(note.subrange(14, note.len() - 10 - reason.len()) =~= d);
    assert(note.subrange(0, 14) =~= "Removing Clip "@);
    assert(note.subrange(note.len() - 10 - reason.len(), note.len() - reason.len()) =~= ", reason: "@);
    assert(note.subrange(note.len() - reason.len(), note.len() as int) =~= reason);
}

/// The walk before any cut.
pub open spec fn split_start() -> SplitState {
    SplitState { keeps: seq![], cuts: seq![], notes: seq![], cursor: 0, next: 0 }
}

/// One step of the walk: the cut `c`, and the kept gap before it when it
/// starts after the cursor.
pub open spec fn split_step(st: SplitState, c: EditCommand, show_reasoning: bool) -> SplitState {
    let gap = c.start > st.cursor;
    let cut_index: nat = if gap { st.next + 1 } else { st.next };
    SplitState {
        keeps: if gap {
            st.keeps.push(TimelineSegment { index: st.next as usize, start: st.cursor, end: c.start })
        } else {
            st.keeps
        },
        cuts: st.cuts.push(TimelineSegment { index: cut_index as usize, start: c.start, end: c.end }),
        notes: if show_reasoning {
            st.notes.push(removal_note(cut_index, c.reason@))
        } else {
            st.notes
        },
        cursor: if c.end > st.cursor { c.end } else { st.cursor },
        next: cut_index + 1,
    }
}

/// The walk through `cmds`, in the order given.
pub open spec fn split_run(cmds: Seq<EditCommand>, show_reasoning: bool) -> SplitState
    decreases cmds.len(),
{
    if cmds.len() == 0 {
        split_start()
    } else {
        split_step(split_run(cmds.drop_last(), show_reasoning), cmds.last(), show_reasoning)
    }
}

/// The end of the walk: what lies between the cursor and the end of the
/// video is kept.
pub open spec fn split_finish(st: SplitState, total_duration: i64) -> SplitState {
    if st.cursor < total_duration {
        SplitState {
            keeps: st.keeps.push(
                TimelineSegment { index: st.next as usize, start: st.cursor, end: total_duration },
            ),
            next: st.next + 1,
            ..st
        }
    } else {
        st
    }
}

/// The whole split of a video of length `total_duration` by `cuts`.
pub open spec fn split_of(cuts: Seq<EditCommand>, total_duration: i64, show_reasoning: bool) -> SplitState {
    split_finish(split_run(sorted_commands(cuts), show_reasoning), total_duration)
}

/// Splits the timeline of a video of length `total_duration` into the
/// ranges to keep and the ranges to remove, as described at the top of this
/// module. With `show_reasoning`, the third result holds one line per
/// removed range, "Removing Clip <index>, reason: <reason>"; otherwise it is
/// empty.
pub fn cuts_and_keeps(cuts: &[EditCommand], total_duration: i64, show_reasoning: bool) -> (res: (
    Vec<TimelineSegment>,
    Vec<TimelineSegment>,
    Vec<String>,
))
    requires
        cuts@.len() < usize::MAX / 2,
    ensures
        res.0@ == split_of(cuts@, total_duration, show_reasoning).keeps,
        res.1@ == split_of(cuts@, total_duration, show_reasoning).cuts,
        res.2@.map_values(|s: String| s@) == split_of(cuts@, total_duration, show_reasoning).notes,
{
    let order = stable_order_of(cuts);
    proof {
        lemma_stable_order_unique(cuts@, order@, stable_order(cuts@));
    }
    let ghost sorted = sorted_commands(cuts@);
    let n = cuts.len();
    let mut keeps: Vec<TimelineSegment> = Vec::new();
    let mut removed: Vec<TimelineSegment> = Vec::new();
    let mut notes: Vec<String> = Vec::new();
    let mut cursor: i64 = 0;
    let mut index: usize = 0;
    let mut p: usize = 0;
    while p < n
        invariant
            p <= n,
            n == cuts@.len(),
            n < usize::MAX / 2,
            order@ == stable_order(cuts@),
            is_stable_order(cuts@, order@),
            sorted == sorted_commands(cuts@),
            sorted.len() == n,
            index <= 2 * p,
            keeps@ == split_run(sorted.take(p as int), show_reasoning).keeps,
            removed@ == split_run(sorted.take(p as int), show_reasoning).cuts,
            notes@.map_values(|s: String| s@) == split_run(sorted.take(p as int), show_reasoning).notes,
            cursor == split_run(sorted.take(p as int), show_reasoning).cursor,
            index == split_run(sorted.take(p as int), show_reasoning).next,
        decreases n - p,
    {
        let ghost before = split_run(sorted.take(p as int), show_reasoning);
        let c = &cuts[order[p]];
        proof {
            assert(sorted.take(p + 1).drop_last() =~= sorted.take(p as int));
            assert(sorted.take(p + 1).last() == *c);
        }
        if c.start > cursor {
            keeps.push(TimelineSegment { index, start: cursor, end: c.start });
            index += 1;
        }
        removed.push(TimelineSegment { index, start: c.start, end: c.end });
        if show_reasoning {
            let mut note = String::from_str("Removing Clip ");
            append_decimal(&mut note, index as u128);
            note.append(", reason: ");
            note.append(c.reason.as_str());
            let ghost prev_notes = notes@;
            notes.push(note);
            proof {
                assert(notes@.map_values(|s: String| s@) =~= prev_notes.map_values(|s: String| s@).push(
                    removal_note(index as nat, c.reason@),
                ));
            }
        }
        index += 1;
        if c.end > cursor {
            cursor = c.end;
        }
        p += 1;
        proof {
            let after = split_run(sorted.take(p as int), show_reasoning);
            assert(after == split_step(before, *c, show_reasoning));
            assert(keeps@ =~= after.keeps);
            assert(removed@ =~= after.cuts);
        }
    }
    proof {
        assert(sorted.take(n as int) =~= sorted);
    }
    if cursor < total_duration {
        keeps.push(TimelineSegment { index, start: cursor, end: total_duration });
    }
    (keeps, removed, notes)
}

/// Whether the range from `start` (included) to `end` (excluded) holds the
/// instant `t`.
pub open spec fn in_range(start: i64, end: i64, t: int) -> bool {
    start <= t < end
}

/// Whether one of `keeps` holds the instant `t`.
pub open spec fn kept_at(keeps: Seq<TimelineSegment>, t: int) -> bool {
    exists|k: int| 0 <= k < keeps.len() && in_range(#[trigger] keeps[k].start, keeps[k].end, t)
}

/// Whether one of the cuts holds the instant `t`.
pub open spec fn cut_at(cmds: Seq<EditCommand>, t: int) -> bool {
    exists|i: int| 0 <= i < cmds.len() && in_range(#[trigger] cmds[i].start, cmds[i].end, t)
}

/// What every walk keeps: one removed range per cut, with its times; the
/// cursor at or after 0 and after every end seen; kept ranges that are not
/// empty and do not start before 0; one note per removed range when asked.
proof fn lemma_run_shape(cmds: Seq<EditCommand>, show_reasoning: bool)
    requires
        cmds.len() < usize::MAX / 2,
    ensures
        ({
            let st = split_run(cmds, show_reasoning);
            &&& st.cuts.len() == cmds.len()
            &&& st.next <= 2 * cmds.len()
            &&& forall|i: int|
                0 <= i < cmds.len() ==> (#[trigger] st.cuts[i]).start == cmds[i].start
                    && st.cuts[i].end == cmds[i].end
            &&& st.cursor >= 0
            &&& forall|i: int| 0 <= i < cmds.len() ==> (#[trigger] cmds[i]).end <= st.cursor
            &&& forall|k: int|
                0 <= k < st.keeps.len() ==> 0 <= (#[trigger] st.keeps[k]).start < st.keeps[k].end
            &&& show_reasoning ==> st.notes.len() == cmds.len()
            &&& show_reasoning ==> forall|i: int|
                0 <= i < cmds.len() ==> #[trigger] st.notes[i] == removal_note(
                    st.cuts[i].index as nat,
                    cmds[i].reason@,
                )
            &&& !show_reasoning ==> st.notes.len() == 0
        }),
    decreases cmds.len(),
{
    if cmds.len() > 0 {
        let prev = cmds.drop_last();
        lemma_run_shape(prev, show_reasoning);
        let st0 = split_run(prev, show_reasoning);
        let st = split_run(cmds, show_reasoning);
        assert(st == split_step(st0, cmds.last(), show_reasoning));
        assert forall|i: int| 0 <= i < cmds.len() implies (#[trigger] cmds[i]).end <= st.cursor by {
            if i < cmds.len() - 1 {
                assert(prev[i] == cmds[i]);
            }
        }
        assert forall|i: int| 0 <= i < cmds.len() implies (#[trigger] st.cuts[i]).start
            == cmds[i].start && st.cuts[i].end == cmds[i].end by {
            if i < cmds.len() - 1 {
                assert(prev[i] == cmds[i]);
            }
        }
        if show_reasoning {
            assert forall|i: int| 0 <= i < cmds.len() implies #[trigger] st.notes[i] == removal_note(
                st.cuts[i].index as nat,
                cmds[i].reason@,
            ) by {
                if i < cmds.len() - 1 {
                    assert(prev[i] == cmds[i]);
                }
            }
        }
    }
}

/// Every instant from 0 up to the cursor is cut or kept, in whatever order
/// the cuts are walked.
proof fn lemma_run_covers(cmds: Seq<EditCommand>, show_reasoning: bool)
    ensures
        forall|t: int|
            0 <= t < split_run(cmds, show_reasoning).cursor ==> cut_at(cmds, t) || kept_at(
                split_run(cmds, show_reasoning).keeps,
                t,
            ),
    decreases cmds.len(),
{
    if cmds.len() > 0 {
        let prev = cmds.drop_last();
        lemma_run_covers(prev, show_reasoning);
        let st0 = split_run(prev, show_reasoning);
        let st = split_run(cmds, show_reasoning);
        let c = cmds.last();
        assert(st == split_step(st0, c, show_reasoning));
        assert forall|t: int| 0 <= t < st.cursor implies cut_at(cmds, t) || kept_at(st.keeps, t) by {
            if t < st0.cursor {
                if cut_at(prev, t) {
                    let i = choose|i: int| 0 <= i < prev.len() && in_range(#[trigger] prev[i].start, prev[i].end, t);
                    assert(cmds[i] == prev[i]);
                } else {
                    let k = choose|k: int| 0 <= k < st0.keeps.len() && in_range(#[trigger] st0.keeps[k].start, st0.keeps[k].end, t);
                    assert(st.keeps[k] == st0.keeps[k]);
                }
            } else if t >= c.start {
                assert(in_range(cmds[cmds.len() - 1].start, cmds[cmds.len() - 1].end, t));
            } else {
                let k = st0.keeps.len() as int;
                assert(in_range(st.keeps[k].start, st.keeps[k].end, t));
            }
        }
    }
}

/// Kept and removed ranges share the numbers from 0 up to the next one to
/// hand out, each number once, in increasing order within each list.
pub open spec fn numbered_once(st: SplitState) -> bool {
    &&& st.next == st.keeps.len() + st.cuts.len()
    &&& forall|k: int| 0 <= k < st.keeps.len() ==> (#[trigger] st.keeps[k]).index < st.next
    &&& forall|i: int| 0 <= i < st.cuts.len() ==> (#[trigger] st.cuts[i]).index < st.next
    &&& forall|a: int, b: int|
        #![trigger st.keeps[a], st.keeps[b]]
        0 <= a < b < st.keeps.len() ==> st.keeps[a].index < st.keeps[b].index
    &&& forall|a: int, b: int|
        #![trigger st.cuts[a], st.cuts[b]]
        0 <= a < b < st.cuts.len() ==> st.cuts[a].index < st.cuts[b].index
    &&& forall|a: int, b: int|
        #![trigger st.keeps[a], st.cuts[b]]
        0 <= a < st.keeps.len() && 0 <= b < st.cuts.len() ==> st.keeps[a].index != st.cuts[b].index
    &&& forall|j: int| 0 <= j < st.next ==> #[trigger] has_number(st, j)
}

/// Whether some kept or removed range carries the number `j`.
pub open spec fn has_number(st: SplitState, j: int) -> bool {
    ||| exists|k: int| 0 <= k < st.keeps.len() && #[trigger] st.keeps[k].index == j
    ||| exists|i: int| 0 <= i < st.cuts.len() && #[trigger] st.cuts[i].index == j
}

proof fn lemma_run_numbering(cmds: Seq<EditCommand>, show_reasoning: bool)
    requires
        cmds.len() < usize::MAX / 2,
    ensures
        numbered_once(split_run(cmds, show_reasoning)),
    decreases cmds.len(),
{
    if cmds.len() > 0 {
        let prev = cmds.drop_last();
        lemma_run_numbering(prev, show_reasoning);
        lemma_run_shape(prev, show_reasoning);
        let st0 = split_run(prev, show_reasoning);
        let st = split_run(cmds, show_reasoning);
        assert(st == split_step(st0, cmds.last(), show_reasoning));
        assert forall|j: int| 0 <= j < st.next implies #[trigger] has_number(st, j) by {
            if j < st0.next {
                assert(has_number(st0, j));
                if exists|k: int| 0 <= k < st0.keeps.len() && #[trigger] st0.keeps[k].index == j {
                    let k = choose|k: int| 0 <= k < st0.keeps.len() && #[trigger] st0.keeps[k].index == j;
                    assert(st.keeps[k] == st0.keeps[k]);
                } else {
                    let i = choose|i: int| 0 <= i < st0.cuts.len() && #[trigger] st0.cuts[i].index == j;
                    assert(st.cuts[i] == st0.cuts[i]);
                }
            } else if j == st.next - 1 {
                assert(st.cuts[st0.cuts.len() as int].index == j);
            } else {
                assert(st.keeps[st0.keeps.len() as int].index == j);
            }
        }
    }
}

/// A walk through cuts ordered by start time never keeps an instant that
/// some cut removes, and every kept range ends by the last cut's start.
proof fn lemma_run_avoids_cuts(cmds: Seq<EditCommand>, show_reasoning: bool)
    requires
        cmds.len() < usize::MAX / 2,
        forall|i: int, j: int|
            #![trigger cmds[i], cmds[j]]
            0 <= i < j < cmds.len() ==> cmds[i].start <= cmds[j].start,
    ensures
        forall|k: int, i: int, t: int|
            #![trigger split_run(cmds, show_reasoning).keeps[k], cmds[i], in_range(cmds[i].start, cmds[i].end, t)]
            0 <= k < split_run(cmds, show_reasoning).keeps.len() && 0 <= i < cmds.len() ==> !(
            in_range(
                split_run(cmds, show_reasoning).keeps[k].start,
                split_run(cmds, show_reasoning).keeps[k].end,
                t,
            ) && in_range(cmds[i].start, cmds[i].end, t)),
        cmds.len() > 0 ==> forall|k: int|
            0 <= k < split_run(cmds, show_reasoning).keeps.len() ==> (#[trigger] split_run(
                cmds,
                show_reasoning,
            ).keeps[k]).end <= cmds.last().start,
    decreases cmds.len(),
{
    if cmds.len() > 0 {
        let prev = cmds.drop_last();
        let c = cmds.last();
        let last = cmds.len() - 1;
        assert forall|i: int, j: int|
            #![trigger prev[i], prev[j]]
            0 <= i < j < prev.len() implies prev[i].start <= prev[j].start by {
            assert(prev[i] == cmds[i] && prev[j] == cmds[j]);
        }
        lemma_run_avoids_cuts(prev, show_reasoning);
        lemma_run_shape(prev, show_reasoning);
        let st0 = split_run(prev, show_reasoning);
        let st = split_run(cmds, show_reasoning);
        assert(st == split_step(st0, c, show_reasoning));
        if prev.len() > 0 {
            assert(prev.last() == cmds[last - 1]);
            assert(cmds[last - 1].start <= cmds[last].start);
        }
        assert forall|k: int| 0 <= k < st.keeps.len() implies (#[trigger] st.keeps[k]).end <= c.start by {
            if k < st0.keeps.len() {
                assert(st.keeps[k] == st0.keeps[k]);
            }
        }
        assert forall|k: int, i: int, t: int|
            #![trigger st.keeps[k], cmds[i], in_range(cmds[i].start, cmds[i].end, t)]
            0 <= k < st.keeps.len() && 0 <= i < cmds.len() implies !(in_range(
                st.keeps[k].start,
                st.keeps[k].end,
                t,
            ) && in_range(cmds[i].start, cmds[i].end, t)) by {
            if k < st0.keeps.len() {
                assert(st.keeps[k] == st0.keeps[k]);
                if i < last {
                    assert(prev[i] == cmds[i]);
                    assert(!(in_range(st0.keeps[k].start, st0.keeps[k].end, t) && in_range(
                        prev[i].start,
                        prev[i].end,
                        t,
                    )));
                }
            } else if i < last {
                assert(prev[i] == cmds[i]);
                assert(prev[i].end <= st0.cursor);
            }
        }
    }
}

/// When no cut ends before it starts, the kept ranges come one after the
/// other, each ending by the cursor.
proof fn lemma_run_keeps_ordered(cmds: Seq<EditCommand>, show_reasoning: bool)
    requires
        cmds.len() < usize::MAX / 2,
        forall|i: int| 0 <= i < cmds.len() ==> (#[trigger] cmds[i]).start <= cmds[i].end,
    ensures
        forall|a: int, b: int|
            #![trigger split_run(cmds, show_reasoning).keeps[a], split_run(cmds, show_reasoning).keeps[b]]
            0 <= a < b < split_run(cmds, show_reasoning).keeps.len() ==> split_run(
                cmds,
                show_reasoning,
            ).keeps[a].end <= split_run(cmds, show_reasoning).keeps[b].start,
        forall|k: int|
            0 <= k < split_run(cmds, show_reasoning).keeps.len() ==> (#[trigger] split_run(
                cmds,
                show_reasoning,
            ).keeps[k]).end <= split_run(cmds, show_reasoning).cursor,
    decreases cmds.len(),
{
    if cmds.len() > 0 {
        let prev = cmds.drop_last();
        let c = cmds.last();
        assert forall|i: int| 0 <= i < prev.len() implies (#[trigger] prev[i]).start <= prev[i].end by {
            assert(prev[i] == cmds[i]);
        }
        assert(c == cmds[cmds.len() - 1]);
        lemma_run_keeps_ordered(prev, show_reasoning);
        let st0 = split_run(prev, show_reasoning);
        let st = split_run(cmds, show_reasoning);
        assert(st == split_step(st0, c, show_reasoning));
        assert forall|k: int| 0 <= k < st.keeps.len() implies (#[trigger] st.keeps[k]).end <= st.cursor by {
            if k < st0.keeps.len() {
                assert(st.keeps[k] == st0.keeps[k]);
            }
        }
        assert forall|a: int, b: int|
            #![trigger st.keeps[a], st.keeps[b]]
            0 <= a < b < st.keeps.len() implies st.keeps[a].end <= st.keeps[b].start by {
            assert(st.keeps[a] == st0.keeps[a]);
            if b < st0.keeps.len() {
                assert(st.keeps[b] == st0.keeps[b]);
            }
        }
    }
}

proof fn lemma_sorted_commands(cuts: Seq<EditCommand>)
    requires
        cuts.len() <= usize::MAX,
    ensures
        is_stable_order(cuts, stable_order(cuts)),
        sorted_commands(cuts).len() == cuts.len(),
        forall|p: int|
            0 <= p < cuts.len() ==> #[trigger] sorted_commands(cuts)[p] == cuts[stable_order(
                cuts,
            )[p] as int],
        forall|p: int, q: int|
            #![trigger sorted_commands(cuts)[p], sorted_commands(cuts)[q]]
            0 <= p < q < cuts.len() ==> sorted_commands(cuts)[p].start <= sorted_commands(
                cuts,
            )[q].start,
{
    lemma_stable_order_exists(cuts);
    let order = stable_order(cuts);
    let sorted = sorted_commands(cuts);
    assert forall|p: int, q: int|
        #![trigger sorted[p], sorted[q]]
        0 <= p < q < cuts.len() implies sorted[p].start <= sorted[q].start by {
        assert(precedes(cuts, order[p] as int, order[q] as int));
    }
}

/// The removed ranges are the model's cuts, each once, in order of start
/// time (cuts that start together in the order given), with their own
/// start and end; with `show_reasoning` each has its note, and without it
/// there are none.
pub proof fn law_removed_ranges_are_the_cuts(cuts: Seq<EditCommand>, total_duration: i64, show_reasoning: bool)
    requires
        cuts.len() < usize::MAX / 2,
    ensures
        ({
            let sp = split_of(cuts, total_duration, show_reasoning);
            let order = stable_order(cuts);
            &&& is_stable_order(cuts, order)
            &&& sp.cuts.len() == cuts.len()
            &&& forall|p: int|
                0 <= p < cuts.len() ==> (#[trigger] sp.cuts[p]).start == cuts[order[p] as int].start
                    && sp.cuts[p].end == cuts[order[p] as int].end
            &&& forall|p: int, q: int|
                #![trigger sp.cuts[p], sp.cuts[q]]
                0 <= p < q < cuts.len() ==> sp.cuts[p].start <= sp.cuts[q].start
            &&& show_reasoning ==> sp.notes.len() == cuts.len()
            &&& show_reasoning ==> forall|p: int|
                0 <= p < cuts.len() ==> #[trigger] sp.notes[p] == removal_note(
                    sp.cuts[p].index as nat,
                    cuts[order[p] as int].reason@,
                )
            &&& !show_reasoning ==> sp.notes.len() == 0
        }),
{
    lemma_sorted_commands(cuts);
    lemma_run_shape(sorted_commands(cuts), show_reasoning);
    let sp = split_of(cuts, total_duration, show_reasoning);
    let sorted = sorted_commands(cuts);
    assert forall|p: int, q: int|
        #![trigger sp.cuts[p], sp.cuts[q]]
        0 <= p < q < cuts.len() implies sp.cuts[p].start <= sp.cuts[q].start by {
        assert(sorted[p].start <= sorted[q].start);
    }
}

/// Every instant of the video, from 0 up to its length, is either removed
/// by one of the cuts or inside one of the kept ranges.
pub proof fn law_every_instant_is_cut_or_kept(cuts: Seq<EditCommand>, total_duration: i64, show_reasoning: bool)
    requires
        cuts.len() < usize::MAX / 2,
    ensures
        forall|t: int|
            0 <= t < total_duration ==> cut_at(cuts, t) || kept_at(
                split_of(cuts, total_duration, show_reasoning).keeps,
                t,
            ),
{
    lemma_sorted_commands(cuts);
    let sorted = sorted_commands(cuts);
    let order = stable_order(cuts);
    lemma_run_covers(sorted, show_reasoning);
    let st = split_run(sorted, show_reasoning);
    let sp = split_of(cuts, total_duration, show_reasoning);
    assert forall|t: int| 0 <= t < total_duration implies cut_at(cuts, t) || kept_at(sp.keeps, t) by {
        if t < st.cursor {
            if cut_at(sorted, t) {
                let p = choose|p: int| 0 <= p < sorted.len() && in_range(#[trigger] sorted[p].start, sorted[p].end, t);
                assert(sorted[p] == cuts[order[p] as int]);
                assert(order[p] < cuts.len());
                assert(in_range(cuts[order[p] as int].start, cuts[order[p] as int].end, t));
            } else {
                let k = choose|k: int| 0 <= k < st.keeps.len() && in_range(#[trigger] st.keeps[k].start, st.keeps[k].end, t);
                assert(sp.keeps[k] == st.keeps[k]);
            }
        } else {
            let k = st.keeps.len() as int;
            assert(in_range(sp.keeps[k].start, sp.keeps[k].end, t));
        }
    }
}

/// No instant inside a kept range is inside any of the cuts.
pub proof fn law_kept_ranges_avoid_cuts(cuts: Seq<EditCommand>, total_duration: i64, show_reasoning: bool)
    requires
        cuts.len() < usize::MAX / 2,
    ensures
        forall|k: int, i: int, t: int|
            #![trigger split_of(cuts, total_duration, show_reasoning).keeps[k], cuts[i], in_range(cuts[i].start, cuts[i].end, t)]
            0 <= k < split_of(cuts, total_duration, show_reasoning).keeps.len() && 0 <= i
                < cuts.len() ==> !(in_range(
                split_of(cuts, total_duration, show_reasoning).keeps[k].start,
                split_of(cuts, total_duration, show_reasoning).keeps[k].end,
                t,
            ) && in_range(cuts[i].start, cuts[i].end, t)),
{
    lemma_sorted_commands(cuts);
    let sorted = sorted_commands(cuts);
    let order = stable_order(cuts);
    lemma_run_avoids_cuts(sorted, show_reasoning);
    lemma_run_shape(sorted, show_reasoning);
    let st = split_run(sorted, show_reasoning);
    let sp = split_of(cuts, total_duration, show_reasoning);
    assert forall|k: int, i: int, t: int|
        #![trigger sp.keeps[k], cuts[i], in_range(cuts[i].start, cuts[i].end, t)]
        0 <= k < sp.keeps.len() && 0 <= i < cuts.len() implies !(in_range(
            sp.keeps[k].start,
            sp.keeps[k].end,
            t,
        ) && in_range(cuts[i].start, cuts[i].end, t)) by {
        assert(order.contains(i as usize));
        let p = choose|p: int| 0 <= p < order.len() && order[p] == i as usize;
        assert(sorted[p] == cuts[i]);
        if k < st.keeps.len() {
            assert(sp.keeps[k] == st.keeps[k]);
            assert(!(in_range(st.keeps[k].start, st.keeps[k].end, t) && in_range(
                sorted[p].start,
                sorted[p].end,
                t,
            )));
        } else {
            assert(sorted[p].end <= st.cursor);
        }
    }
}

/// Kept ranges are never empty and never start before 0; when every cut
/// starts no later than the video ends, no kept range reaches past the end.
pub proof fn law_kept_ranges_are_proper(cuts: Seq<EditCommand>, total_duration: i64, show_reasoning: bool)
    requires
        cuts.len() < usize::MAX / 2,
    ensures
        forall|k: int|
            0 <= k < split_of(cuts, total_duration, show_reasoning).keeps.len() ==> 0 <= (
            #[trigger] split_of(cuts, total_duration, show_reasoning).keeps[k]).start
                < split_of(cuts, total_duration, show_reasoning).keeps[k].end,
        (forall|i: int| 0 <= i < cuts.len() ==> (#[trigger] cuts[i]).start <= total_duration)
            ==> forall|k: int|
            0 <= k < split_of(cuts, total_duration, show_reasoning).keeps.len() ==> (
            #[trigger] split_of(cuts, total_duration, show_reasoning).keeps[k]).end <= total_duration,
{
    lemma_sorted_commands(cuts);
    let sorted = sorted_commands(cuts);
    let order = stable_order(cuts);
    lemma_run_avoids_cuts(sorted, show_reasoning);
    lemma_run_shape(sorted, show_reasoning);
    let st = split_run(sorted, show_reasoning);
    let sp = split_of(cuts, total_duration, show_reasoning);
    if forall|i: int| 0 <= i < cuts.len() ==> (#[trigger] cuts[i]).start <= total_duration {
        assert forall|k: int| 0 <= k < sp.keeps.len() implies (#[trigger] sp.keeps[k]).end <= total_duration by {
            if k < st.keeps.len() {
                assert(sp.keeps[k] == st.keeps[k]);
                let last = sorted.len() - 1;
                assert(sorted[last] == cuts[order[last] as int]);
                assert(order[last] < cuts.len());
            }
        }
    }
}

/// When no cut ends before it starts, the kept ranges follow one another
/// along the timeline without overlapping.
pub proof fn law_kept_ranges_in_order(cuts: Seq<EditCommand>, total_duration: i64, show_reasoning: bool)
    requires
        cuts.len() < usize::MAX / 2,
        forall|i: int| 0 <= i < cuts.len() ==> (#[trigger] cuts[i]).start <= cuts[i].end,
    ensures
        forall|a: int, b: int|
            #![trigger split_of(cuts, total_duration, show_reasoning).keeps[a], split_of(cuts, total_duration, show_reasoning).keeps[b]]
            0 <= a < b < split_of(cuts, total_duration, show_reasoning).keeps.len() ==> split_of(
                cuts,
                total_duration,
                show_reasoning,
            ).keeps[a].end <= split_of(cuts, total_duration, show_reasoning).keeps[b].start,
{
    lemma_sorted_commands(cuts);
    let sorted = sorted_commands(cuts);
    let order = stable_order(cuts);
    assert forall|p: int| 0 <= p < sorted.len() implies (#[trigger] sorted[p]).start <= sorted[p].end by {
        assert(sorted[p] == cuts[order[p] as int]);
        assert(order[p] < cuts.len());
    }
    lemma_run_keeps_ordered(sorted, show_reasoning);
    let st = split_run(sorted, show_reasoning);
    let sp = split_of(cuts, total_duration, show_reasoning);
    assert forall|a: int, b: int|
        #![trigger sp.keeps[a], sp.keeps[b]]
        0 <= a < b < sp.keeps.len() implies sp.keeps[a].end <= sp.keeps[b].start by {
        assert(sp.keeps[a] == st.keeps[a]);
        if b < st.keeps.len() {
            assert(sp.keeps[b] == st.keeps[b]);
        }
    }
}

/// Kept and removed ranges together carry the numbers 0, 1, 2, ... up to
/// their count, each number once, increasing along each list.
pub proof fn law_numbering(cuts: Seq<EditCommand>, total_duration: i64, show_reasoning: bool)
    requires
        cuts.len() < usize::MAX / 2,
    ensures
        numbered_once(split_of(cuts, total_duration, show_reasoning)),
{
    lemma_sorted_commands(cuts);
    let sorted = sorted_commands(cuts);
    lemma_run_numbering(sorted, show_reasoning);
    lemma_run_shape(sorted, show_reasoning);
    let st = split_run(sorted, show_reasoning);
    let sp = split_of(cuts, total_duration, show_reasoning);
    if st.cursor < total_duration {
        assert forall|j: int| 0 <= j < sp.next implies #[trigger] has_number(sp, j) by {
            if j < st.next {
                assert(has_number(st, j));
                if exists|k: int| 0 <= k < st.keeps.len() && #[trigger] st.keeps[k].index == j {
                    let k = choose|k: int| 0 <= k < st.keeps.len() && #[trigger] st.keeps[k].index == j;
                    assert(sp.keeps[k] == st.keeps[k]);
                    assert(sp.keeps[k].index == j);
                } else {
                    let i = choose|i: int| 0 <= i < st.cuts.len() && #[trigger] st.cuts[i].index == j;
                    assert(sp.cuts[i] == st.cuts[i]);
                    assert(sp.cuts[i].index == j);
                }
            } else {
                assert(sp.keeps[st.keeps.len() as int].index == j);
            }
        }
    }
}

/// Whether no two cuts start at the same time.
pub open spec fn distinct_starts(cuts: Seq<EditCommand>) -> bool {
    forall|i: int, j: int|
        #![trigger cuts[i], cuts[j]]
        0 <= i < cuts.len() && 0 <= j < cuts.len() && i != j ==> cuts[i].start != cuts[j].start
}

/// Whether the starts of `s` strictly increase.
pub open spec fn strictly_by_start(s: Seq<EditCommand>) -> bool {
    forall|p: int, q: int| #![trigger s[p], s[q]] 0 <= p < q < s.len() ==> s[p].start < s[q].start
}

/// Two sequences of cuts whose starts strictly increase and that hold the
/// same cuts are equal.
proof fn lemma_strictly_sorted_same_elements_equal(s: Seq<EditCommand>, t: Seq<EditCommand>)
    requires
        strictly_by_start(s),
        strictly_by_start(t),
        forall|x: EditCommand| s.contains(x) <==> t.contains(x),
    ensures
        s == t,
    decreases s.len(),
{
    if s.len() == 0 {
        if t.len() > 0 {
            assert(t.contains(t[0]));
        }
        assert(s =~= t);
    } else {
        assert(s.contains(s[0]));
        assert(t.len() > 0);
        assert(t.contains(t[0]));
        let a = s[0];
        let b = t[0];
        if a != b {
            let p = choose|p: int| 0 <= p < s.len() && s[p] == b;
            let q = choose|q: int| 0 <= q < t.len() && t[q] == a;
            assert(s[0].start < s[p].start);
            assert(t[0].start < t[q].start);
        }
        let s1 = s.drop_first();
        let t1 = t.drop_first();
        assert forall|x: EditCommand| s1.contains(x) <==> t1.contains(x) by {
            if s1.contains(x) {
                let j = choose|j: int| 0 <= j < s1.len() && s1[j] == x;
                assert(s[j + 1] == x);
                assert(s[0].start < s[j + 1].start);
                assert(s.contains(x));
                let k = choose|k: int| 0 <= k < t.len() && t[k] == x;
                assert(k != 0);
                assert(t1[k - 1] == x);
            }
            if t1.contains(x) {
                let j = choose|j: int| 0 <= j < t1.len() && t1[j] == x;
                assert(t[j + 1] == x);
                assert(t[0].start < t[j + 1].start);
                assert(t.contains(x));
                let k = choose|k: int| 0 <= k < s.len() && s[k] == x;
                assert(k != 0);
                assert(s1[k - 1] == x);
            }
        }
        assert forall|p: int, q: int| #![trigger s1[p], s1[q]] 0 <= p < q < s1.len() implies s1[p].start
            < s1[q].start by {
            assert(s1[p] == s[p + 1] && s1[q] == s[q + 1]);
        }
        assert forall|p: int, q: int| #![trigger t1[p], t1[q]] 0 <= p < q < t1.len() implies t1[p].start
            < t1[q].start by {
            assert(t1[p] == t[p + 1] && t1[q] == t[q + 1]);
        }
        lemma_strictly_sorted_same_elements_equal(s1, t1);
        assert(s =~= seq![a] + s1);
        assert(t =~= seq![b] + t1);
    }
}

/// With distinct starts, the ordered cuts hold exactly the given cuts, by
/// strictly increasing start.
proof fn lemma_sorted_commands_distinct(cuts: Seq<EditCommand>)
    requires
        cuts.len() <= usize::MAX,
        distinct_starts(cuts),
    ensures
        strictly_by_start(sorted_commands(cuts)),
        forall|x: EditCommand| sorted_commands(cuts).contains(x) <==> cuts.contains(x),
{
    lemma_sorted_commands(cuts);
    let order = stable_order(cuts);
    let sorted = sorted_commands(cuts);
    assert forall|p: int, q: int| #![trigger sorted[p], sorted[q]] 0 <= p < q < sorted.len() implies sorted[p].start
        < sorted[q].start by {
        assert(precedes(cuts, order[p] as int, order[q] as int));
        assert(order[p] < cuts.len() && order[q] < cuts.len());
        assert(cuts[order[p] as int] == sorted[p] && cuts[order[q] as int] == sorted[q]);
    }
    assert forall|x: EditCommand| sorted.contains(x) <==> cuts.contains(x) by {
        if sorted.contains(x) {
            let q = choose|q: int| 0 <= q < sorted.len() && sorted[q] == x;
            assert(order[q] < cuts.len());
            assert(cuts[order[q] as int] == x);
        }
        if cuts.contains(x) {
            let k = choose|k: int| 0 <= k < cuts.len() && cuts[k] == x;
            assert(order.contains(k as usize));
            let q = choose|q: int| 0 <= q < order.len() && order[q] == k as usize;
            assert(sorted[q] == x);
        }
    }
}

/// The walk's ranges, cursor and numbering do not depend on whether notes
/// are written.
proof fn lemma_run_flag_free(cmds: Seq<EditCommand>, show1: bool, show2: bool)
    ensures
        split_run(cmds, show1).keeps == split_run(cmds, show2).keeps,
        split_run(cmds, show1).cuts == split_run(cmds, show2).cuts,
        split_run(cmds, show1).cursor == split_run(cmds, show2).cursor,
        split_run(cmds, show1).next == split_run(cmds, show2).next,
    decreases cmds.len(),
{
    if cmds.len() > 0 {
        lemma_run_flag_free(cmds.drop_last(), show1, show2);
    }
}

/// When no two cuts start together, the kept and removed ranges depend
/// neither on the order in which the cuts are given nor on whether the
/// reasons are shown.
pub proof fn law_split_ignores_order_and_flag(
    cuts: Seq<EditCommand>,
    permuted: Seq<EditCommand>,
    total_duration: i64,
    show1: bool,
    show2: bool,
)
    requires
        cuts.len() < usize::MAX / 2,
        distinct_starts(cuts),
        permuted.to_multiset() == cuts.to_multiset(),
    ensures
        split_of(permuted, total_duration, show1).keeps == split_of(cuts, total_duration, show2).keeps,
        split_of(permuted, total_duration, show1).cuts == split_of(cuts, total_duration, show2).cuts,
{
    cuts.to_multiset_ensures();
    permuted.to_multiset_ensures();
    assert(permuted.len() == cuts.len());
    assert forall|x: EditCommand| permuted.contains(x) <==> cuts.contains(x) by {
        assert(permuted.to_multiset().count(x) == cuts.to_multiset().count(x));
        assert(permuted.contains(x) <==> permuted.to_multiset().count(x) > 0);
        assert(cuts.contains(x) <==> cuts.to_multiset().count(x) > 0);
    }
    assert(cuts.no_duplicates());
    cuts.lemma_multiset_has_no_duplicates();
    permuted.lemma_multiset_has_no_duplicates_conv();
    assert forall|i: int, j: int|
        #![trigger permuted[i], permuted[j]]
        0 <= i < permuted.len() && 0 <= j < permuted.len() && i != j implies permuted[i].start
        != permuted[j].start by {
        assert(permuted.contains(permuted[i]) && permuted.contains(permuted[j]));
        let a = choose|a: int| 0 <= a < cuts.len() && cuts[a] == permuted[i];
        let b = choose|b: int| 0 <= b < cuts.len() && cuts[b] == permuted[j];
        assert(permuted[i] != permuted[j]);
    }
    lemma_sorted_commands_distinct(cuts);
    lemma_sorted_commands_distinct(permuted);
    let s = sorted_commands(cuts);
    let t = sorted_commands(permuted);
    assert forall|x: EditCommand| s.contains(x) <==> t.contains(x) by {
        assert(s.contains(x) <==> cuts.contains(x));
        assert(t.contains(x) <==> permuted.contains(x));
        assert(permuted.contains(x) <==> cuts.contains(x));
    }
    lemma_strictly_sorted_same_elements_equal(s, t);
    lemma_run_flag_free(s, show1, show2);
}

/// Kept and removed ranges are numbered along the timeline: a removed range
/// that starts before a kept range has a lower number, and, when `ordered`
/// holds, a kept range that ends by the start of a removed range has a lower
/// number.
pub open spec fn numbered_along_timeline(keeps: Seq<TimelineSegment>, cuts: Seq<TimelineSegment>, ordered: bool) -> bool {
    forall|a: int, b: int|
        #![trigger keeps[a], cuts[b]]
        0 <= a < keeps.len() && 0 <= b < cuts.len() ==> (cuts[b].start < keeps[a].start ==> cuts[b].index
            < keeps[a].index) && (ordered && keeps[a].end <= cuts[b].start ==> keeps[a].index
            < cuts[b].index)
}

/// Whether every cut ends no earlier than it starts.
pub open spec fn well_formed_cuts(cmds: Seq<EditCommand>) -> bool {
    forall|i: int| 0 <= i < cmds.len() ==> (#[trigger] cmds[i]).start <= cmds[i].end
}

proof fn lemma_run_timeline_numbering(cmds: Seq<EditCommand>, show_reasoning: bool)
    requires
        cmds.len() < usize::MAX / 2,
        forall|i: int, j: int|
            #![trigger cmds[i], cmds[j]]
            0 <= i < j < cmds.len() ==> cmds[i].start <= cmds[j].start,
    ensures
        numbered_along_timeline(
            split_run(cmds, show_reasoning).keeps,
            split_run(cmds, show_reasoning).cuts,
            well_formed_cuts(cmds),
        ),
    decreases cmds.len(),
{
    if cmds.len() > 0 {
        let prev = cmds.drop_last();
        let c = cmds.last();
        let last = cmds.len() - 1;
        assert forall|i: int, j: int|
            #![trigger prev[i], prev[j]]
            0 <= i < j < prev.len() implies prev[i].start <= prev[j].start by {
            assert(prev[i] == cmds[i] && prev[j] == cmds[j]);
        }
        lemma_run_timeline_numbering(prev, show_reasoning);
        lemma_run_shape(prev, show_reasoning);
        lemma_run_numbering(prev, show_reasoning);
        lemma_run_avoids_cuts(prev, show_reasoning);
        let st0 = split_run(prev, show_reasoning);
        let st = split_run(cmds, show_reasoning);
        assert(st == split_step(st0, c, show_reasoning));
        let wf = well_formed_cuts(cmds);
        if wf {
            assert forall|i: int| 0 <= i < prev.len() implies (#[trigger] prev[i]).start <= prev[i].end by {
                assert(prev[i] == cmds[i]);
            }
        }
        if prev.len() > 0 {
            assert(prev.last() == cmds[last - 1]);
            assert(cmds[last - 1].start <= cmds[last].start);
        }
        assert forall|a: int, b: int|
            #![trigger st.keeps[a], st.cuts[b]]
            0 <= a < st.keeps.len() && 0 <= b < st.cuts.len() implies (st.cuts[b].start
            < st.keeps[a].start ==> st.cuts[b].index < st.keeps[a].index) && (wf && st.keeps[a].end
            <= st.cuts[b].start ==> st.keeps[a].index < st.cuts[b].index) by {
            if a < st0.keeps.len() {
                assert(st.keeps[a] == st0.keeps[a]);
                if b < st0.cuts.len() {
                    assert(st.cuts[b] == st0.cuts[b]);
                } else {
                    assert(st0.keeps[a].end <= prev.last().start);
                }
            } else if b < st0.cuts.len() {
                assert(st.cuts[b] == st0.cuts[b]);
                assert(prev[b] == cmds[b]);
                assert(cmds[b].start <= cmds[last].start);
                assert(prev[b].end <= st0.cursor);
            }
        }
    }
}

/// Kept and removed ranges are numbered in timeline order: a removed range
/// that starts before a kept range carries a lower number, and, when no cut
/// ends before it starts, a kept range that ends by the start of a removed
/// range carries a lower number.
pub proof fn law_numbers_follow_the_timeline(cuts: Seq<EditCommand>, total_duration: i64, show_reasoning: bool)
    requires
        cuts.len() < usize::MAX / 2,
    ensures
        numbered_along_timeline(
            split_of(cuts, total_duration, show_reasoning).keeps,
            split_of(cuts, total_duration, show_reasoning).cuts,
            well_formed_cuts(cuts),
        ),
{
    lemma_sorted_commands(cuts);
    let sorted = sorted_commands(cuts);
    let order = stable_order(cuts);
    lemma_run_timeline_numbering(sorted, show_reasoning);
    lemma_run_shape(sorted, show_reasoning);
    lemma_run_numbering(sorted, show_reasoning);
    let st = split_run(sorted, show_reasoning);
    let sp = split_of(cuts, total_duration, show_reasoning);
    let wf = well_formed_cuts(cuts);
    if wf {
        assert forall|p: int| 0 <= p < sorted.len() implies (#[trigger] sorted[p]).start <= sorted[p].end by {
            assert(sorted[p] == cuts[order[p] as int]);
            assert(order[p] < cuts.len());
        }
    }
    assert forall|a: int, b: int|
        #![trigger sp.keeps[a], sp.cuts[b]]
        0 <= a < sp.keeps.len() && 0 <= b < sp.cuts.len() implies (sp.cuts[b].start < sp.keeps[a].start
        ==> sp.cuts[b].index < sp.keeps[a].index) && (wf && sp.keeps[a].end <= sp.cuts[b].start
        ==> sp.keeps[a].index < sp.cuts[b].index) by {
        assert(sp.cuts[b] == st.cuts[b]);
        if a < st.keeps.len() {
            assert(sp.keeps[a] == st.keeps[a]);
            if wf {
                assert(well_formed_cuts(sorted));
            }
        } else {
            assert(sorted[b].end <= st.cursor);
        }
    }
}

} // verus!
