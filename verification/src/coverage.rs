//! What the runs left of a masked diff cover: the positions of the diff
//! that no mask holds, once each, from left to right.

use vstd::prelude::*;
use crate::diff::{diff_line, part_lines};
use crate::mask::{ascending, interval_lt, overlapping, touches, MaskIndex};
use crate::split::{mask_intervals, masked_lines, masked_parts, split_after, unmasked_parts};

verus! {

/// Whether position `x` lies in one of the runs `parts`, each a start and a
/// length.
pub open spec fn in_parts(parts: Seq<(usize, usize)>, x: int) -> bool {
    exists|k: int| 0 <= k < parts.len() && (#[trigger] parts[k]).0 <= x < parts[k].0 + parts[k].1
}

/// Whether position `x` lies in one of the half-open intervals `masks`.
pub open spec fn in_masks(masks: Seq<(usize, usize)>, x: int) -> bool {
    exists|k: int| 0 <= k < masks.len() && (#[trigger] masks[k]).0 <= x < masks[k].1
}

/// Whether no interval of `masks` ends before it starts.
pub open spec fn proper(masks: Seq<(usize, usize)>) -> bool {
    forall|k: int| 0 <= k < masks.len() ==> (#[trigger] masks[k]).0 <= masks[k].1
}

/// Whether the intervals of `masks` stand in the order of their starts.
pub open spec fn starts_ascend(masks: Seq<(usize, usize)>) -> bool {
    forall|i: int, j: int|
        0 <= i < j < masks.len() ==> (#[trigger] masks[i]).0 <= (#[trigger] masks[j]).0
}

/// Whether every interval of `masks` starts before position `end`.
pub open spec fn start_before(masks: Seq<(usize, usize)>, end: int) -> bool {
    forall|k: int| 0 <= k < masks.len() ==> (#[trigger] masks[k]).0 < end
}

/// Whether every run of `parts` holds a position.
pub open spec fn runs_nonempty(parts: Seq<(usize, usize)>) -> bool {
    forall|k: int| 0 <= k < parts.len() ==> (#[trigger] parts[k]).1 >= 1
}

/// Whether every run of `parts` ends where a later one starts, or before:
/// the runs stand in order and no two share a position.
pub open spec fn runs_ordered(parts: Seq<(usize, usize)>) -> bool {
    forall|i: int, j: int|
        0 <= i < j < parts.len() ==> (#[trigger] parts[i]).0 + parts[i].1 <= (
        #[trigger] parts[j]).0
}

/// Whether every run of `parts` lies within `[from, end)`.
pub open spec fn runs_within(parts: Seq<(usize, usize)>, from: int, end: int) -> bool {
    forall|k: int|
        0 <= k < parts.len() ==> from <= (#[trigger] parts[k]).0 && parts[k].0 + parts[k].1 <= end
}

/// Whether every interval of `masks` holds a position.
pub open spec fn holding(masks: Seq<(usize, usize)>) -> bool {
    forall|k: int| 0 <= k < masks.len() ==> (#[trigger] masks[k]).0 < masks[k].1
}

/// Whether between every run of `parts` and each later one a position lies
/// that neither holds: no two runs touch.
pub open spec fn runs_apart(parts: Seq<(usize, usize)>) -> bool {
    forall|i: int, j: int|
        0 <= i < j < parts.len() ==> (#[trigger] parts[i]).0 + parts[i].1 < (
        #[trigger] parts[j]).0
}

/// Whether no run of `parts` can be made longer within `[from, end)`: the
/// position before it, and the one after it, lies in one of `masks` or
/// outside `[from, end)`.
pub open spec fn runs_maximal(
    parts: Seq<(usize, usize)>,
    from: int,
    end: int,
    masks: Seq<(usize, usize)>,
) -> bool {
    forall|k: int|
        0 <= k < parts.len() ==> ((#[trigger] parts[k]).0 == from || in_masks(
            masks,
            parts[k].0 - 1,
        )) && (parts[k].0 + parts[k].1 == end || in_masks(masks, parts[k].0 + parts[k].1))
}

proof fn lemma_in_parts_concat(a: Seq<(usize, usize)>, b: Seq<(usize, usize)>, x: int)
    ensures
        in_parts(a + b, x) <==> in_parts(a, x) || in_parts(b, x),
{
    let ab = a + b;
    if in_parts(a, x) {
        let k = choose|k: int| 0 <= k < a.len() && (#[trigger] a[k]).0 <= x < a[k].0 + a[k].1;
        assert(ab[k] == a[k]);
    }
    if in_parts(b, x) {
        let k = choose|k: int| 0 <= k < b.len() && (#[trigger] b[k]).0 <= x < b[k].0 + b[k].1;
        assert(ab[a.len() + k] == b[k]);
    }
    if in_parts(ab, x) {
        let k = choose|k: int| 0 <= k < ab.len() && (#[trigger] ab[k]).0 <= x < ab[k].0 + ab[k].1;
        if k < a.len() {
            assert(a[k] == ab[k]);
        } else {
            assert(b[k - a.len()] == ab[k]);
        }
    }
}

proof fn lemma_in_masks_first(masks: Seq<(usize, usize)>, x: int)
    requires
        masks.len() > 0,
    ensures
        in_masks(masks, x) <==> (masks[0].0 <= x < masks[0].1) || in_masks(
            masks.subrange(1, masks.len() as int),
            x,
        ),
{
    let rest = masks.subrange(1, masks.len() as int);
    if in_masks(rest, x) {
        let k = choose|k: int| 0 <= k < rest.len() && (#[trigger] rest[k]).0 <= x < rest[k].1;
        assert(masks[k + 1] == rest[k]);
    }
    if in_masks(masks, x) {
        let k = choose|k: int| 0 <= k < masks.len() && (#[trigger] masks[k]).0 <= x < masks[k].1;
        if k > 0 {
            assert(rest[k - 1] == masks[k]);
        }
    }
}

proof fn lemma_split_after(cursor: usize, remaining: usize, end: usize, masks: Seq<(usize, usize)>)
    requires
        remaining > 0 ==> cursor + remaining == end,
        remaining == 0 ==> cursor >= end,
        starts_ascend(masks),
        start_before(masks, end as int),
    ensures
        forall|x: int|
            in_parts(split_after(cursor, remaining, masks), x) <==> (cursor <= x < end && !in_masks(
                masks,
                x,
            )),
        runs_nonempty(split_after(cursor, remaining, masks)),
        runs_within(split_after(cursor, remaining, masks), cursor as int, end as int),
        proper(masks) ==> runs_ordered(split_after(cursor, remaining, masks)),
    decreases masks.len(),
{
    let parts = split_after(cursor, remaining, masks);
    if masks.len() == 0 {
        assert forall|x: int| in_parts(parts, x) <==> (cursor <= x < end && !in_masks(masks, x)) by {
            if cursor <= x < end {
                assert(parts[0] == (cursor, remaining));
            }
        }
    } else {
        let mask = masks[0];
        let rest = masks.subrange(1, masks.len() as int);
        let gap: Seq<(usize, usize)> = if cursor < mask.0 {
            seq![(cursor, (mask.0 - cursor) as usize)]
        } else {
            Seq::empty()
        };
        let next: usize = if cursor < mask.1 {
            mask.1
        } else {
            cursor
        };
        let used: usize = if cursor < mask.1 {
            if mask.1 - cursor < remaining {
                (mask.1 - cursor) as usize
            } else {
                remaining
            }
        } else {
            0
        };
        let left = (remaining - used) as usize;
        let tail = split_after(next, left, rest);
        assert(parts == gap + tail);
        assert forall|k: int| 0 <= k < rest.len() implies (#[trigger] rest[k]).0 < end
            && mask.0 <= rest[k].0 by {
            assert(rest[k] == masks[k + 1]);
        }
        assert(starts_ascend(rest)) by {
            assert forall|i: int, j: int| 0 <= i < j < rest.len() implies (#[trigger] rest[i]).0 <= (
            #[trigger] rest[j]).0 by {
                assert(rest[i] == masks[i + 1]);
                assert(rest[j] == masks[j + 1]);
            }
        }
        if proper(masks) {
            assert forall|k: int| 0 <= k < rest.len() implies (#[trigger] rest[k]).0
                <= rest[k].1 by {
                assert(rest[k] == masks[k + 1]);
            }
        }
        lemma_split_after(next, left, end, rest);
        assert forall|x: int| in_parts(parts, x) <==> (cursor <= x < end && !in_masks(masks, x)) by {
            lemma_in_parts_concat(gap, tail, x);
            lemma_in_masks_first(masks, x);
            if cursor < mask.0 && cursor <= x < mask.0 {
                assert(gap[0] == (cursor, (mask.0 - cursor) as usize));
                assert(in_parts(gap, x));
                if in_masks(rest, x) {
                    let k = choose|k: int|
                        0 <= k < rest.len() && (#[trigger] rest[k]).0 <= x < rest[k].1;
                    assert(mask.0 <= rest[k].0);
                }
            }
        }
        assert(runs_nonempty(parts)) by {
            assert forall|k: int| 0 <= k < parts.len() implies (#[trigger] parts[k]).1 >= 1 by {
                if k >= gap.len() {
                    assert(parts[k] == tail[k - gap.len()]);
                }
            }
        }
        assert(runs_within(parts, cursor as int, end as int)) by {
            assert forall|k: int| 0 <= k < parts.len() implies cursor <= (#[trigger] parts[k]).0
                && parts[k].0 + parts[k].1 <= end by {
                if k >= gap.len() {
                    assert(parts[k] == tail[k - gap.len()]);
                }
            }
        }
        if proper(masks) {
            assert forall|i: int, j: int| 0 <= i < j < parts.len() implies (#[trigger] parts[i]).0
                + parts[i].1 <= (#[trigger] parts[j]).0 by {
                assert(parts[j] == tail[j - gap.len()]);
                if i >= gap.len() {
                    assert(parts[i] == tail[i - gap.len()]);
                }
            }
        }
    }
}

/// What `overlapping` picks: intervals of the list that touch the query,
/// every one of them, in the order of the list.
pub proof fn lemma_overlapping(intervals: Seq<(usize, usize)>, start: usize, end: usize)
    ensures
        forall|k: int|
            0 <= k < overlapping(intervals, start, end).len() ==> touches(
                #[trigger] overlapping(intervals, start, end)[k],
                start,
                end,
            ) && intervals.contains(overlapping(intervals, start, end)[k]),
        forall|k: int|
            0 <= k < intervals.len() && touches(#[trigger] intervals[k], start, end)
                ==> overlapping(intervals, start, end).contains(intervals[k]),
        ascending(intervals) ==> ascending(overlapping(intervals, start, end)),
    decreases intervals.len(),
{
    let found = overlapping(intervals, start, end);
    if intervals.len() > 0 {
        let shorter = intervals.drop_last();
        let before = overlapping(shorter, start, end);
        lemma_overlapping(shorter, start, end);
        assert forall|k: int| 0 <= k < found.len() implies touches(#[trigger] found[k], start, end)
            && intervals.contains(found[k]) by {
            if k < before.len() {
                assert(found[k] == before[k]);
                let at = choose|at: int| 0 <= at < shorter.len() && shorter[at] == before[k];
                assert(intervals[at] == found[k]);
            } else {
                assert(intervals[intervals.len() - 1] == found[k]);
            }
        }
        assert forall|k: int|
            0 <= k < intervals.len() && touches(
                #[trigger] intervals[k],
                start,
                end,
            ) implies found.contains(intervals[k]) by {
            if k < shorter.len() {
                assert(shorter[k] == intervals[k]);
                let at = choose|at: int| 0 <= at < before.len() && before[at] == intervals[k];
                assert(found[at] == intervals[k]);
            } else {
                assert(found[found.len() - 1] == intervals[k]);
            }
        }
        if ascending(intervals) {
            assert(ascending(shorter)) by {
                assert forall|i: int, j: int| 0 <= i < j < shorter.len() implies interval_lt(
                    #[trigger] shorter[i],
                    #[trigger] shorter[j],
                ) by {
                    assert(shorter[i] == intervals[i]);
                    assert(shorter[j] == intervals[j]);
                }
            }
            assert forall|i: int, j: int| 0 <= i < j < found.len() implies interval_lt(
                #[trigger] found[i],
                #[trigger] found[j],
            ) by {
                if j < before.len() {
                    assert(found[i] == before[i]);
                    assert(found[j] == before[j]);
                } else {
                    assert(found[i] == before[i]);
                    let at = choose|at: int| 0 <= at < shorter.len() && shorter[at] == before[i];
                    assert(intervals[at] == found[i]);
                    assert(intervals[intervals.len() - 1] == found[j]);
                }
            }
        }
    }
}

/// Of a diff of at least one position, the runs that are left when masks
/// are taken out cover exactly the positions of the diff that lie in none of
/// the masks. Every run holds a position and lies within the diff. This
/// holds of masks that stand in the order of their starts and start before
/// the diff ends. Where, besides, no mask ends before it starts, the runs
/// stand in order and no two of them share a position.
pub proof fn lemma_parts_cover_unmasked(t_start: usize, length: usize, masks: Seq<(usize, usize)>)
    requires
        length >= 1,
        t_start + length <= usize::MAX,
        starts_ascend(masks),
        start_before(masks, t_start + length),
    ensures
        forall|x: int|
            in_parts(unmasked_parts(t_start, length, masks), x) <==> (t_start <= x < t_start
                + length && !in_masks(masks, x)),
        runs_nonempty(unmasked_parts(t_start, length, masks)),
        runs_within(unmasked_parts(t_start, length, masks), t_start as int, t_start + length),
        proper(masks) ==> runs_ordered(unmasked_parts(t_start, length, masks)),
{
    let parts = unmasked_parts(t_start, length, masks);
    if masks.len() == 0 {
        assert forall|x: int| in_parts(parts, x) <==> (t_start <= x < t_start + length
            && !in_masks(masks, x)) by {
            if t_start <= x < t_start + length {
                assert(parts[0] == (t_start, length));
            }
        }
    } else {
        lemma_split_after(t_start, length, (t_start + length) as usize, masks);
    }
}

/// The same of a diff and the intervals that an index holds, in ascending
/// order: the runs that are left of the diff cover exactly those of its
/// positions that lie in none of the intervals, each run holds a position,
/// and, where no interval ends before it starts, the runs stand in order
/// and no two of them share a position.
pub proof fn lemma_masked_diff_covers_unmasked(
    t_start: usize,
    length: usize,
    intervals: Seq<(usize, usize)>,
)
    requires
        length >= 1,
        t_start + length <= usize::MAX,
        ascending(intervals),
    ensures
        ({
            let end = (t_start + length) as usize;
            let parts = unmasked_parts(t_start, length, overlapping(intervals, t_start, end));
            &&& forall|x: int|
                in_parts(parts, x) <==> (t_start <= x < end && !in_masks(intervals, x))
            &&& runs_nonempty(parts)
            &&& runs_within(parts, t_start as int, end as int)
            &&& proper(intervals) ==> runs_ordered(parts)
        }),
{
    let end = (t_start + length) as usize;
    let found = overlapping(intervals, t_start, end);
    let parts = unmasked_parts(t_start, length, found);
    lemma_overlapping(intervals, t_start, end);
    assert(starts_ascend(found));
    assert(start_before(found, end as int));
    if proper(intervals) {
        assert forall|k: int| 0 <= k < found.len() implies (#[trigger] found[k]).0
            <= found[k].1 by {
            let at = choose|at: int| 0 <= at < intervals.len() && intervals[at] == found[k];
        }
    }
    lemma_parts_cover_unmasked(t_start, length, found);
    assert forall|x: int| t_start <= x < end implies (in_masks(found, x) <==> in_masks(
        intervals,
        x,
    )) by {
        if in_masks(found, x) {
            let k = choose|k: int| 0 <= k < found.len() && (#[trigger] found[k]).0 <= x < found[k].1;
            let at = choose|at: int| 0 <= at < intervals.len() && intervals[at] == found[k];
        }
        if in_masks(intervals, x) {
            let k = choose|k: int|
                0 <= k < intervals.len() && (#[trigger] intervals[k]).0 <= x < intervals[k].1;
            assert(touches(intervals[k], t_start, end));
            let at = choose|at: int| 0 <= at < found.len() && found[at] == intervals[k];
        }
    }
}

/// A diff that no interval touches is left as it is: one run, the diff.
pub proof fn lemma_untouched_diff_is_kept(
    t_start: usize,
    length: usize,
    intervals: Seq<(usize, usize)>,
)
    requires
        t_start + length <= usize::MAX,
        forall|k: int|
            0 <= k < intervals.len() ==> !touches(
                #[trigger] intervals[k],
                t_start,
                (t_start + length) as usize,
            ),
    ensures
        overlapping(intervals, t_start, (t_start + length) as usize).len() == 0,
        unmasked_parts(
            t_start,
            length,
            overlapping(intervals, t_start, (t_start + length) as usize),
        ) == seq![(t_start, length)],
{
    let end = (t_start + length) as usize;
    let found = overlapping(intervals, t_start, end);
    lemma_overlapping(intervals, t_start, end);
    if found.len() > 0 {
        let at = choose|at: int| 0 <= at < intervals.len() && intervals[at] == found[0];
        assert(touches(intervals[at], t_start, end));
    }
}

/// Of a diff that lies within one of the intervals nothing is left. So it
/// is where an interval is the diff's own range.
pub proof fn lemma_covered_diff_leaves_nothing(
    t_start: usize,
    length: usize,
    intervals: Seq<(usize, usize)>,
    k: int,
)
    requires
        length >= 1,
        t_start + length <= usize::MAX,
        ascending(intervals),
        0 <= k < intervals.len(),
        intervals[k].0 <= t_start,
        t_start + length <= intervals[k].1,
    ensures
        unmasked_parts(
            t_start,
            length,
            overlapping(intervals, t_start, (t_start + length) as usize),
        ) == Seq::<(usize, usize)>::empty(),
{
    let end = (t_start + length) as usize;
    let parts = unmasked_parts(t_start, length, overlapping(intervals, t_start, end));
    lemma_masked_diff_covers_unmasked(t_start, length, intervals);
    if parts.len() > 0 {
        let x = parts[0].0 as int;
        assert(in_parts(parts, x));
        assert(intervals[k].0 <= x < intervals[k].1);
        assert(in_masks(intervals, x));
    }
    assert(parts =~= Seq::empty());
}

/// Where the one interval is the diff's range moved up by a position, the
/// first position of the diff is left, and nothing else.
pub proof fn lemma_mask_moved_up_leaves_first(t_start: usize, length: usize)
    requires
        length >= 1,
        t_start + length < usize::MAX,
    ensures
        unmasked_parts(
            t_start,
            length,
            overlapping(
                seq![((t_start + 1) as usize, (t_start + length + 1) as usize)],
                t_start,
                (t_start + length) as usize,
            ),
        ) == seq![(t_start, 1usize)],
{
    let end = (t_start + length) as usize;
    let mask = ((t_start + 1) as usize, (t_start + length + 1) as usize);
    let intervals = seq![mask];
    reveal_with_fuel(overlapping, 2);
    reveal_with_fuel(split_after, 2);
    assert(intervals.drop_last() =~= Seq::<(usize, usize)>::empty());
    let found = overlapping(intervals, t_start, end);
    if length >= 2 {
        assert(found =~= seq![mask]);
        assert(found.subrange(1, 1) =~= Seq::<(usize, usize)>::empty());
        assert(unmasked_parts(t_start, length, found) =~= seq![(t_start, 1usize)]);
    } else {
        assert(found =~= Seq::<(usize, usize)>::empty());
    }
}

/// Where the one interval is the diff's range moved down by a position, the
/// last position of the diff is left, and nothing else.
pub proof fn lemma_mask_moved_down_leaves_last(t_start: usize, length: usize)
    requires
        length >= 1,
        t_start >= 1,
        t_start + length <= usize::MAX,
    ensures
        unmasked_parts(
            t_start,
            length,
            overlapping(
                seq![((t_start - 1) as usize, (t_start + length - 1) as usize)],
                t_start,
                (t_start + length) as usize,
            ),
        ) == seq![((t_start + length - 1) as usize, 1usize)],
{
    let end = (t_start + length) as usize;
    let mask = ((t_start - 1) as usize, (t_start + length - 1) as usize);
    let intervals = seq![mask];
    reveal_with_fuel(overlapping, 2);
    reveal_with_fuel(split_after, 2);
    assert(intervals.drop_last() =~= Seq::<(usize, usize)>::empty());
    let found = overlapping(intervals, t_start, end);
    if length >= 2 {
        assert(found =~= seq![mask]);
        assert(found.subrange(1, 1) =~= Seq::<(usize, usize)>::empty());
        assert(unmasked_parts(t_start, length, found) =~= seq![
            ((t_start + length - 1) as usize, 1usize),
        ]);
    } else {
        assert(found =~= Seq::<(usize, usize)>::empty());
    }
}

/// The lines of a single run are the line of that run.
pub proof fn lemma_one_part_line(t_start: usize, q_base: char, length: usize)
    ensures
        part_lines(seq![(t_start, length)], q_base) == diff_line(t_start, q_base, length),
{
    reveal_with_fuel(part_lines, 2);
    assert(seq![(t_start, length)].drop_last() =~= Seq::<(usize, usize)>::empty());
    assert(part_lines(seq![(t_start, length)], q_base) =~= diff_line(t_start, q_base, length));
}

/// A diff that no masked interval touches is written as it is, on one line.
/// So it is where there is no index at all.
pub proof fn lemma_untouched_diff_is_one_line(
    t_start: usize,
    q_base: char,
    length: usize,
    mask_tree: Option<MaskIndex>,
)
    requires
        t_start + length <= usize::MAX,
        forall|k: int|
            0 <= k < mask_intervals(mask_tree).len() ==> !touches(
                #[trigger] mask_intervals(mask_tree)[k],
                t_start,
                (t_start + length) as usize,
            ),
    ensures
        masked_lines(t_start, q_base, length, mask_tree) == diff_line(t_start, q_base, length),
{
    lemma_untouched_diff_is_kept(t_start, length, mask_intervals(mask_tree));
    lemma_one_part_line(t_start, q_base, length);
}

/// For a diff that lies within one masked interval of the index no line is
/// written. So it is where an interval is the diff's own range.
pub proof fn lemma_covered_diff_is_no_line(
    t_start: usize,
    q_base: char,
    length: usize,
    index: MaskIndex,
    k: int,
)
    requires
        length >= 1,
        t_start + length <= usize::MAX,
        index.wf(),
        0 <= k < index@.len(),
        index@[k].0 <= t_start,
        t_start + length <= index@[k].1,
    ensures
        masked_lines(t_start, q_base, length, Some(index)) == Seq::<char>::empty(),
{
    lemma_covered_diff_leaves_nothing(t_start, length, index@, k);
}

/// Where the index holds one interval, the diff's range moved up by a
/// position, one line is written, for the first position of the diff.
pub proof fn lemma_mask_moved_up_is_one_line(
    t_start: usize,
    q_base: char,
    length: usize,
    index: MaskIndex,
)
    requires
        length >= 1,
        t_start + length < usize::MAX,
        index@ == seq![((t_start + 1) as usize, (t_start + length + 1) as usize)],
    ensures
        masked_lines(t_start, q_base, length, Some(index)) == diff_line(t_start, q_base, 1),
{
    lemma_mask_moved_up_leaves_first(t_start, length);
    lemma_one_part_line(t_start, q_base, 1);
}

/// Where the index holds one interval, the diff's range moved down by a
/// position, one line is written, for the last position of the diff.
pub proof fn lemma_mask_moved_down_is_one_line(
    t_start: usize,
    q_base: char,
    length: usize,
    index: MaskIndex,
)
    requires
        length >= 1,
        t_start >= 1,
        t_start + length <= usize::MAX,
        index@ == seq![((t_start - 1) as usize, (t_start + length - 1) as usize)],
    ensures
        masked_lines(t_start, q_base, length, Some(index)) == diff_line(
            (t_start + length - 1) as usize,
            q_base,
            1,
        ),
{
    lemma_mask_moved_down_leaves_last(t_start, length);
    lemma_one_part_line((t_start + length - 1) as usize, q_base, 1);
}

proof fn lemma_split_after_apart(
    cursor: usize,
    remaining: usize,
    end: usize,
    masks: Seq<(usize, usize)>,
)
    requires
        remaining > 0 ==> cursor + remaining == end,
        remaining == 0 ==> cursor >= end,
        starts_ascend(masks),
        start_before(masks, end as int),
        holding(masks),
    ensures
        runs_apart(split_after(cursor, remaining, masks)),
    decreases masks.len(),
{
    let parts = split_after(cursor, remaining, masks);
    if masks.len() > 0 {
        let mask = masks[0];
        let rest = masks.subrange(1, masks.len() as int);
        let gap: Seq<(usize, usize)> = if cursor < mask.0 {
            seq![(cursor, (mask.0 - cursor) as usize)]
        } else {
            Seq::empty()
        };
        let next: usize = if cursor < mask.1 {
            mask.1
        } else {
            cursor
        };
        let used: usize = if cursor < mask.1 {
            if mask.1 - cursor < remaining {
                (mask.1 - cursor) as usize
            } else {
                remaining
            }
        } else {
            0
        };
        let left = (remaining - used) as usize;
        let tail = split_after(next, left, rest);
        assert(parts == gap + tail);
        assert forall|k: int| 0 <= k < rest.len() implies (#[trigger] rest[k]).0 < end
            && rest[k].0 < rest[k].1 by {
            assert(rest[k] == masks[k + 1]);
        }
        assert(starts_ascend(rest)) by {
            assert forall|i: int, j: int| 0 <= i < j < rest.len() implies (#[trigger] rest[i]).0 <= (
            #[trigger] rest[j]).0 by {
                assert(rest[i] == masks[i + 1]);
                assert(rest[j] == masks[j + 1]);
            }
        }
        lemma_split_after(next, left, end, rest);
        lemma_split_after_apart(next, left, end, rest);
        assert forall|i: int, j: int| 0 <= i < j < parts.len() implies (#[trigger] parts[i]).0
            + parts[i].1 < (#[trigger] parts[j]).0 by {
            assert(parts[j] == tail[j - gap.len()]);
            if i >= gap.len() {
                assert(parts[i] == tail[i - gap.len()]);
            }
        }
    }
}

/// Where every mask holds a position, the runs that are left of a diff are
/// the longest there are: no two of them touch, and none can be made longer
/// without taking in a masked position or leaving the diff.
pub proof fn lemma_parts_are_maximal(t_start: usize, length: usize, masks: Seq<(usize, usize)>)
    requires
        length >= 1,
        t_start + length <= usize::MAX,
        starts_ascend(masks),
        start_before(masks, t_start + length),
        holding(masks),
    ensures
        runs_apart(unmasked_parts(t_start, length, masks)),
        runs_maximal(unmasked_parts(t_start, length, masks), t_start as int, t_start + length, masks),
{
    let parts = unmasked_parts(t_start, length, masks);
    let end = t_start + length;
    lemma_parts_cover_unmasked(t_start, length, masks);
    if masks.len() > 0 {
        lemma_split_after_apart(t_start, length, end as usize, masks);
    }
    assert forall|k: int| 0 <= k < parts.len() implies ((#[trigger] parts[k]).0 == t_start
        || in_masks(masks, parts[k].0 - 1)) && (parts[k].0 + parts[k].1 == end || in_masks(
        masks,
        parts[k].0 + parts[k].1,
    )) by {
        let before = parts[k].0 - 1;
        let after = parts[k].0 + parts[k].1;
        if parts[k].0 != t_start && in_parts(parts, before) {
            let j = choose|j: int|
                0 <= j < parts.len() && (#[trigger] parts[j]).0 <= before < parts[j].0 + parts[j].1;
            assert(j != k);
        }
        if after != end && in_parts(parts, after) {
            let j = choose|j: int|
                0 <= j < parts.len() && (#[trigger] parts[j]).0 <= after < parts[j].0 + parts[j].1;
            assert(j != k);
        }
    }
}

/// What is written for a diff of at least one position under an index: the
/// lines of the runs that are left of it, which cover exactly the positions
/// of the diff that lie in none of the masked intervals. Every run holds a
/// position and lies within the diff. Where no interval ends before it
/// starts, the runs stand in order and no two share a position. Where every
/// interval holds a position, the runs are the longest there are.
pub proof fn lemma_masked_lines_are_the_unmasked_runs(
    t_start: usize,
    q_base: char,
    length: usize,
    index: MaskIndex,
)
    requires
        length >= 1,
        t_start + length <= usize::MAX,
        index.wf(),
    ensures
        masked_lines(t_start, q_base, length, Some(index)) == part_lines(
            masked_parts(t_start, length, Some(index)),
            q_base,
        ),
        forall|x: int|
            in_parts(masked_parts(t_start, length, Some(index)), x) <==> (t_start <= x < t_start
                + length && !in_masks(index@, x)),
        runs_nonempty(masked_parts(t_start, length, Some(index))),
        runs_within(masked_parts(t_start, length, Some(index)), t_start as int, t_start + length),
        proper(index@) ==> runs_ordered(masked_parts(t_start, length, Some(index))),
        holding(index@) ==> runs_apart(masked_parts(t_start, length, Some(index))),
        holding(index@) ==> runs_maximal(
            masked_parts(t_start, length, Some(index)),
            t_start as int,
            t_start + length,
            index@,
        ),
{
    let end = (t_start + length) as usize;
    let found = overlapping(index@, t_start, end);
    let parts = masked_parts(t_start, length, Some(index));
    lemma_masked_diff_covers_unmasked(t_start, length, index@);
    lemma_overlapping(index@, t_start, end);
    if holding(index@) {
        assert forall|k: int| 0 <= k < found.len() implies (#[trigger] found[k]).0
            < found[k].1 by {
            let at = choose|at: int| 0 <= at < index@.len() && index@[at] == found[k];
        }
        assert(starts_ascend(found));
        assert(start_before(found, end as int));
        lemma_parts_are_maximal(t_start, length, found);
        assert forall|k: int| 0 <= k < parts.len() implies ((#[trigger] parts[k]).0 == t_start
            || in_masks(index@, parts[k].0 - 1)) && (parts[k].0 + parts[k].1 == end || in_masks(
            index@,
            parts[k].0 + parts[k].1,
        )) by {
            let before = parts[k].0 - 1;
            let after = parts[k].0 + parts[k].1;
            if in_masks(found, before) {
                let j = choose|j: int|
                    0 <= j < found.len() && (#[trigger] found[j]).0 <= before < found[j].1;
                let at = choose|at: int| 0 <= at < index@.len() && index@[at] == found[j];
            }
            if in_masks(found, after) {
                let j = choose|j: int|
                    0 <= j < found.len() && (#[trigger] found[j]).0 <= after < found[j].1;
                let at = choose|at: int| 0 <= at < index@.len() && index@[at] == found[j];
            }
        }
    }
}

} // verus!
