//! Taking masked intervals out of a diff: what is left of it, run by run,
//! and the lines that report the runs.

use vstd::prelude::*;
use crate::diff::{diff_line, part_lines, print_one_diff};
use crate::mask::{overlapping, MaskIndex};

verus! {

/// The runs left of a diff once the masks `masks` are taken out in turn,
/// where `cursor` is the first position not dealt with yet and `remaining`
/// counts the positions of the diff from there on.
///
/// Each mask first leaves the run before it, from the cursor to its start,
/// if the cursor stands before its start. Then it uses up the positions
/// from the cursor to its end, as far as any remain, and the cursor moves
/// to its end. A mask that ends at or before the cursor uses up nothing and
/// leaves the cursor where it is. What remains after the last mask is the
/// last run.
pub open spec fn split_after(cursor: usize, remaining: usize, masks: Seq<(usize, usize)>) -> Seq<
    (usize, usize),
>
    decreases masks.len(),
{
    if masks.len() == 0 {
        if remaining > 0 {
            seq![(cursor, remaining)]
        } else {
            Seq::empty()
        }
    } else {
        let mask = masks[0];
        let gap = if cursor < mask.0 {
            seq![(cursor, (mask.0 - cursor) as usize)]
        } else {
            Seq::empty()
        };
        let rest = masks.subrange(1, masks.len() as int);
        if cursor < mask.1 {
            let used = if mask.1 - cursor < remaining {
                (mask.1 - cursor) as usize
            } else {
                remaining
            };
            gap + split_after(mask.1, (remaining - used) as usize, rest)
        } else {
            gap + split_after(cursor, remaining, rest)
        }
    }
}

/// The runs, each a start and a length, that are left of the diff of
/// `length` positions from `t_start` on when the masks `masks` are taken
/// out of it. With no mask the diff is left as it is.
pub open spec fn unmasked_parts(t_start: usize, length: usize, masks: Seq<(usize, usize)>) -> Seq<
    (usize, usize),
> {
    if masks.len() == 0 {
        seq![(t_start, length)]
    } else {
        split_after(t_start, length, masks)
    }
}

/// The intervals of `mask_tree`; none where there is no index.
pub open spec fn mask_intervals(mask_tree: Option<MaskIndex>) -> Seq<(usize, usize)> {
    match mask_tree {
        Some(index) => index@,
        None => Seq::empty(),
    }
}

/// The runs that are left of the diff of `length` positions from `t_start`
/// on, once what `mask_tree` masks is taken out: the diff is split at the
/// masked intervals that touch it.
pub open spec fn masked_parts(t_start: usize, length: usize, mask_tree: Option<MaskIndex>) -> Seq<
    (usize, usize),
> {
    unmasked_parts(
        t_start,
        length,
        overlapping(mask_intervals(mask_tree), t_start, (t_start + length) as usize),
    )
}

/// The lines that report the diff of `length` positions from `t_start` on
/// with the symbol `q_base`, once what `mask_tree` masks is taken out: one
/// line for each run that is left.
pub open spec fn masked_lines(
    t_start: usize,
    q_base: char,
    length: usize,
    mask_tree: Option<MaskIndex>,
) -> Seq<char> {
    part_lines(masked_parts(t_start, length, mask_tree), q_base)
}

/// Splits the diff of `length` positions from `t_start` on at the masks
/// `overlaps`, and gives the runs that are left, in order.
pub fn split_diff(t_start: usize, length: usize, overlaps: &Vec<(usize, usize)>) -> (parts: Vec<
    (usize, usize),
>)
    requires
        t_start + length <= usize::MAX,
    ensures
        parts@ == unmasked_parts(t_start, length, overlaps@),
        t_start < usize::MAX ==> forall|k: int|
            0 <= k < parts.len() ==> (#[trigger] parts[k]).0 < usize::MAX,
{
    let mut parts: Vec<(usize, usize)> = Vec::new();
    if overlaps.len() == 0 {
        parts.push((t_start, length));
        assert(parts@ =~= seq![(t_start, length)]);
        return parts;
    }
    let mut cursor: usize = t_start;
    let mut remaining: usize = length;
    let mut i: usize = 0;
    assert(overlaps@.subrange(0, overlaps.len() as int) =~= overlaps@);
    while i < overlaps.len()
        invariant
            i <= overlaps.len(),
            remaining > 0 ==> cursor + remaining == t_start + length,
            t_start + length <= usize::MAX,
            split_after(t_start, length, overlaps@) == parts@ + split_after(
                cursor,
                remaining,
                overlaps@.subrange(i as int, overlaps.len() as int),
            ),
            forall|k: int| 0 <= k < parts.len() ==> (#[trigger] parts[k]).0 < usize::MAX,
        decreases overlaps.len() - i,
    {
        let ghost todo = overlaps@.subrange(i as int, overlaps.len() as int);
        let ghost before = parts@;
        let mask = overlaps[i];
        assert(todo[0] == mask);
        assert(todo.subrange(1, todo.len() as int) =~= overlaps@.subrange(
            i + 1,
            overlaps.len() as int,
        ));
        if cursor < mask.0 {
            parts.push((cursor, mask.0 - cursor));
        }
        if cursor < mask.1 {
            let used = if mask.1 - cursor < remaining {
                mask.1 - cursor
            } else {
                remaining
            };
            cursor = mask.1;
            remaining = remaining - used;
        }
        i = i + 1;
        assert(split_after(t_start, length, overlaps@) =~= parts@ + split_after(
            cursor,
            remaining,
            overlaps@.subrange(i as int, overlaps.len() as int),
        ));
    }
    if remaining > 0 {
        parts.push((cursor, remaining));
    }
    assert(overlaps@.subrange(i as int, overlaps.len() as int) =~= Seq::<(usize, usize)>::empty());
    assert(split_after(t_start, length, overlaps@) =~= parts@);
    parts
}

/// Appends to `out` the lines for the runs `parts`, all with the symbol
/// `q_base`.
pub fn print_parts(out: &mut String, q_base: char, parts: &Vec<(usize, usize)>)
    requires
        forall|k: int| 0 <= k < parts.len() ==> (#[trigger] parts[k]).0 < usize::MAX,
    ensures
        final(out)@ == old(out)@ + part_lines(parts@, q_base),
{
    let mut i: usize = 0;
    while i < parts.len()
        invariant
            i <= parts.len(),
            forall|k: int| 0 <= k < parts.len() ==> (#[trigger] parts[k]).0 < usize::MAX,
            out@ == old(out)@ + part_lines(parts@.take(i as int), q_base),
        decreases parts.len() - i,
    {
        let ghost sofar = out@;
        print_one_diff(out, parts[i].0, q_base, parts[i].1);
        assert(parts@.take(i + 1).drop_last() =~= parts@.take(i as int));
        assert(out@ =~= old(out)@ + part_lines(parts@.take(i + 1), q_base));
        i = i + 1;
    }
    assert(parts@.take(i as int) =~= parts@);
}

/// Appends to `out` the lines for one diff, for those of its positions only
/// that `mask_tree` does not mask: one line for each run that is left, from
/// left to right.
pub fn print_one_masked(
    out: &mut String,
    t_start: usize,
    q_base: char,
    length: usize,
    mask_tree: &Option<MaskIndex>,
)
    requires
        t_start < usize::MAX,
        t_start + length <= usize::MAX,
    ensures
        final(out)@ == old(out)@ + masked_lines(t_start, q_base, length, *mask_tree),
{
    match mask_tree {
        Some(index) => {
            let overlaps = index.overlaps(t_start, length);
            let parts = split_diff(t_start, length, &overlaps);
            print_parts(out, q_base, &parts);
        },
        None => {
            print_one_diff(out, t_start, q_base, length);
            assert(part_lines(seq![(t_start, length)], q_base) =~= diff_line(
                t_start,
                q_base,
                length,
            )) by {
                reveal_with_fuel(part_lines, 2);
                assert(seq![(t_start, length)].drop_last() =~= Seq::<(usize, usize)>::empty());
            }
        },
    }
}

} // verus!
