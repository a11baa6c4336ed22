//! The order in which the diffs of a sample are reported: by start, and
//! among diffs with one start, as they came.

use vstd::prelude::*;
use crate::diff::MapleDiff;

verus! {

/// `sorted` with `diff` put in behind the last diff that does not start
/// after it.
pub open spec fn insert_by_start(sorted: Seq<MapleDiff>, diff: MapleDiff) -> Seq<MapleDiff>
    decreases sorted.len(),
{
    if sorted.len() == 0 || sorted.last().t_start <= diff.t_start {
        sorted.push(diff)
    } else {
        insert_by_start(sorted.drop_last(), diff).push(sorted.last())
    }
}

/// The diffs of `diffs` in the order of their starts, those with one start
/// in the order in which they stand in `diffs`.
pub open spec fn sorted_by_start(diffs: Seq<MapleDiff>) -> Seq<MapleDiff>
    decreases diffs.len(),
{
    if diffs.len() == 0 {
        diffs
    } else {
        insert_by_start(sorted_by_start(diffs.drop_last()), diffs.last())
    }
}

/// Whether no diff of `diffs` starts after one that follows it.
pub open spec fn ordered_by_start(diffs: Seq<MapleDiff>) -> bool {
    forall|i: int, j: int|
        0 <= i < j < diffs.len() ==> (#[trigger] diffs[i]).t_start <= (#[trigger] diffs[j]).t_start
}

/// The diffs of `diffs` that start at `start`, in the order in which they
/// stand.
pub open spec fn starting_at(diffs: Seq<MapleDiff>, start: usize) -> Seq<MapleDiff>
    decreases diffs.len(),
{
    if diffs.len() == 0 {
        diffs
    } else if diffs.last().t_start == start {
        starting_at(diffs.drop_last(), start).push(diffs.last())
    } else {
        starting_at(diffs.drop_last(), start)
    }
}

proof fn lemma_insert_by_start(sorted: Seq<MapleDiff>, diff: MapleDiff)
    ensures
        insert_by_start(sorted, diff).len() == sorted.len() + 1,
        insert_by_start(sorted, diff).to_multiset() == sorted.to_multiset().insert(diff),
        ordered_by_start(sorted) ==> ordered_by_start(insert_by_start(sorted, diff)),
        forall|k: int|
            0 <= k < insert_by_start(sorted, diff).len() ==> #[trigger] insert_by_start(
                sorted,
                diff,
            )[k] == diff || sorted.contains(insert_by_start(sorted, diff)[k]),
        forall|start: usize|
            #[trigger] starting_at(insert_by_start(sorted, diff), start) == if diff.t_start
                == start {
                starting_at(sorted, start).push(diff)
            } else {
                starting_at(sorted, start)
            },
    decreases sorted.len(),
{
    broadcast use vstd::seq_lib::group_to_multiset_ensures;

    let result = insert_by_start(sorted, diff);
    if sorted.len() == 0 || sorted.last().t_start <= diff.t_start {
        assert(result.drop_last() =~= sorted);
        assert forall|k: int| 0 <= k < result.len() implies #[trigger] result[k] == diff
            || sorted.contains(result[k]) by {
            if k < sorted.len() {
                assert(sorted[k] == result[k]);
            }
        }
        assert forall|start: usize| #[trigger]
            starting_at(result, start) == if diff.t_start == start {
                starting_at(sorted, start).push(diff)
            } else {
                starting_at(sorted, start)
            } by {
            assert(result.last() == diff);
        }
    } else {
        let shorter = sorted.drop_last();
        let inner = insert_by_start(shorter, diff);
        lemma_insert_by_start(shorter, diff);
        assert(result.drop_last() =~= inner);
        assert(shorter.push(sorted.last()) =~= sorted);
        assert(result.to_multiset() =~= sorted.to_multiset().insert(diff));
        assert forall|start: usize| #[trigger]
            starting_at(result, start) == if diff.t_start == start {
                starting_at(sorted, start).push(diff)
            } else {
                starting_at(sorted, start)
            } by {
            assert(result.last() == sorted.last());
            assert(starting_at(inner, start) == if diff.t_start == start {
                starting_at(shorter, start).push(diff)
            } else {
                starting_at(shorter, start)
            });
        }
        assert forall|k: int| 0 <= k < result.len() implies #[trigger] result[k] == diff
            || sorted.contains(result[k]) by {
            if k < inner.len() {
                assert(result[k] == inner[k]);
                if inner[k] != diff {
                    let at = choose|at: int| 0 <= at < shorter.len() && shorter[at] == inner[k];
                    assert(sorted[at] == inner[k]);
                }
            } else {
                assert(sorted[sorted.len() - 1] == result[k]);
            }
        }
        if ordered_by_start(sorted) {
            assert(ordered_by_start(shorter)) by {
                assert forall|i: int, j: int| 0 <= i < j < shorter.len() implies (
                #[trigger] shorter[i]).t_start <= (#[trigger] shorter[j]).t_start by {
                    assert(shorter[i] == sorted[i]);
                    assert(shorter[j] == sorted[j]);
                }
            }
            assert forall|i: int, j: int| 0 <= i < j < result.len() implies (
            #[trigger] result[i]).t_start <= (#[trigger] result[j]).t_start by {
                assert(result[i] == inner[i]);
                if j < inner.len() {
                    assert(result[j] == inner[j]);
                } else {
                    if inner[i] != diff {
                        let at = choose|at: int| 0 <= at < shorter.len() && shorter[at] == inner[i];
                        assert(sorted[at] == inner[i]);
                        assert(sorted[sorted.len() - 1] == result[j]);
                    }
                }
            }
        }
    }
}

/// The order is a stable sort: it holds the same diffs as often, none starts
/// after one that follows it, and the diffs with one start stand as they
/// stood.
pub proof fn lemma_sorted_by_start(diffs: Seq<MapleDiff>)
    ensures
        sorted_by_start(diffs).len() == diffs.len(),
        sorted_by_start(diffs).to_multiset() == diffs.to_multiset(),
        ordered_by_start(sorted_by_start(diffs)),
        forall|start: usize|
            #[trigger] starting_at(sorted_by_start(diffs), start) == starting_at(diffs, start),
        forall|k: int|
            0 <= k < sorted_by_start(diffs).len() ==> diffs.contains(
                #[trigger] sorted_by_start(diffs)[k],
            ),
    decreases diffs.len(),
{
    broadcast use vstd::seq_lib::group_to_multiset_ensures;

    if diffs.len() > 0 {
        let shorter = diffs.drop_last();
        let inner = sorted_by_start(shorter);
        let result = sorted_by_start(diffs);
        lemma_sorted_by_start(shorter);
        lemma_insert_by_start(inner, diffs.last());
        assert(shorter.push(diffs.last()) =~= diffs);
        assert forall|k: int| 0 <= k < result.len() implies diffs.contains(
            #[trigger] result[k],
        ) by {
            if result[k] == diffs.last() {
                assert(diffs[diffs.len() - 1] == result[k]);
            } else {
                let at = choose|at: int| 0 <= at < inner.len() && inner[at] == result[k];
                let origin = choose|origin: int|
                    0 <= origin < shorter.len() && shorter[origin] == inner[at];
                assert(diffs[origin] == result[k]);
            }
        }
    }
}

/// Puts the diffs in the order of their starts, keeping those with one
/// start in the order in which they came.
pub fn sort_by_start(diffs: &Vec<MapleDiff>) -> (sorted: Vec<MapleDiff>)
    ensures
        sorted@ == sorted_by_start(diffs@),
{
    let mut sorted: Vec<MapleDiff> = Vec::new();
    let mut i: usize = 0;
    while i < diffs.len()
        invariant
            i <= diffs.len(),
            sorted@ == sorted_by_start(diffs@.take(i as int)),
        decreases diffs.len() - i,
    {
        let diff = diffs[i];
        let ghost before = sorted@;
        let mut at: usize = sorted.len();
        assert(before.take(at as int) =~= before);
        assert(before.skip(at as int) =~= Seq::<MapleDiff>::empty());
        while at > 0 && sorted[at - 1].t_start > diff.t_start
            invariant
                at <= sorted.len(),
                sorted@ == before,
                insert_by_start(before, diff) == insert_by_start(before.take(at as int), diff)
                    + before.skip(at as int),
            decreases at,
        {
            assert(before.take(at as int).drop_last() =~= before.take(at - 1));
            assert(insert_by_start(before.take(at - 1), diff).push(before[at - 1]) + before.skip(
                at as int,
            ) =~= insert_by_start(before.take(at - 1), diff) + before.skip(at - 1));
            at = at - 1;
        }
        sorted.insert(at, diff);
        assert(sorted@ =~= before.take(at as int).push(diff) + before.skip(at as int));
        assert(diffs@.take(i + 1).drop_last() =~= diffs@.take(i as int));
        i = i + 1;
    }
    assert(diffs@.take(i as int) =~= diffs@);
    sorted
}

} // verus!
