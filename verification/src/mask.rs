//! The index of masked regions: half-open intervals of reference positions
//! kept in an interval tree, which answers which of them touch a query.

use vstd::prelude::*;
use std::ops::Bound::{Excluded, Included};
use unbounded_interval_tree::interval_tree::IntervalTree;

verus! {

/// The interval tree of `unbounded_interval_tree`, whose inside is not read
/// here.
#[verifier::external_type_specification]
#[verifier::external_body]
#[verifier::reject_recursive_types(K)]
pub struct ExIntervalTree<K>(IntervalTree<K>);

/// The intervals that `tree` stores with their start included and their end
/// excluded, each as its start and its end, in the order in which the tree
/// walks them.
pub uninterp spec fn tree_inorder(tree: IntervalTree<usize>) -> Seq<(usize, usize)>;

/// The count that `tree` keeps of the insertions made into it, which is
/// what its `len` returns.
pub uninterp spec fn tree_len(tree: IntervalTree<usize>) -> nat;

/// Whether `a` stands before `b`: by start, and by end where the starts agree.
pub open spec fn interval_lt(a: (usize, usize), b: (usize, usize)) -> bool {
    a.0 < b.0 || (a.0 == b.0 && a.1 < b.1)
}

/// Whether each interval of `intervals` stands before all that follow it.
pub open spec fn ascending(intervals: Seq<(usize, usize)>) -> bool {
    forall|i: int, j: int|
        0 <= i < j < intervals.len() ==> interval_lt(#[trigger] intervals[i], #[trigger] intervals[j])
}

/// The test by which an interval is reported for the query `[start, end)`: it
/// starts before the query ends, and ends after the query starts.
pub open spec fn touches(iv: (usize, usize), start: usize, end: usize) -> bool {
    iv.0 < end && start < iv.1
}

/// Those of `intervals` that touch `[start, end)`, in the order in which
/// they stand.
pub open spec fn overlapping(intervals: Seq<(usize, usize)>, start: usize, end: usize) -> Seq<
    (usize, usize),
>
    decreases intervals.len(),
{
    if intervals.len() == 0 {
        Seq::empty()
    } else {
        let before = overlapping(intervals.drop_last(), start, end);
        if touches(intervals.last(), start, end) {
            before.push(intervals.last())
        } else {
            before
        }
    }
}

/// `IntervalTree::default`: a tree that stores nothing and has counted no
/// insertion.
#[verifier::external_body]
fn tree_new() -> (tree: IntervalTree<usize>)
    ensures
        tree_inorder(tree) == Seq::<(usize, usize)>::empty(),
        tree_len(tree) == 0,
{
    IntervalTree::default()
}

/// `IntervalTree::insert` of the interval from `start`, included, to `end`,
/// excluded. The tree raises its count by one, which must fit. It then
/// stores the interval beside what it stored before (an interval that it
/// holds already is not stored twice), and its walk stays in ascending order.
#[verifier::external_body]
fn tree_insert(tree: &mut IntervalTree<usize>, start: usize, end: usize)
    requires
        tree_len(*old(tree)) < usize::MAX,
    ensures
        tree_len(*final(tree)) == tree_len(*old(tree)) + 1,
        tree_inorder(*final(tree)).to_set() == tree_inorder(*old(tree)).to_set().insert(
            (start, end),
        ),
        ascending(tree_inorder(*final(tree))),
{
    tree.insert((Included(start), Excluded(end)));
}

/// `IntervalTree::get_interval_overlaps` for the query from `start`,
/// included, to `end`, excluded: the stored intervals that touch the query,
/// in the order of the tree's walk, each handed out as its start and its
/// end. An interval with bounds of another kind is no part of
/// `tree_inorder` and is passed over; `tree_insert` stores none.
#[verifier::external_body]
fn tree_overlaps(tree: &IntervalTree<usize>, start: usize, end: usize) -> (found: Vec<
    (usize, usize),
>)
    ensures
        found@ == overlapping(tree_inorder(*tree), start, end),
{
    let hits = tree.get_interval_overlaps(&(start..end));
    let mut found: Vec<(usize, usize)> = Vec::new();
    for hit in hits {
        match hit {
            (Included(lo), Excluded(hi)) => found.push((*lo, *hi)),
            _ => {},
        }
    }
    found
}

/// Why a set of masked regions cannot be used.
#[derive(Clone, Copy, Debug, PartialEq, Eq, Structural)]
pub enum ConfigurationError {
    /// The record at index `record` names another chromosome than the first
    /// record does; a mask belongs to one reference.
    MultipleChromosomes { record: usize },
}

/// Whether all of `records` name the chromosome that the first one names.
pub open spec fn single_chromosome(records: Seq<(String, usize, usize)>) -> bool {
    forall|k: int| 0 <= k < records.len() ==> (#[trigger] records[k]).0@ == records[0].0@
}

/// The intervals that `records` give, each a start and an end.
pub open spec fn record_intervals(records: Seq<(String, usize, usize)>) -> Set<(usize, usize)>
    decreases records.len(),
{
    if records.len() == 0 {
        Set::empty()
    } else {
        record_intervals(records.drop_last()).insert((records.last().1, records.last().2))
    }
}

/// A set of masked half-open intervals `[start, end)` of 0-based positions
/// on one reference.
pub struct MaskIndex {
    tree: IntervalTree<usize>,
}

impl View for MaskIndex {
    type V = Seq<(usize, usize)>;

    /// The masked intervals, in ascending order.
    closed spec fn view(&self) -> Seq<(usize, usize)> {
        tree_inorder(self.tree)
    }
}

impl MaskIndex {
    /// The intervals stand in ascending order, none of them twice.
    pub open spec fn wf(&self) -> bool {
        ascending(self@)
    }

    /// An index that masks nothing.
    pub fn new() -> (index: MaskIndex)
        ensures
            index.wf(),
            index@ == Seq::<(usize, usize)>::empty(),
    {
        MaskIndex { tree: tree_new() }
    }

    /// Builds the index of the regions that `records` list, each a
    /// chromosome name, a start and an end. All records must name one
    /// chromosome: the first record that names another is reported.
    pub fn build(records: &Vec<(String, usize, usize)>) -> (r: Result<
        MaskIndex,
        ConfigurationError,
    >)
        ensures
            match r {
                Ok(index) => {
                    &&& single_chromosome(records@)
                    &&& index.wf()
                    &&& index@.to_set() == record_intervals(records@)
                },
                Err(ConfigurationError::MultipleChromosomes { record }) => {
                    &&& 0 < record < records.len()
                    &&& records[record as int].0@ != records[0].0@
                    &&& forall|k: int|
                        0 <= k < record ==> (#[trigger] records[k]).0@ == records[0].0@
                },
            },
    {
        let mut tree = tree_new();
        let mut i: usize = 0;
        assert(tree_inorder(tree).to_set() =~= Set::<(usize, usize)>::empty());
        while i < records.len()
            invariant
                i <= records.len(),
                tree_len(tree) == i,
                ascending(tree_inorder(tree)),
                tree_inorder(tree).to_set() == record_intervals(records@.take(i as int)),
                forall|k: int| 0 <= k < i ==> (#[trigger] records[k]).0@ == records[0].0@,
            decreases records.len() - i,
        {
            if records[i].0 != records[0].0 {
                return Err(ConfigurationError::MultipleChromosomes { record: i });
            }
            tree_insert(&mut tree, records[i].1, records[i].2);
            assert(records@.take(i + 1).drop_last() =~= records@.take(i as int));
            i = i + 1;
        }
        assert(records@.take(i as int) =~= records@);
        Ok(MaskIndex { tree })
    }

    /// The masked intervals that touch the `query_len` positions from
    /// `query_start` on, in ascending order.
    pub fn overlaps(&self, query_start: usize, query_len: usize) -> (found: Vec<(usize, usize)>)
        requires
            query_start + query_len <= usize::MAX,
        ensures
            found@ == overlapping(self@, query_start, (query_start + query_len) as usize),
    {
        tree_overlaps(&self.tree, query_start, query_start + query_len)
    }
}

} // verus!
