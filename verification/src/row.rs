//! One input row, which describes one sample, and what is written for it:
//! nothing where the sample is left out, else a header line and the lines of
//! its diffs.

use vstd::prelude::*;
use vstd::string::StringExecFns;
use crate::config::Config;
use crate::decimal::parse_usize_spec;
use crate::diff::MapleDiff;
use crate::mask::MaskIndex;
use crate::notation::{all_wf, outcome, parse_list, parse_notation, parse_usize, Notation, NotationError};
use crate::order::{lemma_sorted_by_start, sort_by_start, sorted_by_start};
use crate::split::{masked_lines, print_one_masked};
use crate::table::{lookup_name, maybe_lookup_name, TextMap};

verus! {

/// A column that every row must have.
#[derive(Clone, Copy, Debug, PartialEq, Eq, Structural)]
pub enum Column {
    SeqName,
    AlignmentStart,
    AlignmentEnd,
    Substitutions,
    Deletions,
    Missing,
    NonAcgtns,
}

impl Column {
    /// The column's name in the header row.
    pub open spec fn name(self) -> Seq<char> {
        match self {
            Column::SeqName => "seqName"@,
            Column::AlignmentStart => "alignmentStart"@,
            Column::AlignmentEnd => "alignmentEnd"@,
            Column::Substitutions => "substitutions"@,
            Column::Deletions => "deletions"@,
            Column::Missing => "missing"@,
            Column::NonAcgtns => "nonACGTNs"@,
        }
    }

    /// The column's name in the header row.
    pub fn as_str(self) -> (name: &'static str)
        ensures
            name@ == self.name(),
    {
        match self {
            Column::SeqName => "seqName",
            Column::AlignmentStart => "alignmentStart",
            Column::AlignmentEnd => "alignmentEnd",
            Column::Substitutions => "substitutions",
            Column::Deletions => "deletions",
            Column::Missing => "missing",
            Column::NonAcgtns => "nonACGTNs",
        }
    }
}

/// Why a row cannot be read.
#[derive(Clone, Copy, Debug, PartialEq, Eq, Structural)]
pub enum RowError {
    /// The row has no such column.
    MissingColumn(Column),
    /// The column does not hold an unsigned decimal number that fits the
    /// machine.
    InvalidNumber(Column),
    /// A token of the column does not stand for a diff.
    Notation(Column, NotationError),
}

/// A row that cannot be read, by its index among the rows handed in, and
/// why it cannot.
#[derive(Clone, Copy, Debug, PartialEq, Eq, Structural)]
pub struct RowFailure {
    pub row: usize,
    pub error: RowError,
}

/// What the row holds in `column`.
pub open spec fn column_text(row: Map<Seq<char>, Seq<char>>, column: Column) -> Result<
    Seq<char>,
    RowError,
> {
    if row.contains_key(column.name()) {
        Ok(row[column.name()])
    } else {
        Err(RowError::MissingColumn(column))
    }
}

/// The number that the row holds in `column`.
pub open spec fn column_number(row: Map<Seq<char>, Seq<char>>, column: Column) -> Result<
    usize,
    RowError,
> {
    match column_text(row, column) {
        Err(e) => Err(e),
        Ok(text) => match parse_usize_spec(text) {
            Some(value) => Ok(value),
            None => Err(RowError::InvalidNumber(column)),
        },
    }
}

/// The diffs that the row holds in `column`, read in the notation `kind`.
pub open spec fn column_diffs(row: Map<Seq<char>, Seq<char>>, column: Column, kind: Notation) -> Result<
    Seq<MapleDiff>,
    RowError,
> {
    match column_text(row, column) {
        Err(e) => Err(e),
        Ok(text) => match parse_list(kind, text) {
            Ok(diffs) => Ok(diffs),
            Err(e) => Err(RowError::Notation(column, e)),
        },
    }
}

/// The number of positions that the diffs of `diffs` cover between them,
/// each counted as often as a diff holds it.
pub open spec fn total_bases(diffs: Seq<MapleDiff>) -> nat
    decreases diffs.len(),
{
    if diffs.len() == 0 {
        0
    } else {
        total_bases(diffs.drop_last()) + diffs.last().length as nat
    }
}

/// Whether a sample with `count` substitutions is left out: a limit is set,
/// and the sample is over it.
pub open spec fn too_many_substitutions(count: nat, max_substitutions: usize) -> bool {
    max_substitutions > 0 && count > max_substitutions
}

/// Whether a sample is left out for want of known bases: a minimum is set,
/// and the positions from `alignment_start` to `alignment_end`, both
/// included, less the `missing_total` unknown ones, are fewer.
pub open spec fn too_few_real(
    alignment_start: usize,
    alignment_end: usize,
    missing_total: nat,
    min_real: usize,
) -> bool {
    min_real > 0 && alignment_end - alignment_start + 1 - missing_total < min_real
}

/// The lines for the diffs of `diffs`, in order, each less what `mask_tree`
/// masks.
pub open spec fn diffs_lines(diffs: Seq<MapleDiff>, mask_tree: Option<MaskIndex>) -> Seq<char>
    decreases diffs.len(),
{
    if diffs.len() == 0 {
        Seq::empty()
    } else {
        diffs_lines(diffs.drop_last(), mask_tree) + masked_lines(
            diffs.last().t_start,
            diffs.last().q_base,
            diffs.last().length,
            mask_tree,
        )
    }
}

/// The lines for the unknown positions before the alignment, where it does
/// not start at the first position.
pub open spec fn leading_lines(alignment_start: usize, mask_tree: Option<MaskIndex>) -> Seq<char> {
    if alignment_start > 1 {
        masked_lines(0, 'n', (alignment_start - 1) as usize, mask_tree)
    } else {
        Seq::empty()
    }
}

/// The lines for the unknown positions after the alignment, where the
/// length of the reference is known and the alignment ends before it.
pub open spec fn trailing_lines(
    alignment_end: usize,
    ref_len: usize,
    mask_tree: Option<MaskIndex>,
) -> Seq<char> {
    if ref_len > 0 && alignment_end < ref_len {
        masked_lines(alignment_end, 'n', (ref_len - alignment_end) as usize, mask_tree)
    } else {
        Seq::empty()
    }
}

/// What is written for a sample that is reported: the header line with its
/// name, then the lines for the unknown positions before the alignment, for
/// its diffs in order, and for the unknown positions after the alignment.
pub open spec fn sample_text(
    name: Seq<char>,
    alignment_start: usize,
    alignment_end: usize,
    ref_len: usize,
    diffs: Seq<MapleDiff>,
    mask_tree: Option<MaskIndex>,
) -> Seq<char> {
    seq!['>'] + name + seq!['\n'] + leading_lines(alignment_start, mask_tree) + diffs_lines(
        diffs,
        mask_tree,
    ) + trailing_lines(alignment_end, ref_len, mask_tree)
}

/// What is written for a row whose sample is reported under `name`, unless
/// a threshold leaves it out: the columns are read in the order alignment
/// start, alignment end, substitutions, deletions, missing, ambiguous
/// bases, and the first that cannot be read is the error. The limit on
/// substitutions is applied as soon as they are read, the minimum of known
/// bases once all the columns are.
pub open spec fn named_row_outcome(
    row: Map<Seq<char>, Seq<char>>,
    name: Seq<char>,
    mask_tree: Option<MaskIndex>,
    min_real: usize,
    max_substitutions: usize,
    ref_len: usize,
) -> Result<Seq<char>, RowError> {
    match column_number(row, Column::AlignmentStart) {
        Err(e) => Err(e),
        Ok(alignment_start) => match column_number(row, Column::AlignmentEnd) {
            Err(e) => Err(e),
            Ok(alignment_end) => match column_diffs(
                row,
                Column::Substitutions,
                Notation::Substitution,
            ) {
                Err(e) => Err(e),
                Ok(substitutions) => if too_many_substitutions(
                    substitutions.len(),
                    max_substitutions,
                ) {
                    Ok(Seq::empty())
                } else {
                    match column_diffs(row, Column::Deletions, Notation::Deletion) {
                        Err(e) => Err(e),
                        Ok(deletions) => match column_diffs(
                            row,
                            Column::Missing,
                            Notation::Missing,
                        ) {
                            Err(e) => Err(e),
                            Ok(missing) => match column_diffs(
                                row,
                                Column::NonAcgtns,
                                Notation::NonAcgtn,
                            ) {
                                Err(e) => Err(e),
                                Ok(non_acgtns) => if too_few_real(
                                    alignment_start,
                                    alignment_end,
                                    total_bases(missing),
                                    min_real,
                                ) {
                                    Ok(Seq::empty())
                                } else {
                                    Ok(
                                        sample_text(
                                            name,
                                            alignment_start,
                                            alignment_end,
                                            ref_len,
                                            sorted_by_start(
                                                substitutions + deletions + missing + non_acgtns,
                                            ),
                                            mask_tree,
                                        ),
                                    )
                                },
                            },
                        },
                    }
                },
            },
        },
    }
}

/// What is written for one row, or why the row cannot be read. Nothing is
/// written for a row with an empty alignment start, which stands for a
/// sample that could not be aligned, nor for a sample that the table of new
/// names leaves out.
pub open spec fn row_outcome(
    row: Map<Seq<char>, Seq<char>>,
    rename_hash: Option<TextMap>,
    mask_tree: Option<MaskIndex>,
    min_real: usize,
    max_substitutions: usize,
    ref_len: usize,
) -> Result<Seq<char>, RowError> {
    match column_text(row, Column::AlignmentStart) {
        Err(e) => Err(e),
        Ok(start_text) => if start_text.len() == 0 {
            Ok(Seq::empty())
        } else {
            match column_text(row, Column::SeqName) {
                Err(e) => Err(e),
                Ok(name_in) => match lookup_name(rename_hash, name_in) {
                    None => Ok(Seq::empty()),
                    Some(name) => named_row_outcome(
                        row,
                        name,
                        mask_tree,
                        min_real,
                        max_substitutions,
                        ref_len,
                    ),
                },
            }
        },
    }
}

/// What is written for the rows of `rows`, one after the other, up to the
/// first that cannot be read, and that row with its error if there is one.
pub open spec fn rows_outcome(
    rows: Seq<TextMap>,
    rename_hash: Option<TextMap>,
    mask_tree: Option<MaskIndex>,
    min_real: usize,
    max_substitutions: usize,
    ref_len: usize,
) -> (Seq<char>, Option<RowFailure>)
    decreases rows.len(),
{
    if rows.len() == 0 {
        (Seq::empty(), None)
    } else {
        let before = rows_outcome(
            rows.drop_last(),
            rename_hash,
            mask_tree,
            min_real,
            max_substitutions,
            ref_len,
        );
        if before.1 is Some {
            before
        } else {
            match row_outcome(
                rows.last()@,
                rename_hash,
                mask_tree,
                min_real,
                max_substitutions,
                ref_len,
            ) {
                Ok(text) => (before.0 + text, None),
                Err(error) => (
                    before.0,
                    Some(RowFailure { row: (rows.len() - 1) as usize, error }),
                ),
            }
        }
    }
}

/// Gives what the row holds in `column`.
pub fn get_column<'a>(row: &'a TextMap, column: Column) -> (r: Result<&'a str, RowError>)
    ensures
        match r {
            Ok(text) => column_text(row@, column) == Ok::<Seq<char>, RowError>(text@),
            Err(e) => column_text(row@, column) == Err::<Seq<char>, RowError>(e),
        },
{
    match row.get(column.as_str()) {
        Some(text) => Ok(text),
        None => Err(RowError::MissingColumn(column)),
    }
}

/// Gives the number that the row holds in `column`.
pub fn get_column_usize(row: &TextMap, column: Column) -> (r: Result<usize, RowError>)
    ensures
        r == column_number(row@, column),
{
    match get_column(row, column) {
        Err(e) => Err(e),
        Ok(text) => match parse_usize(text) {
            Ok(value) => Ok(value),
            Err(_) => Err(RowError::InvalidNumber(column)),
        },
    }
}

fn get_column_diffs(row: &TextMap, column: Column, kind: Notation) -> (r: Result<
    Vec<MapleDiff>,
    RowError,
>)
    ensures
        match r {
            Ok(diffs) => column_diffs(row@, column, kind) == Ok::<Seq<MapleDiff>, RowError>(diffs@)
                && all_wf(diffs@),
            Err(e) => column_diffs(row@, column, kind) == Err::<Seq<MapleDiff>, RowError>(e),
        },
{
    match get_column(row, column) {
        Err(e) => Err(e),
        Ok(text) => match parse_notation(kind, text) {
            Ok(diffs) => Ok(diffs),
            Err(e) => Err(RowError::Notation(column, e)),
        },
    }
}

/// The positions of a longer list are at least those of any of its prefixes.
pub proof fn lemma_total_bases_prefix(diffs: Seq<MapleDiff>, k: int)
    requires
        0 <= k <= diffs.len(),
    ensures
        total_bases(diffs.take(k)) <= total_bases(diffs),
    decreases diffs.len(),
{
    if k == diffs.len() {
        assert(diffs.take(k) =~= diffs);
    } else {
        assert(diffs.drop_last().take(k) =~= diffs.take(k));
        lemma_total_bases_prefix(diffs.drop_last(), k);
    }
}

/// Counts the positions that the diffs cover between them, or gives `None`
/// where the count does not fit the machine.
pub fn checked_total_bases(diffs: &[MapleDiff]) -> (total: Option<usize>)
    ensures
        match total {
            Some(count) => count == total_bases(diffs@),
            None => total_bases(diffs@) > usize::MAX,
        },
{
    let mut count: usize = 0;
    let mut i: usize = 0;
    while i < diffs.len()
        invariant
            i <= diffs.len(),
            count == total_bases(diffs@.take(i as int)),
        decreases diffs.len() - i,
    {
        assert(diffs@.take(i + 1).drop_last() =~= diffs@.take(i as int));
        match count.checked_add(diffs[i].length) {
            Some(sum) => {
                count = sum;
            },
            None => {
                proof {
                    lemma_total_bases_prefix(diffs@, i + 1);
                }
                return None;
            },
        }
        i = i + 1;
    }
    assert(diffs@.take(i as int) =~= diffs@);
    Some(count)
}

/// Counts the positions that the missing ranges cover between them.
pub fn md_total_bases(missing: &[MapleDiff]) -> (total: usize)
    requires
        total_bases(missing@) <= usize::MAX,
    ensures
        total == total_bases(missing@),
{
    let mut total: usize = 0;
    let mut i: usize = 0;
    while i < missing.len()
        invariant
            i <= missing.len(),
            total == total_bases(missing@.take(i as int)),
            total_bases(missing@) <= usize::MAX,
        decreases missing.len() - i,
    {
        assert(missing@.take(i + 1).drop_last() =~= missing@.take(i as int));
        proof {
            lemma_total_bases_prefix(missing@, i + 1);
        }
        total = total + missing[i].length;
        i = i + 1;
    }
    assert(missing@.take(i as int) =~= missing@);
    total
}

/// Tells whether a sample is left out for want of known bases.
pub fn has_too_few_real(
    alignment_start: usize,
    alignment_end: usize,
    missing: &[MapleDiff],
    min_real: usize,
) -> (r: bool)
    ensures
        r == too_few_real(alignment_start, alignment_end, total_bases(missing@), min_real),
{
    if min_real == 0 {
        return false;
    }
    match checked_total_bases(missing) {
        None => true,
        Some(total) => {
            let aligned: u128 = alignment_end as u128 + 1;
            let wanted: u128 = min_real as u128 + total as u128 + alignment_start as u128;
            aligned < wanted
        },
    }
}

/// Brings the diffs of the four columns together, in the order in which
/// they are reported.
pub fn aggregate(
    substitutions: &Vec<MapleDiff>,
    deletions: &Vec<MapleDiff>,
    missing: &Vec<MapleDiff>,
    non_acgtns: &Vec<MapleDiff>,
) -> (all_diffs: Vec<MapleDiff>)
    ensures
        all_diffs@ == sorted_by_start(substitutions@ + deletions@ + missing@ + non_acgtns@),
        all_wf(substitutions@) && all_wf(deletions@) && all_wf(missing@) && all_wf(non_acgtns@)
            ==> all_wf(all_diffs@),
{
    let mut joined: Vec<MapleDiff> = Vec::new();
    append_diffs(&mut joined, substitutions);
    append_diffs(&mut joined, deletions);
    append_diffs(&mut joined, missing);
    append_diffs(&mut joined, non_acgtns);
    assert(joined@ =~= substitutions@ + deletions@ + missing@ + non_acgtns@);
    let all_diffs = sort_by_start(&joined);
    proof {
        lemma_sorted_by_start(joined@);
        if all_wf(substitutions@) && all_wf(deletions@) && all_wf(missing@) && all_wf(
            non_acgtns@,
        ) {
            assert(all_wf(joined@));
            assert forall|k: int| 0 <= k < all_diffs.len() implies (#[trigger] all_diffs@[k]).wf() by {
                let at = choose|at: int| 0 <= at < joined.len() && joined@[at] == all_diffs@[k];
                assert(joined@[at].wf());
            }
        }
    }
    all_diffs
}

fn append_diffs(all_diffs: &mut Vec<MapleDiff>, more: &Vec<MapleDiff>)
    ensures
        final(all_diffs)@ == old(all_diffs)@ + more@,
{
    let mut i: usize = 0;
    while i < more.len()
        invariant
            i <= more.len(),
            all_diffs@ == old(all_diffs)@ + more@.take(i as int),
        decreases more.len() - i,
    {
        all_diffs.push(more[i]);
        assert(all_diffs@ =~= old(all_diffs)@ + more@.take(i + 1));
        i = i + 1;
    }
    assert(more@.take(i as int) =~= more@);
}

/// Appends to `out` the lines for the diffs of `diffs`, in order, each
/// less what `mask_tree` masks.
pub fn print_diffs(out: &mut String, diffs: &Vec<MapleDiff>, mask_tree: &Option<MaskIndex>)
    requires
        all_wf(diffs@),
    ensures
        final(out)@ == old(out)@ + diffs_lines(diffs@, *mask_tree),
{
    let mut i: usize = 0;
    while i < diffs.len()
        invariant
            i <= diffs.len(),
            all_wf(diffs@),
            out@ == old(out)@ + diffs_lines(diffs@.take(i as int), *mask_tree),
        decreases diffs.len() - i,
    {
        let diff = diffs[i];
        assert(diff.wf());
        assert(diffs@.take(i + 1).drop_last() =~= diffs@.take(i as int));
        print_one_masked(out, diff.t_start, diff.q_base, diff.length, mask_tree);
        assert(out@ =~= old(out)@ + diffs_lines(diffs@.take(i + 1), *mask_tree));
        i = i + 1;
    }
    assert(diffs@.take(i as int) =~= diffs@);
}

/// Appends to `out` what is written for a sample that is reported.
pub fn print_sample(
    out: &mut String,
    name: &str,
    alignment_start: usize,
    alignment_end: usize,
    ref_len: usize,
    diffs: &Vec<MapleDiff>,
    mask_tree: &Option<MaskIndex>,
)
    requires
        all_wf(diffs@),
    ensures
        final(out)@ == old(out)@ + sample_text(
            name@,
            alignment_start,
            alignment_end,
            ref_len,
            diffs@,
            *mask_tree,
        ),
{
    out.push('>');
    out.append(name);
    out.push('\n');
    if alignment_start > 1 {
        print_one_masked(out, 0, 'n', alignment_start - 1, mask_tree);
    }
    print_diffs(out, diffs, mask_tree);
    if ref_len > 0 && alignment_end < ref_len {
        print_one_masked(out, alignment_end, 'n', ref_len - alignment_end, mask_tree);
    }
    assert(out@ =~= old(out)@ + sample_text(
        name@,
        alignment_start,
        alignment_end,
        ref_len,
        diffs@,
        *mask_tree,
    ));
}

/// Appends to `out` what is written for one row: nothing where the sample
/// is left out, else its header line and the lines of its diffs. Where the
/// row cannot be read, nothing is written and the reason is returned.
pub fn nextclade_to_maple_one_row(
    row: &TextMap,
    rename_hash: &Option<TextMap>,
    mask_tree: &Option<MaskIndex>,
    min_real: usize,
    max_substitutions: usize,
    ref_len: usize,
    out: &mut String,
) -> (r: Result<(), RowError>)
    ensures
        match row_outcome(row@, *rename_hash, *mask_tree, min_real, max_substitutions, ref_len) {
            Ok(text) => r is Ok && final(out)@ == old(out)@ + text,
            Err(e) => r == Err::<(), RowError>(e) && final(out)@ == old(out)@,
        },
{
    let start_text = match get_column(row, Column::AlignmentStart) {
        Ok(text) => text,
        Err(e) => {
            return Err(e);
        },
    };
    if start_text.is_empty() {
        assert(out@ =~= old(out)@ + Seq::<char>::empty());
        return Ok(());
    }
    let name_in = match get_column(row, Column::SeqName) {
        Ok(text) => text,
        Err(e) => {
            return Err(e);
        },
    };
    let name = match maybe_lookup_name(rename_hash, name_in) {
        Some(name) => name,
        None => {
            assert(out@ =~= old(out)@ + Seq::<char>::empty());
            return Ok(());
        },
    };
    let alignment_start = match get_column_usize(row, Column::AlignmentStart) {
        Ok(value) => value,
        Err(e) => {
            return Err(e);
        },
    };
    let alignment_end = match get_column_usize(row, Column::AlignmentEnd) {
        Ok(value) => value,
        Err(e) => {
            return Err(e);
        },
    };
    let substitutions = match get_column_diffs(row, Column::Substitutions, Notation::Substitution) {
        Ok(diffs) => diffs,
        Err(e) => {
            return Err(e);
        },
    };
    if max_substitutions > 0 && substitutions.len() > max_substitutions {
        assert(out@ =~= old(out)@ + Seq::<char>::empty());
        return Ok(());
    }
    let deletions = match get_column_diffs(row, Column::Deletions, Notation::Deletion) {
        Ok(diffs) => diffs,
        Err(e) => {
            return Err(e);
        },
    };
    let missing = match get_column_diffs(row, Column::Missing, Notation::Missing) {
        Ok(diffs) => diffs,
        Err(e) => {
            return Err(e);
        },
    };
    let non_acgtns = match get_column_diffs(row, Column::NonAcgtns, Notation::NonAcgtn) {
        Ok(diffs) => diffs,
        Err(e) => {
            return Err(e);
        },
    };
    if has_too_few_real(alignment_start, alignment_end, missing.as_slice(), min_real) {
        assert(out@ =~= old(out)@ + Seq::<char>::empty());
        return Ok(());
    }
    let all_diffs = aggregate(&substitutions, &deletions, &missing, &non_acgtns);
    print_sample(out, name, alignment_start, alignment_end, ref_len, &all_diffs, mask_tree);
    Ok(())
}

/// Appends to `out` what is written for the rows of `rows`, one after the
/// other, with the thresholds and the reference length of `config`. It
/// stops at the first row that cannot be read and returns that row's index
/// and the reason; what was written for the rows before it stays.
pub fn nextclade_to_maple(
    config: &Config,
    rows: &Vec<TextMap>,
    rename_hash: &Option<TextMap>,
    mask_tree: &Option<MaskIndex>,
    out: &mut String,
) -> (r: Result<(), RowFailure>)
    ensures
        final(out)@ == old(out)@ + rows_outcome(
            rows@,
            *rename_hash,
            *mask_tree,
            config.min_real,
            config.max_substitutions,
            config.ref_len,
        ).0,
        r == match rows_outcome(
            rows@,
            *rename_hash,
            *mask_tree,
            config.min_real,
            config.max_substitutions,
            config.ref_len,
        ).1 {
            None => Ok::<(), RowFailure>(()),
            Some(failure) => Err(failure),
        },
{
    let mut i: usize = 0;
    assert(out@ =~= old(out)@ + Seq::<char>::empty());
    while i < rows.len()
        invariant
            i <= rows.len(),
            rows_outcome(
                rows@.take(i as int),
                *rename_hash,
                *mask_tree,
                config.min_real,
                config.max_substitutions,
                config.ref_len,
            ).1 is None,
            out@ == old(out)@ + rows_outcome(
                rows@.take(i as int),
                *rename_hash,
                *mask_tree,
                config.min_real,
                config.max_substitutions,
                config.ref_len,
            ).0,
        decreases rows.len() - i,
    {
        let ghost sofar = out@;
        proof {
            lemma_rows_step(
                rows@,
                i as int,
                *rename_hash,
                *mask_tree,
                config.min_real,
                config.max_substitutions,
                config.ref_len,
            );
        }
        let step = nextclade_to_maple_one_row(
            &rows[i],
            rename_hash,
            mask_tree,
            config.min_real,
            config.max_substitutions,
            config.ref_len,
            out,
        );
        match step {
            Ok(()) => {
                proof {
                    let before = rows_outcome(
                        rows@.take(i as int),
                        *rename_hash,
                        *mask_tree,
                        config.min_real,
                        config.max_substitutions,
                        config.ref_len,
                    ).0;
                    let text = out@.subrange(sofar.len() as int, out@.len() as int);
                    assert(out@ =~= old(out)@ + (before + text));
                }
            },
            Err(e) => {
                proof {
                    lemma_rows_stop(
                        rows@,
                        i + 1,
                        *rename_hash,
                        *mask_tree,
                        config.min_real,
                        config.max_substitutions,
                        config.ref_len,
                    );
                }
                return Err(RowFailure { row: i, error: e });
            },
        }
        i = i + 1;
    }
    assert(rows@.take(i as int) =~= rows@);
    Ok(())
}

/// One row more: where the rows before it could be read, what is written
/// is what was written for them and then for the row, and a failure is the
/// row's own.
pub proof fn lemma_rows_step(
    rows: Seq<TextMap>,
    k: int,
    rename_hash: Option<TextMap>,
    mask_tree: Option<MaskIndex>,
    min_real: usize,
    max_substitutions: usize,
    ref_len: usize,
)
    requires
        0 <= k < rows.len(),
        rows_outcome(rows.take(k), rename_hash, mask_tree, min_real, max_substitutions, ref_len).1
            is None,
    ensures
        rows_outcome(rows.take(k + 1), rename_hash, mask_tree, min_real, max_substitutions, ref_len)
            == match row_outcome(
            rows[k]@,
            rename_hash,
            mask_tree,
            min_real,
            max_substitutions,
            ref_len,
        ) {
            Ok(text) => (
                rows_outcome(
                    rows.take(k),
                    rename_hash,
                    mask_tree,
                    min_real,
                    max_substitutions,
                    ref_len,
                ).0 + text,
                None::<RowFailure>,
            ),
            Err(error) => (
                rows_outcome(
                    rows.take(k),
                    rename_hash,
                    mask_tree,
                    min_real,
                    max_substitutions,
                    ref_len,
                ).0,
                Some(RowFailure { row: k as usize, error }),
            ),
        },
{
    assert(rows.take(k + 1).drop_last() =~= rows.take(k));
    assert(rows.take(k + 1).last() == rows[k]);
}

/// Rows after one that cannot be read change nothing: the outcome of the
/// whole is that of the rows up to it.
pub proof fn lemma_rows_stop(
    rows: Seq<TextMap>,
    k: int,
    rename_hash: Option<TextMap>,
    mask_tree: Option<MaskIndex>,
    min_real: usize,
    max_substitutions: usize,
    ref_len: usize,
)
    requires
        0 <= k <= rows.len(),
        rows_outcome(rows.take(k), rename_hash, mask_tree, min_real, max_substitutions, ref_len).1
            is Some,
    ensures
        rows_outcome(rows, rename_hash, mask_tree, min_real, max_substitutions, ref_len)
            == rows_outcome(
            rows.take(k),
            rename_hash,
            mask_tree,
            min_real,
            max_substitutions,
            ref_len,
        ),
    decreases rows.len(),
{
    if k == rows.len() {
        assert(rows.take(k) =~= rows);
    } else {
        assert(rows.drop_last().take(k) =~= rows.take(k));
        lemma_rows_stop(
            rows.drop_last(),
            k,
            rename_hash,
            mask_tree,
            min_real,
            max_substitutions,
            ref_len,
        );
    }
}

/// Nothing is written for a row whose alignment start is empty.
pub proof fn lemma_unaligned_row_writes_nothing(
    row: Map<Seq<char>, Seq<char>>,
    rename_hash: Option<TextMap>,
    mask_tree: Option<MaskIndex>,
    min_real: usize,
    max_substitutions: usize,
    ref_len: usize,
)
    requires
        column_text(row, Column::AlignmentStart) == Ok::<Seq<char>, RowError>(Seq::empty()),
    ensures
        row_outcome(row, rename_hash, mask_tree, min_real, max_substitutions, ref_len) == Ok::<
            Seq<char>,
            RowError,
        >(Seq::empty()),
{
}

/// Nothing is written for an aligned sample whose name the table of new
/// names does not hold.
pub proof fn lemma_pruned_row_writes_nothing(
    row: Map<Seq<char>, Seq<char>>,
    table: TextMap,
    mask_tree: Option<MaskIndex>,
    min_real: usize,
    max_substitutions: usize,
    ref_len: usize,
)
    requires
        row.contains_key(Column::AlignmentStart.name()),
        row[Column::AlignmentStart.name()].len() > 0,
        row.contains_key(Column::SeqName.name()),
        !table@.contains_key(row[Column::SeqName.name()]),
    ensures
        row_outcome(row, Some(table), mask_tree, min_real, max_substitutions, ref_len) == Ok::<
            Seq<char>,
            RowError,
        >(Seq::empty()),
{
}

/// Nothing is written for a sample with more substitutions than the limit
/// that is set, whatever its other columns hold.
pub proof fn lemma_row_over_limit_writes_nothing(
    row: Map<Seq<char>, Seq<char>>,
    name: Seq<char>,
    mask_tree: Option<MaskIndex>,
    min_real: usize,
    max_substitutions: usize,
    ref_len: usize,
)
    requires
        column_number(row, Column::AlignmentStart) is Ok,
        column_number(row, Column::AlignmentEnd) is Ok,
        column_diffs(row, Column::Substitutions, Notation::Substitution) matches Ok(substitutions)
            && max_substitutions > 0 && substitutions.len() > max_substitutions,
    ensures
        named_row_outcome(row, name, mask_tree, min_real, max_substitutions, ref_len) == Ok::<
            Seq<char>,
            RowError,
        >(Seq::empty()),
{
}

/// For a sample without diffs that is aligned from the first position to the
/// last of the reference, the header line is all that is written.
pub proof fn lemma_whole_reference_is_header_only(
    name: Seq<char>,
    ref_len: usize,
    mask_tree: Option<MaskIndex>,
)
    ensures
        sample_text(name, 1, ref_len, ref_len, Seq::empty(), mask_tree) == seq!['>'] + name
            + seq!['\n'],
{
    assert(sample_text(name, 1, ref_len, ref_len, Seq::empty(), mask_tree) =~= seq!['>'] + name
        + seq!['\n']);
}

/// A row whose ambiguous bases cannot be read is an error whatever the
/// minimum of known bases: the columns are read before the minimum is
/// applied.
pub proof fn lemma_columns_are_read_before_the_minimum(
    row: Map<Seq<char>, Seq<char>>,
    name: Seq<char>,
    mask_tree: Option<MaskIndex>,
    min_real: usize,
    max_substitutions: usize,
    ref_len: usize,
)
    requires
        column_number(row, Column::AlignmentStart) is Ok,
        column_number(row, Column::AlignmentEnd) is Ok,
        column_diffs(row, Column::Substitutions, Notation::Substitution) matches Ok(substitutions)
            && !too_many_substitutions(substitutions.len(), max_substitutions),
        column_diffs(row, Column::Deletions, Notation::Deletion) is Ok,
        column_diffs(row, Column::Missing, Notation::Missing) is Ok,
        column_diffs(row, Column::NonAcgtns, Notation::NonAcgtn) is Err,
    ensures
        named_row_outcome(row, name, mask_tree, min_real, max_substitutions, ref_len) == Err::<
            Seq<char>,
            RowError,
        >(column_diffs(row, Column::NonAcgtns, Notation::NonAcgtn)->Err_0),
{
}

} // verus!
