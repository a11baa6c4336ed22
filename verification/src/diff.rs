//! One difference between a sample and the reference, and the line that
//! reports it.

use vstd::prelude::*;
use crate::decimal::{decimal_digits, push_decimal};

verus! {

/// A run of `length` reference positions, from the 0-based `t_start` on, at
/// which the sample reads `q_base`: a lowercase base, `n` for unknown, or
/// `-` for deleted.
#[derive(Clone, Copy, Debug, PartialEq, Eq, Structural)]
pub struct MapleDiff {
    pub t_start: usize,
    pub length: usize,
    pub q_base: char,
}

impl MapleDiff {
    /// A diff covers at least one position and ends within the machine's
    /// range of positions.
    pub open spec fn wf(self) -> bool {
        self.length >= 1 && self.t_start + self.length <= usize::MAX
    }
}

/// Whether `q_base` marks a run, whose line carries its length.
pub open spec fn is_run_symbol(q_base: char) -> bool {
    q_base == '-' || q_base == 'n'
}

/// The line for one diff: the symbol, the 1-based start and, for a run, the
/// length, separated by tabs and closed by a newline.
pub open spec fn diff_line(t_start: usize, q_base: char, length: usize) -> Seq<char> {
    if is_run_symbol(q_base) {
        seq![q_base, '\t'] + decimal_digits((t_start + 1) as nat) + seq!['\t'] + decimal_digits(
            length as nat,
        ) + seq!['\n']
    } else {
        seq![q_base, '\t'] + decimal_digits((t_start + 1) as nat) + seq!['\n']
    }
}

/// The lines for the runs `parts`, each a start and a length, all with the
/// symbol `q_base`.
pub open spec fn part_lines(parts: Seq<(usize, usize)>, q_base: char) -> Seq<char>
    decreases parts.len(),
{
    if parts.len() == 0 {
        Seq::empty()
    } else {
        part_lines(parts.drop_last(), q_base) + diff_line(parts.last().0, q_base, parts.last().1)
    }
}

/// Appends the line for one diff to `out`.
pub fn print_one_diff(out: &mut String, t_start: usize, q_base: char, length: usize)
    requires
        t_start < usize::MAX,
    ensures
        final(out)@ == old(out)@ + diff_line(t_start, q_base, length),
{
    out.push(q_base);
    out.push('\t');
    push_decimal(out, t_start + 1);
    if q_base == '-' || q_base == 'n' {
        out.push('\t');
        push_decimal(out, length);
    }
    out.push('\n');
    assert(out@ =~= old(out)@ + diff_line(t_start, q_base, length));
}

} // verus!
