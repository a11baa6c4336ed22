//! The four notations in which a sample's differences arrive, each a list
//! of tokens separated by commas with 1-based positions, and the diffs that
//! they stand for.

use vstd::prelude::*;
use crate::decimal::{parse_usize_in, parse_usize_spec};
use crate::diff::MapleDiff;
use crate::text::{chars_of, find_char, first_at, string_of};

verus! {

/// Why a token does not stand for a diff.
#[derive(Clone, Copy, Debug, PartialEq, Eq, Structural)]
pub enum NotationError {
    /// A substitution does not start and end with one of A, C, G, T, in
    /// either case.
    InvalidBase,
    /// A position is not an unsigned decimal number that fits the machine.
    InvalidPosition,
    /// A token for an ambiguous base has no `:` between base and position.
    MissingSeparator,
    /// A token for an ambiguous base gives no base before the `:`.
    MissingBase,
    /// A position is 0, where positions count from 1.
    ZeroPosition,
    /// A range ends before it starts.
    ReversedRange,
}

/// The kind of a notation.
#[derive(Clone, Copy, Debug, PartialEq, Eq, Structural)]
pub enum Notation {
    /// `<ref base><position><alt base>`, as in `C241T`.
    Substitution,
    /// `<start>-<end>` or `<position>`, as in `123-125`: deleted positions.
    Deletion,
    /// `<start>-<end>` or `<position>`, as in `8-216`: unknown positions.
    Missing,
    /// `<base>:<start>-<end>` or `<base>:<position>`, as in `Y:4321`.
    NonAcgtn,
}

/// What `str::to_lowercase` makes of the text `s`.
pub uninterp spec fn lowercase_of(s: Seq<char>) -> Seq<char>;

/// `str::to_lowercase`: the lowercase equivalent of `s`, which depends on
/// the characters of `s` alone.
#[verifier::external_body]
fn to_lowercase(s: &str) -> (lowered: String)
    ensures
        lowered@ == lowercase_of(s@),
{
    s.to_lowercase()
}

/// The symbol for the base `c`: its lowercase letter, where `c` is one of
/// A, C, G, T in either case.
pub open spec fn base_symbol(c: char) -> Option<char> {
    if c == 'A' || c == 'a' {
        Some('a')
    } else if c == 'C' || c == 'c' {
        Some('c')
    } else if c == 'G' || c == 'g' {
        Some('g')
    } else if c == 'T' || c == 't' {
        Some('t')
    } else {
        None
    }
}

/// What `parse_base` makes of a character that may be wanting.
pub open spec fn parse_base_spec(base: Option<char>) -> Result<char, NotationError> {
    match base {
        Some(c) => match base_symbol(c) {
            Some(symbol) => Ok(symbol),
            None => Err(NotationError::InvalidBase),
        },
        None => Err(NotationError::InvalidBase),
    }
}

/// The diff with the symbol `symbol` at the 1-based positions from `start`
/// to `end`, both included.
pub open spec fn run_diff(start: usize, end: usize, symbol: char) -> Result<
    MapleDiff,
    NotationError,
> {
    if start == 0 {
        Err(NotationError::ZeroPosition)
    } else if end < start {
        Err(NotationError::ReversedRange)
    } else {
        Ok(
            MapleDiff {
                t_start: (start - 1) as usize,
                length: (end - start + 1) as usize,
                q_base: symbol,
            },
        )
    }
}

/// The first and the last position that `s` names: `<start>-<end>`, split at
/// its first `-`, or one position, which is both.
pub open spec fn parse_positions(s: Seq<char>) -> Result<(usize, usize), NotationError> {
    let dash = first_at(s, '-');
    if dash < s.len() {
        match parse_usize_spec(s.take(dash)) {
            None => Err(NotationError::InvalidPosition),
            Some(start) => match parse_usize_spec(s.skip(dash + 1)) {
                None => Err(NotationError::InvalidPosition),
                Some(end) => Ok((start, end)),
            },
        }
    } else {
        match parse_usize_spec(s) {
            None => Err(NotationError::InvalidPosition),
            Some(position) => Ok((position, position)),
        }
    }
}

/// The diff for a token that names positions only, with the symbol given.
pub open spec fn parse_run(token: Seq<char>, symbol: char) -> Result<MapleDiff, NotationError> {
    match parse_positions(token) {
        Err(e) => Err(e),
        Ok(positions) => run_diff(positions.0, positions.1, symbol),
    }
}

/// The diff for a substitution: the reference base, which is only checked,
/// the position, and the base read there, whose symbol the diff carries.
pub open spec fn parse_substitution(token: Seq<char>) -> Result<MapleDiff, NotationError> {
    if token.len() == 0 || base_symbol(token[0]) is None {
        Err(NotationError::InvalidBase)
    } else if token.len() < 2 {
        Err(NotationError::InvalidPosition)
    } else {
        match parse_usize_spec(token.subrange(1, token.len() - 1)) {
            None => Err(NotationError::InvalidPosition),
            Some(position) => match base_symbol(token.last()) {
                None => Err(NotationError::InvalidBase),
                Some(symbol) => run_diff(position, position, symbol),
            },
        }
    }
}

/// The diff at the positions from `start` to `end` for an ambiguous base
/// whose lowercase writing is `lowered`: its symbol is the first character
/// of that.
pub open spec fn non_acgtn_diff_spec(start: usize, end: usize, lowered: Seq<char>) -> Result<
    MapleDiff,
    NotationError,
> {
    if lowered.len() == 0 {
        Err(NotationError::MissingBase)
    } else {
        run_diff(start, end, lowered[0])
    }
}

/// The diff for an ambiguous base: the base before the first `:`, the
/// positions after it.
pub open spec fn parse_non_acgtn(token: Seq<char>) -> Result<MapleDiff, NotationError> {
    let colon = first_at(token, ':');
    if colon >= token.len() {
        Err(NotationError::MissingSeparator)
    } else {
        match parse_positions(token.skip(colon + 1)) {
            Err(e) => Err(e),
            Ok(positions) => non_acgtn_diff_spec(
                positions.0,
                positions.1,
                lowercase_of(token.take(colon)),
            ),
        }
    }
}

/// The diff that one token of the notation `kind` stands for.
pub open spec fn parse_token(kind: Notation, token: Seq<char>) -> Result<MapleDiff, NotationError> {
    match kind {
        Notation::Substitution => parse_substitution(token),
        Notation::Deletion => parse_run(token, '-'),
        Notation::Missing => parse_run(token, 'n'),
        Notation::NonAcgtn => parse_non_acgtn(token),
    }
}

/// `diffs` before what `later` holds, or the error that `later` is.
pub open spec fn preceded_by(
    diffs: Seq<MapleDiff>,
    later: Result<Seq<MapleDiff>, NotationError>,
) -> Result<Seq<MapleDiff>, NotationError> {
    match later {
        Ok(more) => Ok(diffs + more),
        Err(e) => Err(e),
    }
}

/// The diffs that the text `s` of the notation `kind` stands for: one for
/// each token between commas, in order, empty tokens passed over; or the
/// error of the first token that stands for none.
pub open spec fn parse_list(kind: Notation, s: Seq<char>) -> Result<Seq<MapleDiff>, NotationError>
    decreases s.len(),
{
    let comma = first_at(s, ',');
    let token = s.take(comma);
    let later = if 0 <= comma < s.len() {
        parse_list(kind, s.skip(comma + 1))
    } else {
        Ok(Seq::empty())
    };
    if token.len() == 0 {
        later
    } else {
        match parse_token(kind, token) {
            Err(e) => Err(e),
            Ok(diff) => preceded_by(seq![diff], later),
        }
    }
}

/// The outcome of an executable parser, its diffs as a sequence.
pub open spec fn outcome(r: Result<Vec<MapleDiff>, NotationError>) -> Result<
    Seq<MapleDiff>,
    NotationError,
> {
    match r {
        Ok(diffs) => Ok(diffs@),
        Err(e) => Err(e),
    }
}

/// Whether every diff of `diffs` is well formed.
pub open spec fn all_wf(diffs: Seq<MapleDiff>) -> bool {
    forall|k: int| 0 <= k < diffs.len() ==> (#[trigger] diffs[k]).wf()
}

fn to_symbol(c: char) -> (r: Option<char>)
    ensures
        r == base_symbol(c),
{
    if c == 'A' || c == 'a' {
        Some('a')
    } else if c == 'C' || c == 'c' {
        Some('c')
    } else if c == 'G' || c == 'g' {
        Some('g')
    } else if c == 'T' || c == 't' {
        Some('t')
    } else {
        None
    }
}

/// Gives the symbol for a base of a substitution, or the error where the
/// character is wanting or is none of A, C, G, T.
pub fn parse_base(base: Option<char>) -> (r: Result<char, NotationError>)
    ensures
        r == parse_base_spec(base),
{
    match base {
        Some(c) => match to_symbol(c) {
            Some(symbol) => Ok(symbol),
            None => Err(NotationError::InvalidBase),
        },
        None => Err(NotationError::InvalidBase),
    }
}

/// Reads `s` as a position: an optional `+`, then decimal digits.
pub fn parse_usize(s: &str) -> (r: Result<usize, NotationError>)
    ensures
        r == match parse_usize_spec(s@) {
            Some(value) => Ok::<usize, NotationError>(value),
            None => Err(NotationError::InvalidPosition),
        },
{
    let chars = chars_of(s);
    assert(chars@.subrange(0, chars.len() as int) =~= s@);
    match parse_usize_in(&chars, 0, chars.len()) {
        Some(value) => Ok(value),
        None => Err(NotationError::InvalidPosition),
    }
}

fn make_run(start: usize, end: usize, symbol: char) -> (r: Result<MapleDiff, NotationError>)
    ensures
        r == run_diff(start, end, symbol),
        r matches Ok(diff) ==> diff.wf(),
{
    if start == 0 {
        Err(NotationError::ZeroPosition)
    } else if end < start {
        Err(NotationError::ReversedRange)
    } else {
        Ok(MapleDiff { t_start: start - 1, length: end - start + 1, q_base: symbol })
    }
}

fn positions_in(chars: &Vec<char>, from: usize, to: usize) -> (r: Result<
    (usize, usize),
    NotationError,
>)
    requires
        from <= to <= chars.len(),
    ensures
        r == parse_positions(chars@.subrange(from as int, to as int)),
{
    let ghost s = chars@.subrange(from as int, to as int);
    let dash = find_char(chars, from, to, '-');
    if dash < to {
        assert(s.take(dash - from) =~= chars@.subrange(from as int, dash as int));
        assert(s.skip(dash - from + 1) =~= chars@.subrange(dash + 1, to as int));
        let start = match parse_usize_in(chars, from, dash) {
            Some(value) => value,
            None => {
                return Err(NotationError::InvalidPosition);
            },
        };
        let end = match parse_usize_in(chars, dash + 1, to) {
            Some(value) => value,
            None => {
                return Err(NotationError::InvalidPosition);
            },
        };
        Ok((start, end))
    } else {
        match parse_usize_in(chars, from, to) {
            Some(position) => Ok((position, position)),
            None => Err(NotationError::InvalidPosition),
        }
    }
}

fn run_in(chars: &Vec<char>, from: usize, to: usize, symbol: char) -> (r: Result<
    MapleDiff,
    NotationError,
>)
    requires
        from <= to <= chars.len(),
    ensures
        r == parse_run(chars@.subrange(from as int, to as int), symbol),
        r matches Ok(diff) ==> diff.wf(),
{
    match positions_in(chars, from, to) {
        Err(e) => Err(e),
        Ok(positions) => make_run(positions.0, positions.1, symbol),
    }
}

fn substitution_in(chars: &Vec<char>, from: usize, to: usize) -> (r: Result<
    MapleDiff,
    NotationError,
>)
    requires
        from < to <= chars.len(),
    ensures
        r == parse_substitution(chars@.subrange(from as int, to as int)),
        r matches Ok(diff) ==> diff.wf(),
{
    let ghost token = chars@.subrange(from as int, to as int);
    assert(token[0] == chars@[from as int]);
    assert(token.last() == chars@[to - 1]);
    if to_symbol(chars[from]).is_none() {
        return Err(NotationError::InvalidBase);
    }
    if to - from < 2 {
        return Err(NotationError::InvalidPosition);
    }
    assert(token.subrange(1, token.len() - 1) =~= chars@.subrange(from + 1, to - 1));
    let position = match parse_usize_in(chars, from + 1, to - 1) {
        Some(value) => value,
        None => {
            return Err(NotationError::InvalidPosition);
        },
    };
    match to_symbol(chars[to - 1]) {
        None => Err(NotationError::InvalidBase),
        Some(symbol) => make_run(position, position, symbol),
    }
}

/// Gives the diff at the 1-based positions from `start` to `end` for an
/// ambiguous base whose lowercase writing is `lowered`.
pub fn non_acgtn_diff(start: usize, end: usize, lowered: &str) -> (r: Result<
    MapleDiff,
    NotationError,
>)
    ensures
        r == non_acgtn_diff_spec(start, end, lowered@),
        r matches Ok(diff) ==> diff.wf(),
{
    if lowered.is_empty() {
        Err(NotationError::MissingBase)
    } else {
        make_run(start, end, lowered.get_char(0))
    }
}

fn non_acgtn_in(chars: &Vec<char>, from: usize, to: usize) -> (r: Result<MapleDiff, NotationError>)
    requires
        from <= to <= chars.len(),
    ensures
        r == parse_non_acgtn(chars@.subrange(from as int, to as int)),
        r matches Ok(diff) ==> diff.wf(),
{
    let ghost token = chars@.subrange(from as int, to as int);
    let colon = find_char(chars, from, to, ':');
    if colon >= to {
        return Err(NotationError::MissingSeparator);
    }
    assert(token.take(colon - from) =~= chars@.subrange(from as int, colon as int));
    assert(token.skip(colon - from + 1) =~= chars@.subrange(colon + 1, to as int));
    match positions_in(chars, colon + 1, to) {
        Err(e) => Err(e),
        Ok(positions) => {
            let base = string_of(chars, from, colon);
            let lowered = to_lowercase(base.as_str());
            non_acgtn_diff(positions.0, positions.1, lowered.as_str())
        },
    }
}

fn token_in(kind: Notation, chars: &Vec<char>, from: usize, to: usize) -> (r: Result<
    MapleDiff,
    NotationError,
>)
    requires
        from < to <= chars.len(),
    ensures
        r == parse_token(kind, chars@.subrange(from as int, to as int)),
        r matches Ok(diff) ==> diff.wf(),
{
    match kind {
        Notation::Substitution => substitution_in(chars, from, to),
        Notation::Deletion => run_in(chars, from, to, '-'),
        Notation::Missing => run_in(chars, from, to, 'n'),
        Notation::NonAcgtn => non_acgtn_in(chars, from, to),
    }
}

/// Reads `text` in the notation `kind`.
pub fn parse_notation(kind: Notation, text: &str) -> (r: Result<Vec<MapleDiff>, NotationError>)
    ensures
        outcome(r) == parse_list(kind, text@),
        r matches Ok(diffs) ==> all_wf(diffs@),
{
    let chars = chars_of(text);
    let n = chars.len();
    let mut diffs: Vec<MapleDiff> = Vec::new();
    let mut from: usize = 0;
    assert(chars@.skip(0) =~= text@);
    loop
        invariant
            from <= n == chars.len(),
            chars@ == text@,
            all_wf(diffs@),
            parse_list(kind, text@) == preceded_by(diffs@, parse_list(kind, chars@.skip(from as int))),
        decreases n - from,
    {
        let ghost todo = chars@.skip(from as int);
        let ghost before = diffs@;
        assert(todo =~= chars@.subrange(from as int, n as int));
        let comma = find_char(&chars, from, n, ',');
        assert(todo.take(comma - from) =~= chars@.subrange(from as int, comma as int));
        if comma < n {
            assert(todo.skip(comma - from + 1) =~= chars@.skip(comma + 1));
        }
        if comma > from {
            match token_in(kind, &chars, from, comma) {
                Err(e) => {
                    return Err(e);
                },
                Ok(diff) => {
                    diffs.push(diff);
                    proof {
                        if comma < n {
                            let later = parse_list(kind, chars@.skip(comma + 1));
                            if later is Ok {
                                assert(before + (seq![diff] + later->Ok_0) =~= diffs@
                                    + later->Ok_0);
                            }
                        } else {
                            assert(before + (seq![diff] + Seq::<MapleDiff>::empty()) =~= diffs@);
                        }
                    }
                },
            }
        } else {
            proof {
                if comma >= n {
                    assert(before + Seq::<MapleDiff>::empty() =~= diffs@);
                }
            }
        }
        if comma >= n {
            return Ok(diffs);
        }
        from = comma + 1;
    }
}

/// Reads the substitutions of a sample, as in `C241T,T670G,C897A`.
pub fn substitutions_to_maple(subs: &str) -> (r: Result<Vec<MapleDiff>, NotationError>)
    ensures
        outcome(r) == parse_list(Notation::Substitution, subs@),
        r matches Ok(diffs) ==> all_wf(diffs@),
{
    parse_notation(Notation::Substitution, subs)
}

/// Reads the deletions of a sample, as in `123-125,234-236,345`.
pub fn deletions_to_maple(deletions: &str) -> (r: Result<Vec<MapleDiff>, NotationError>)
    ensures
        outcome(r) == parse_list(Notation::Deletion, deletions@),
        r matches Ok(diffs) ==> all_wf(diffs@),
{
    parse_notation(Notation::Deletion, deletions)
}

/// Reads the missing ranges of a sample, as in `8-216,7201,26975-27040`.
pub fn missing_to_maple(missing: &str) -> (r: Result<Vec<MapleDiff>, NotationError>)
    ensures
        outcome(r) == parse_list(Notation::Missing, missing@),
        r matches Ok(diffs) ==> all_wf(diffs@),
{
    parse_notation(Notation::Missing, missing)
}

/// Reads the ambiguous bases of a sample, as in `Y:4321,Y:12846-12847`.
pub fn non_acgtns_to_maple(non_acgtns: &str) -> (r: Result<Vec<MapleDiff>, NotationError>)
    ensures
        outcome(r) == parse_list(Notation::NonAcgtn, non_acgtns@),
        r matches Ok(diffs) ==> all_wf(diffs@),
{
    parse_notation(Notation::NonAcgtn, non_acgtns)
}

} // verus!
