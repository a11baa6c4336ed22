//! Converts per-sample alignment differences (substitutions, deletions,
//! missing and ambiguous ranges) into sparse diff-from-reference lines,
//! leaving out whatever falls inside masked regions of the reference.

pub mod config;
pub mod coverage;
pub mod decimal;
pub mod diff;
pub mod mask;
pub mod notation;
pub mod order;
pub mod row;
pub mod split;
pub mod table;
pub mod text;

pub use config::Config;
pub use diff::{print_one_diff, MapleDiff};
pub use mask::{ConfigurationError, MaskIndex};
pub use notation::{
    deletions_to_maple, missing_to_maple, non_acgtn_diff, non_acgtns_to_maple, parse_base,
    parse_notation, parse_usize, substitutions_to_maple, Notation, NotationError,
};
pub use order::sort_by_start;
pub use row::{
    aggregate, checked_total_bases, get_column, get_column_usize, has_too_few_real,
    md_total_bases, nextclade_to_maple, nextclade_to_maple_one_row, print_diffs, print_sample,
    Column, RowError, RowFailure,
};
pub use split::{print_one_masked, print_parts, split_diff};
pub use table::{maybe_lookup_name, TextMap};
