//! What a run is asked to do.

use vstd::prelude::*;

verus! {

/// The settings of one run. An empty path stands for "not given"; a
/// threshold or a length of 0 for "not set".
pub struct Config {
    /// Where the samples are read from; standard input where empty.
    pub nextclade_file: String,
    /// Where the diffs are written to; standard output where empty.
    pub maple_file: String,
    /// The file of masked regions, if any.
    pub mask_bed_file: String,
    /// Samples with more substitutions than this are left out.
    pub max_substitutions: usize,
    /// Samples with fewer aligned, known bases than this are left out.
    pub min_real: usize,
    /// The length of the reference, where it is known.
    pub ref_len: usize,
    /// The file of new sample names, if any.
    pub rename_or_prune_file: String,
    /// Whether only the version is asked for.
    pub version: bool,
}

impl Default for Config {
    /// Nothing given and nothing set.
    fn default() -> (config: Config)
        ensures
            config.nextclade_file@.len() == 0,
            config.maple_file@.len() == 0,
            config.mask_bed_file@.len() == 0,
            config.max_substitutions == 0,
            config.min_real == 0,
            config.ref_len == 0,
            config.rename_or_prune_file@.len() == 0,
            !config.version,
    {
        Config {
            nextclade_file: String::new(),
            maple_file: String::new(),
            mask_bed_file: String::new(),
            max_substitutions: 0,
            min_real: 0,
            ref_len: 0,
            rename_or_prune_file: String::new(),
            version: false,
        }
    }
}

} // verus!
