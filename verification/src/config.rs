//! The options of one invocation.

use vstd::prelude::*;

verus! {

/// Everything one invocation needs: what to look for, where, and how to
/// report it.
#[derive(Debug)]
pub struct Config {
    pub pattern: String,
    pub path: String,
    pub search: SearchConfig,
    pub output: OutputConfig,
}

/// How lines are matched and which files are read. The three switches are
/// independent: every combination is valid.
#[derive(Debug)]
pub struct SearchConfig {
    /// Fold case while matching.
    pub case_insensitive: bool,
    /// Read a file that is reached through a symbolic link.
    pub follow_symlinks: bool,
    /// Let a match begin and end only at word boundaries.
    pub exact_match: bool,
}

/// How a summary is reported.
#[derive(Debug)]
pub struct OutputConfig {
    /// Report the names of the sources only, not their lines.
    pub only_file_names: bool,
}

impl Default for SearchConfig {
    /// Every switch off.
    fn default() -> (config: Self)
        ensures
            !config.case_insensitive,
            !config.follow_symlinks,
            !config.exact_match,
    {
        SearchConfig { case_insensitive: false, follow_symlinks: false, exact_match: false }
    }
}

} // verus!
