//! What the command line holds, before it becomes a `Config`.

use crate::config::{Config, OutputConfig, SearchConfig};
use vstd::prelude::*;
use vstd::std_specs::convert::FromSpecImpl;
use vstd::string::StringExecFns;

verus! {

/// The arguments of one invocation, as they were given.
#[derive(Debug)]
pub struct Args {
    /// A regular expression used for the search.
    pub pattern: String,
    /// A path to a file or directory to search in; the current directory
    /// where none is given.
    pub path: Option<String>,
    /// Print only the names of the files with a match.
    pub files_with_matches: bool,
    /// Match case insensitively.
    pub ignore_case: bool,
    /// Follow symbolic links.
    pub follow_symlinks: bool,
    /// Only match whole words.
    pub whole_words: bool,
}

/// The path that is searched where none is given: the current directory.
pub open spec fn default_path() -> Seq<char> {
    seq!['.']
}

impl Args {
    /// The path that these arguments ask for.
    pub open spec fn target(&self) -> Seq<char> {
        match self.path {
            Some(path) => path@,
            None => default_path(),
        }
    }
}

impl FromSpecImpl<Args> for Config {
    /// Two strings of the same text need not be the same value, and the
    /// default path is a string of its own: what `from` returns is therefore
    /// stated on `from` itself, field by field.
    open spec fn obeys_from_spec() -> bool {
        false
    }

    open spec fn from_spec(args: Args) -> Config {
        Config {
            pattern: args.pattern,
            path: match args.path {
                Some(path) => path,
                None => choose|here: String| here@ == default_path(),
            },
            search: SearchConfig {
                case_insensitive: args.ignore_case,
                follow_symlinks: args.follow_symlinks,
                exact_match: args.whole_words,
            },
            output: OutputConfig { only_file_names: args.files_with_matches },
        }
    }
}

impl From<Args> for Config {
    /// Sorts the arguments into the options of the search and those of the
    /// output, and fills in the path where none was given.
    fn from(args: Args) -> (config: Self)
        ensures
            config.pattern@ == args.pattern@,
            config.path@ == args.target(),
            config.search.case_insensitive == args.ignore_case,
            config.search.follow_symlinks == args.follow_symlinks,
            config.search.exact_match == args.whole_words,
            config.output.only_file_names == args.files_with_matches,
    {
        let path = match args.path {
            Some(path) => path,
            None => {
                proof {
                    reveal_strlit(".");
                }
                let here = String::from_str(".");
                assert(here@ =~= default_path());
                here
            },
        };
        Config {
            pattern: args.pattern,
            path,
            search: SearchConfig {
                case_insensitive: args.ignore_case,
                follow_symlinks: args.follow_symlinks,
                exact_match: args.whole_words,
            },
            output: OutputConfig { only_file_names: args.files_with_matches },
        }
    }
}

} // verus!
