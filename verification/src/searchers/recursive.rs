//! The search of a directory tree.

use crate::config::SearchConfig;
use crate::error::Error;
use crate::searchers::file::SingleFileSearcher;
use vstd::prelude::*;
use walkdir::Error as WalkError;

verus! {

/// One entry of a directory tree, as the traversal found it.
#[derive(Debug)]
pub struct Visited {
    /// The path of the entry.
    pub path: String,
    /// Whether the path leads to a regular file, through links if need be.
    pub is_file: bool,
}

/// Searches every regular file below a directory.
#[derive(Debug)]
pub struct RecursiveSearcher<'conf> {
    path: String,
    config: &'conf SearchConfig,
}

impl<'conf> RecursiveSearcher<'conf> {
    /// The directory at which the traversal starts.
    pub closed spec fn root(&self) -> Seq<char> {
        self.path@
    }

    /// Whether symbolic links are followed: to directories by the traversal,
    /// to files by the search of each.
    pub closed spec fn follows_symlinks(&self) -> bool {
        self.config.follow_symlinks
    }

    /// A searcher for the tree below `path`, under the options of `config`.
    pub fn new(path: String, config: &'conf SearchConfig) -> (searcher: Self)
        ensures
            searcher.root() == path@,
            searcher.follows_symlinks() == config.follow_symlinks,
    {
        RecursiveSearcher { path, config }
    }

    /// The directory at which the traversal starts.
    pub fn path(&self) -> (path: &str)
        ensures
            path@ == self.root(),
    {
        self.path.as_str()
    }

    /// Whether the traversal descends into directories behind symbolic links.
    pub fn follow_links(&self) -> (follow: bool)
        ensures
            follow == self.follows_symlinks(),
    {
        self.config.follow_symlinks
    }

    /// Decides what is done with one step of the traversal. A failure of the
    /// traversal ends the whole search. A regular file is searched on its
    /// own, under the same options; any other entry is passed over.
    pub fn visit(&self, entry: Result<Visited, WalkError>) -> (next: Result<
        Option<SingleFileSearcher<'conf>>,
        Error,
    >)
        ensures
            entry matches Err(cause) ==> (next matches Err(Error::WalkDir(why)) && why == cause),
            entry matches Ok(seen) ==> (next matches Ok(file) && (if seen.is_file {
                file matches Some(searcher) && searcher.source() == seen.path@
                    && searcher.follows_symlinks() == self.follows_symlinks()
            } else {
                file is None
            })),
    {
        match entry {
            Err(cause) => Err(Error::WalkDir(cause)),
            Ok(seen) => if seen.is_file {
                Ok(Some(SingleFileSearcher::new(seen.path, self.config)))
            } else {
                Ok(None)
            },
        }
    }
}

} // verus!
