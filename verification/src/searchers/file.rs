//! The search of one file.

use crate::config::SearchConfig;
use crate::error::Error;
use crate::matcher::Matcher;
use crate::searchers::{matched_lines, summarize};
use crate::searchers::lemma_same_pattern_same_lines;
use crate::summary::{all_valid, lookup, single, Entries, SearchSummary};
use crate::utils::{lines_of, read_lines};
use regex::Error as RegexError;
use vstd::prelude::*;

verus! {

/// Whether the search of a path ends before anything is read: a symbolic
/// link is left alone unless links are followed.
pub open spec fn skips(follows_symlinks: bool, is_symlink: bool) -> bool {
    is_symlink && !follows_symlinks
}

/// The summary of a file that was read as `bytes` and is listed as `source`:
/// its lines with a match, each with its number in the file, counted from 1.
pub open spec fn file_summary(matcher: &Matcher, source: Seq<char>, bytes: Seq<u8>) -> Entries {
    single(source, matched_lines(matcher, lines_of(bytes), true))
}

/// A symbolic link that is followed is searched as the file it points to: it
/// is read as a regular file is, and what is found in the same bytes is the
/// same, listed under the one path and under the other.
pub proof fn lemma_followed_link(
    matcher: &Matcher,
    link: Seq<char>,
    target: Seq<char>,
    follows_symlinks: bool,
    bytes: Seq<u8>,
)
    ensures
        !skips(true, true),
        !skips(follows_symlinks, false),
        file_summary(matcher, link, bytes).len() == file_summary(matcher, target, bytes).len(),
        lookup(file_summary(matcher, link, bytes), link) == lookup(
            file_summary(matcher, target, bytes),
            target,
        ),
        link == target ==> file_summary(matcher, link, bytes) == file_summary(
            matcher,
            target,
            bytes,
        ),
{
}

/// The same search over the same bytes gives the same summary, also where the
/// pattern was compiled anew: sources, order, lines, numbers and matches are
/// the same.
pub proof fn lemma_search_repeats(
    pattern: Seq<char>,
    config: SearchConfig,
    first: &Matcher,
    second: &Matcher,
    source: Seq<char>,
    bytes: Seq<u8>,
)
    requires
        Matcher::compiled_under(pattern, config) == Ok::<regex::Regex, RegexError>(first.regex()),
        Matcher::compiled_under(pattern, config) == Ok::<regex::Regex, RegexError>(second.regex()),
    ensures
        file_summary(first, source, bytes) == file_summary(second, source, bytes),
{
    lemma_same_pattern_same_lines(first, second, lines_of(bytes), true);
}

/// What the search of a file does next, once it is known whether the path is
/// a symbolic link.
#[derive(Debug)]
pub enum FileStep {
    /// The search is over without a read, with this summary.
    Finished(SearchSummary),
    /// The file is to be opened, through the link if it is one, and read.
    Open,
}

/// Searches the file at one path.
#[derive(Debug)]
pub struct SingleFileSearcher<'conf> {
    path: String,
    config: &'conf SearchConfig,
}

impl<'conf> SingleFileSearcher<'conf> {
    /// The source under which the lines of the file are listed: its path.
    pub closed spec fn source(&self) -> Seq<char> {
        self.path@
    }

    /// Whether a symbolic link is read.
    pub closed spec fn follows_symlinks(&self) -> bool {
        self.config.follow_symlinks
    }

    /// A searcher for the file at `path`, under the options of `config`.
    pub fn new(path: String, config: &'conf SearchConfig) -> (searcher: Self)
        ensures
            searcher.source() == path@,
            searcher.follows_symlinks() == config.follow_symlinks,
    {
        SingleFileSearcher { path, config }
    }

    /// The path of the file.
    pub fn path(&self) -> (path: &str)
        ensures
            path@ == self.source(),
    {
        self.path.as_str()
    }

    /// Decides whether the file is read, so that a link that is not followed
    /// need not be opened. A symbolic link is left alone unless links are
    /// followed: its search is over at once and has found nothing, whatever
    /// the link points to.
    pub fn begin(&self, is_symlink: bool) -> (step: FileStep)
        ensures
            skips(self.follows_symlinks(), is_symlink) ==> (step matches FileStep::Finished(summary)
                && summary@.len() == 0),
            !skips(self.follows_symlinks(), is_symlink) ==> step is Open,
    {
        if is_symlink && !self.config.follow_symlinks {
            FileStep::Finished(SearchSummary::empty())
        } else {
            FileStep::Open
        }
    }

    /// Searches the file, given whether its path is a symbolic link and what
    /// opening it came to. A symbolic link that is not followed yields an
    /// empty summary, whatever `opened` holds. Of any other path: where it
    /// could not be opened, the search fails with the path and the cause;
    /// otherwise every line with a match is listed under the path, with its
    /// number in the file, counted from 1.
    pub fn search(
        &self,
        matcher: &Matcher,
        is_symlink: bool,
        opened: Result<Vec<u8>, std::io::Error>,
    ) -> (found: Result<SearchSummary, Error>)
        ensures
            skips(self.follows_symlinks(), is_symlink) ==> (found matches Ok(summary)
                && summary@.len() == 0),
            !skips(self.follows_symlinks(), is_symlink) ==> {
                &&& opened matches Ok(bytes) ==> (found matches Ok(summary) && summary@
                    == file_summary(matcher, self.source(), bytes@) && all_valid(summary@))
                &&& opened matches Err(cause) ==> (found matches Err(Error::Io(path, why))
                    && path@ == self.source() && why == cause)
            },
    {
        if is_symlink && !self.config.follow_symlinks {
            return Ok(SearchSummary::empty());
        }
        match opened {
            Ok(bytes) => {
                let lines = read_lines(bytes.as_slice());
                Ok(summarize(matcher, self.path.clone(), lines, true))
            },
            Err(cause) => Err(Error::Io(self.path.clone(), cause)),
        }
    }
}

} // verus!
