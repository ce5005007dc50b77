//! The search of standard input.

use crate::error::Error;
use crate::matcher::Matcher;
use crate::searchers::{lemma_unnumbered, matched_lines, summarize};
use crate::summary::{all_valid, single, SearchSummary};
use crate::utils::{lines_of, read_lines};
use vstd::prelude::*;
use vstd::string::StringExecFns;

verus! {

/// The source under which the lines of standard input are listed.
pub const STDIN_SOURCE: &'static str = "<stdin>";

/// Searches what was piped into the process.
#[derive(Debug)]
pub struct StdinSearcher;

impl StdinSearcher {
    /// A searcher for standard input. It has no options of its own.
    pub fn new() -> (searcher: Self) {
        StdinSearcher
    }

    /// Searches `input`, the bytes that standard input delivered. The lines
    /// with a match are listed under `STDIN_SOURCE`, and none of them has a
    /// number: a stream has no lines to come back to.
    pub fn search(&self, matcher: &Matcher, input: &[u8]) -> (found: Result<SearchSummary, Error>)
        ensures
            found matches Ok(summary) && summary@ == single(
                STDIN_SOURCE@,
                matched_lines(matcher, lines_of(input@), false),
            ) && all_valid(summary@),
            found matches Ok(summary) ==> forall|i: int, k: int|
                0 <= i < summary@.len() && 0 <= k < summary@[i].1.len() ==> (
                #[trigger] summary@[i].1[k]).line_number is None,
    {
        let lines = read_lines(input);
        let summary = summarize(matcher, String::from_str(STDIN_SOURCE), lines, false);
        assert forall|i: int, k: int|
            0 <= i < summary@.len() && 0 <= k < summary@[i].1.len() implies (
        #[trigger] summary@[i].1[k]).line_number is None by {
            lemma_unnumbered(matcher, lines_of(input@), k);
        }
        Ok(summary)
    }
}

impl Default for StdinSearcher {
    /// The same as `new`.
    fn default() -> (searcher: Self) {
        StdinSearcher
    }
}

} // verus!
