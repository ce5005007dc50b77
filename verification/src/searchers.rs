//! The three ways to search: one file, a directory tree, standard input.
//!
//! A searcher holds the decisions of a search and reads nothing itself. Its
//! caller opens the files, walks the directories and hands over what it found.

pub mod file;
pub mod recursive;
pub mod stdin;

use crate::config::Config;
use crate::matcher::Matcher;
use crate::summary::{all_valid, lines_view, single, MatchedLine, MatchedLineView, SearchSummary};
use crate::utils::{text_of, texts};
pub use file::{FileStep, SingleFileSearcher};
pub use recursive::{RecursiveSearcher, Visited};
pub use stdin::StdinSearcher;
use vstd::prelude::*;

verus! {

/// The searcher of one invocation: exactly one of the three.
#[derive(Debug)]
pub enum Searcher<'conf> {
    /// What is piped into the process is searched.
    Stdin(StdinSearcher),
    /// One regular file is searched.
    SingleFile(SingleFileSearcher<'conf>),
    /// Every regular file below a directory is searched.
    Recursive(RecursiveSearcher<'conf>),
}

/// Chooses the searcher. Piped input wins over any path; otherwise a regular
/// file is searched alone, and anything else as the root of a tree.
pub fn select_searcher<'conf>(
    config: &'conf Config,
    stdin_piped: bool,
    path_is_file: bool,
) -> (chosen: Searcher<'conf>)
    ensures
        stdin_piped ==> chosen is Stdin,
        !stdin_piped && path_is_file ==> (chosen matches Searcher::SingleFile(searcher)
            && searcher.source() == config.path@ && searcher.follows_symlinks()
            == config.search.follow_symlinks),
        !stdin_piped && !path_is_file ==> (chosen matches Searcher::Recursive(searcher)
            && searcher.root() == config.path@ && searcher.follows_symlinks()
            == config.search.follow_symlinks),
{
    if stdin_piped {
        Searcher::Stdin(StdinSearcher::new())
    } else if path_is_file {
        Searcher::SingleFile(SingleFileSearcher::new(config.path.clone(), &config.search))
    } else {
        Searcher::Recursive(RecursiveSearcher::new(config.path.clone(), &config.search))
    }
}

/// Whether `matcher` finds anything in `line`. A line that could not be
/// decoded holds no match.
pub open spec fn has_match(matcher: &Matcher, line: Option<Seq<char>>) -> bool {
    line matches Some(text) && matcher.matches_in(text).len() > 0
}

/// The matched line that is reported for `text` at the 1-based `position`.
pub open spec fn report(matcher: &Matcher, text: Seq<char>, position: nat, numbered: bool)
    -> MatchedLineView {
    MatchedLineView {
        line_number: if numbered {
            Some(position as usize)
        } else {
            None
        },
        line: text,
        matches_indices: matcher.matches_in(text),
    }
}

/// The matched lines among `lines`, in their order. A line is numbered by
/// its place among all the lines, matched or not, decoded or not.
pub open spec fn matched_lines(matcher: &Matcher, lines: Seq<Option<Seq<char>>>, numbered: bool)
    -> Seq<MatchedLineView>
    decreases lines.len(),
{
    if lines.len() == 0 {
        Seq::empty()
    } else if has_match(matcher, lines.last()) {
        matched_lines(matcher, lines.drop_last(), numbered).push(
            report(matcher, lines.last()->0, lines.len(), numbered),
        )
    } else {
        matched_lines(matcher, lines.drop_last(), numbered)
    }
}

/// A search can be run again: two matchers that hold the same compiled
/// pattern, as two that were made from the same pattern under the same options
/// do, report the same lines.
pub proof fn lemma_same_pattern_same_lines(
    first: &Matcher,
    second: &Matcher,
    lines: Seq<Option<Seq<char>>>,
    numbered: bool,
)
    requires
        first.regex() == second.regex(),
    ensures
        matched_lines(first, lines, numbered) == matched_lines(second, lines, numbered),
    decreases lines.len(),
{
    if lines.len() > 0 {
        lemma_same_pattern_same_lines(first, second, lines.drop_last(), numbered);
    }
}

/// Every line that is reported stood among the lines, held a match, and is
/// reported with its text, its matches and its place. The place it stood at
/// is returned.
pub proof fn lemma_reported_line(
    matcher: &Matcher,
    lines: Seq<Option<Seq<char>>>,
    numbered: bool,
    k: int,
) -> (at: int)
    requires
        0 <= k < matched_lines(matcher, lines, numbered).len(),
    ensures
        k <= at < lines.len(),
        has_match(matcher, lines[at]),
        matched_lines(matcher, lines, numbered)[k] == report(
            matcher,
            lines[at]->0,
            (at + 1) as nat,
            numbered,
        ),
    decreases lines.len(),
{
    let rest = lines.drop_last();
    if has_match(matcher, lines.last()) && k == matched_lines(matcher, rest, numbered).len() {
        if k > 0 {
            // The lines before the last hold at least the `k` that are reported before it.
            lemma_reported_line(matcher, rest, numbered, k - 1);
        }
        lines.len() - 1
    } else {
        lemma_reported_line(matcher, rest, numbered, k)
    }
}

/// Every line with a match is reported. Its place in the report is returned.
pub proof fn lemma_match_is_reported(
    matcher: &Matcher,
    lines: Seq<Option<Seq<char>>>,
    numbered: bool,
    at: int,
) -> (k: int)
    requires
        0 <= at < lines.len(),
        has_match(matcher, lines[at]),
    ensures
        0 <= k < matched_lines(matcher, lines, numbered).len(),
        matched_lines(matcher, lines, numbered)[k] == report(
            matcher,
            lines[at]->0,
            (at + 1) as nat,
            numbered,
        ),
    decreases lines.len(),
{
    let rest = lines.drop_last();
    if at == lines.len() - 1 {
        matched_lines(matcher, rest, numbered).len() as int
    } else {
        lemma_match_is_reported(matcher, rest, numbered, at)
    }
}

/// The lines of a file are reported in the order of the file: their numbers
/// start at 1 or later, ascend strictly, and end within the file.
pub proof fn lemma_numbers_ascend(
    matcher: &Matcher,
    lines: Seq<Option<Seq<char>>>,
    j: int,
    k: int,
)
    requires
        lines.len() <= usize::MAX,
        0 <= j < k < matched_lines(matcher, lines, true).len(),
    ensures
        matched_lines(matcher, lines, true)[j].line_number is Some,
        matched_lines(matcher, lines, true)[k].line_number is Some,
        1 <= matched_lines(matcher, lines, true)[j].line_number->0 < matched_lines(
            matcher,
            lines,
            true,
        )[k].line_number->0 <= lines.len(),
    decreases lines.len(),
{
    let rest = lines.drop_last();
    if has_match(matcher, lines.last()) && k == matched_lines(matcher, rest, true).len() {
        lemma_reported_line(matcher, rest, true, j);
    } else {
        lemma_numbers_ascend(matcher, rest, j, k);
    }
}

/// A line that is reported without numbering has no number.
pub proof fn lemma_unnumbered(matcher: &Matcher, lines: Seq<Option<Seq<char>>>, k: int)
    requires
        0 <= k < matched_lines(matcher, lines, false).len(),
    ensures
        matched_lines(matcher, lines, false)[k].line_number is None,
{
    lemma_reported_line(matcher, lines, false, k);
}

/// Runs `matcher` over `lines` and lists every line with a match under
/// `file_path`: with its number where `numbered`, without one otherwise.
pub fn summarize(
    matcher: &Matcher,
    file_path: String,
    lines: Vec<Option<String>>,
    numbered: bool,
) -> (summary: SearchSummary)
    ensures
        summary@ == single(file_path@, matched_lines(matcher, texts(lines@), numbered)),
        all_valid(summary@),
{
    let ghost all = texts(lines@);
    let mut matching_lines: Vec<MatchedLine> = Vec::new();
    let mut seen: usize = 0;
    assert(all.take(0) =~= Seq::empty());
    assert(lines_view(matching_lines@) =~= Seq::empty());
    assert(lines@.len() == lines.len());
    for line in it: lines.into_iter()
        invariant
            it.seq() == lines@,
            all == texts(lines@),
            seen == it.index(),
            lines@.len() <= usize::MAX,
            lines_view(matching_lines@) == matched_lines(matcher, all.take(seen as int), numbered),
            forall|k: int|
                0 <= k < matching_lines@.len() ==> (#[trigger] matching_lines@[k])@.is_valid(),
    {
        let ghost before = lines_view(matching_lines@);
        proof {
            let upto = all.take(seen + 1);
            assert(upto.drop_last() =~= all.take(seen as int));
            assert(upto.last() == text_of(line));
        }
        seen = seen + 1;
        if let Some(text) = line {
            let matches_indices = matcher.find_matches(text.as_str());
            let line_number = if numbered {
                Some(seen)
            } else {
                None
            };
            if let Some(matched) = MatchedLine::from_matches(line_number, text, matches_indices) {
                matching_lines.push(matched);
                assert(lines_view(matching_lines@) =~= before.push(
                    report(matcher, text@, seen as nat, numbered),
                ));
            }
        }
    }
    assert(all.take(all.len() as int) =~= all);
    SearchSummary::new(file_path, matching_lines)
}

} // verus!
