//! The matching engine: a pattern compiled once, then run over many lines.

use crate::config::SearchConfig;
use crate::error::Error;
use crate::summary::{indices_in_order, MatchIndices};
use regex::Error as RegexError;
use vstd::prelude::*;
use vstd::string::{StringExecFns, StringSliceAdditionalSpecFns};

verus! {

/// A compiled pattern of `regex`. Nothing inside it is visible here.
#[verifier::external_type_specification]
#[verifier::external_body]
pub struct ExRegex(regex::Regex);

/// What `regex` makes of `pattern` when case is folded as `case_insensitive`
/// says: the compiled pattern, or the diagnostic where `pattern` is no valid
/// regular expression.
pub uninterp spec fn compiled(pattern: Seq<char>, case_insensitive: bool) -> Result<
    regex::Regex,
    RegexError,
>;

/// The successive matches of a compiled pattern in `line`, each as the byte
/// offsets of its start and its end.
pub uninterp spec fn found_in(regex: regex::Regex, line: Seq<char>) -> Seq<(usize, usize)>;

/// `RegexBuilder::new(pattern).case_insensitive(..).build()` of `regex`:
/// compiles `pattern` with the default limits. What comes back depends on the
/// pattern and the case switch alone.
#[verifier::external_body]
fn compile(pattern: &str, case_insensitive: bool) -> (made: Result<regex::Regex, RegexError>)
    ensures
        made == compiled(pattern@, case_insensitive),
{
    regex::RegexBuilder::new(pattern).case_insensitive(case_insensitive).build()
}

/// `Regex::find_iter` of `regex`, each match reduced to its two offsets: the
/// successive non-overlapping matches in `line`, from left to right. They
/// depend on the compiled pattern and the line alone. Each lies within the
/// line and cuts it between characters, and none begins before the one before
/// it has ended. Each begins and ends further right than the one before it:
/// the iterator searches on from the end of the last match, and an empty
/// match that ends where the last match ended is discarded for a search that
/// starts one byte further on.
#[verifier::external_body]
fn find_spans(regex: &regex::Regex, line: &str) -> (spans: Vec<(usize, usize)>)
    ensures
        spans@ == found_in(*regex, line@),
        indices_in_order(as_indices(spans@), line.spec_bytes()),
{
    regex.find_iter(line).map(|found| (found.start(), found.end())).collect()
}

/// The two characters that anchor a pattern at a word boundary.
pub open spec fn word_boundary() -> Seq<char> {
    seq!['\\', 'b']
}

/// The text that is compiled for `pattern`: the pattern itself, or, for whole
/// words, the pattern as a group between two word boundaries, so that the
/// anchors bind the whole of it and not its first and last alternative.
pub open spec fn compiled_text(pattern: Seq<char>, exact_match: bool) -> Seq<char> {
    if exact_match {
        word_boundary() + seq!['(', '?', ':'] + pattern + seq![')'] + word_boundary()
    } else {
        pattern
    }
}

/// The text that is compiled for whole words where `compiled_text` does not
/// compile although `pattern` does: the same, with the closing bracket on a
/// line of its own. This is for a pattern that ends in a comment, which would
/// take a closing bracket on its own line with it.
pub open spec fn compiled_text_apart(pattern: Seq<char>) -> Seq<char> {
    word_boundary() + seq!['(', '?', ':'] + pattern + seq!['\n', ')'] + word_boundary()
}

/// The spans as the library reports them.
pub open spec fn as_indices(spans: Seq<(usize, usize)>) -> Seq<MatchIndices> {
    Seq::new(spans.len(), |i: int| MatchIndices { start: spans[i].0, end: spans[i].1 })
}

/// A pattern, compiled once with its options, that finds its matches in any
/// number of lines. It never changes after it was made.
#[derive(Debug)]
pub struct Matcher(regex::Regex);

impl Matcher {
    /// The compiled pattern.
    pub closed spec fn regex(&self) -> regex::Regex {
        self.0
    }

    /// The matches of this matcher in `line`, from left to right.
    pub open spec fn matches_in(&self, line: Seq<char>) -> Seq<MatchIndices> {
        as_indices(found_in(self.regex(), line))
    }

    /// What compiling `pattern` under `config` comes to. The pattern must be
    /// a valid regular expression as it stands. For whole words it is then
    /// compiled between word boundaries: with the closing bracket right
    /// behind it or, where that does not compile, on a line of its own.
    pub open spec fn compiled_under(pattern: Seq<char>, config: SearchConfig) -> Result<
        regex::Regex,
        RegexError,
    > {
        let plain = compiled(pattern, config.case_insensitive);
        let anchored = compiled(compiled_text(pattern, true), config.case_insensitive);
        if !config.exact_match || plain is Err {
            plain
        } else if anchored is Ok {
            anchored
        } else {
            compiled(compiled_text_apart(pattern), config.case_insensitive)
        }
    }

    /// The text that is compiled for `pattern`: the pattern itself, or the
    /// pattern anchored at word boundaries where whole words are asked for.
    pub fn compiled_pattern(pattern: &str, exact_match: bool) -> (text: String)
        ensures
            text@ == compiled_text(pattern@, exact_match),
    {
        if exact_match {
            let mut text = String::from_str("\\b(?:");
            text.append(pattern);
            text.append(")\\b");
            proof {
                reveal_strlit("\\b(?:");
                reveal_strlit(")\\b");
                assert(text@ =~= compiled_text(pattern@, true));
            }
            text
        } else {
            String::from_str(pattern)
        }
    }

    /// The text of `compiled_text_apart` for `pattern`.
    pub fn compiled_pattern_apart(pattern: &str) -> (text: String)
        ensures
            text@ == compiled_text_apart(pattern@),
    {
        let mut text = String::from_str("\\b(?:");
        text.append(pattern);
        text.append("\n)\\b");
        proof {
            reveal_strlit("\\b(?:");
            reveal_strlit("\n)\\b");
            assert(text@ =~= compiled_text_apart(pattern@));
        }
        text
    }

    /// Makes the matcher, or the failure, out of what the compiler returned
    /// for the text of `pattern`.
    pub fn from_compiled(made: Result<regex::Regex, RegexError>, pattern: &str) -> (matcher: Result<
        Matcher,
        Error,
    >)
        ensures
            made matches Ok(regex) ==> (matcher matches Ok(wrapped) && wrapped.regex() == regex),
            made matches Err(diagnostic) ==> (matcher matches Err(Error::BadRegex(cause, text))
                && cause == diagnostic && text@ == pattern@),
    {
        match made {
            Ok(regex) => Ok(Matcher(regex)),
            Err(diagnostic) => Err(Error::BadRegex(diagnostic, String::from_str(pattern))),
        }
    }

    /// Compiles `pattern` under `config`. Case folding and whole-word matching
    /// are fixed here, not when lines are searched. A pattern that is no valid
    /// regular expression is rejected under every configuration, with the
    /// diagnostic and with the pattern as it was given. For whole words the
    /// pattern is then compiled between word boundaries, as `compiled_under`
    /// says; a pattern that cannot be compiled so is rejected likewise.
    pub fn try_create(pattern: &str, config: &SearchConfig) -> (matcher: Result<Matcher, Error>)
        ensures
            compiled(pattern@, config.case_insensitive) matches Err(diagnostic) ==> (
            matcher matches Err(Error::BadRegex(cause, text)) && cause == diagnostic && text@
                == pattern@),
            Matcher::compiled_under(pattern@, *config) matches Ok(regex) ==> (matcher matches Ok(
                made,
            ) && made.regex() == regex),
            Matcher::compiled_under(pattern@, *config) matches Err(diagnostic) ==> (
            matcher matches Err(Error::BadRegex(cause, text)) && cause == diagnostic && text@
                == pattern@),
    {
        let plain = compile(pattern, config.case_insensitive);
        if !config.exact_match || plain.is_err() {
            return Matcher::from_compiled(plain, pattern);
        }
        let text = Matcher::compiled_pattern(pattern, true);
        let anchored = compile(text.as_str(), config.case_insensitive);
        if anchored.is_ok() {
            return Matcher::from_compiled(anchored, pattern);
        }
        let apart = Matcher::compiled_pattern_apart(pattern);
        Matcher::from_compiled(compile(apart.as_str(), config.case_insensitive), pattern)
    }

    /// The matches as they are reported, from the offsets that were found.
    pub fn indices_of(spans: Vec<(usize, usize)>) -> (found: Vec<MatchIndices>)
        ensures
            found@ == as_indices(spans@),
    {
        let mut found: Vec<MatchIndices> = Vec::new();
        let mut i: usize = 0;
        while i < spans.len()
            invariant
                i <= spans.len(),
                found@.len() == i,
                forall|k: int|
                    0 <= k < i ==> #[trigger] found@[k] == (MatchIndices {
                        start: spans@[k].0,
                        end: spans@[k].1,
                    }),
            decreases spans.len() - i,
        {
            let span = spans[i];
            found.push(MatchIndices { start: span.0, end: span.1 });
            i = i + 1;
        }
        assert(found@ =~= as_indices(spans@));
        found
    }

    /// Finds every match of the pattern in `line`: non-overlapping, from left
    /// to right, empty when there is none.
    pub fn find_matches(&self, line: &str) -> (found: Vec<MatchIndices>)
        ensures
            found@ == self.matches_in(line@),
            indices_in_order(found@, line.spec_bytes()),
    {
        Matcher::indices_of(find_spans(&self.0, line))
    }
}

} // verus!
