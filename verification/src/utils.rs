//! The line source: what a stream of bytes holds, line by line.

use vstd::prelude::*;
use vstd::slice::{slice_subrange, slice_to_vec};
use vstd::utf8::{decode_utf8, valid_utf8};

verus! {

/// The byte that ends a line.
pub const NEWLINE: u8 = 10;

/// The byte that may stand before the end of a line and is dropped with it.
pub const RETURN: u8 = 13;

/// The index of the first line end at or after `from`, or the length of
/// `bytes` where none follows.
pub open spec fn line_end(bytes: Seq<u8>, from: int) -> int
    decreases bytes.len() - from,
{
    if from >= bytes.len() {
        bytes.len() as int
    } else if bytes[from] == NEWLINE {
        from
    } else {
        line_end(bytes, from + 1)
    }
}

/// A line that was ended by a line end, without the return before it.
pub open spec fn without_return(line: Seq<u8>) -> Seq<u8> {
    if line.len() > 0 && line.last() == RETURN {
        line.drop_last()
    } else {
        line
    }
}

/// The text of a line, or `None` where its bytes are no valid UTF-8.
pub open spec fn decoded(line: Seq<u8>) -> Option<Seq<char>> {
    if valid_utf8(line) {
        Some(decode_utf8(line))
    } else {
        None
    }
}

/// The lines of `bytes` from index `from` on. A line runs up to the next line
/// end, which is not part of it, nor is a return just before that; what
/// follows the last line end is a line if it is not empty.
pub open spec fn lines_from(bytes: Seq<u8>, from: int) -> Seq<Option<Seq<char>>>
    decreases bytes.len() - from,
    via lines_from_decreases
{
    if from < 0 || from >= bytes.len() {
        Seq::empty()
    } else {
        let end = line_end(bytes, from);
        if end >= bytes.len() {
            seq![decoded(bytes.subrange(from, bytes.len() as int))]
        } else {
            seq![decoded(without_return(bytes.subrange(from, end)))] + lines_from(
                bytes,
                end + 1,
            )
        }
    }
}

#[via_fn]
proof fn lines_from_decreases(bytes: Seq<u8>, from: int) {
    if 0 <= from < bytes.len() {
        lemma_line_end(bytes, from);
    }
}

/// All the lines of `bytes`, in order. A line that cannot be decoded keeps
/// its place as `None`, so that the lines after it keep their numbers.
pub open spec fn lines_of(bytes: Seq<u8>) -> Seq<Option<Seq<char>>> {
    lines_from(bytes, 0)
}

/// A line ends at or after the place where it begins, within the bytes, at a
/// line end or at the end of the bytes, and holds no line end itself.
pub proof fn lemma_line_end(bytes: Seq<u8>, from: int)
    requires
        0 <= from <= bytes.len(),
    ensures
        from <= line_end(bytes, from) <= bytes.len(),
        line_end(bytes, from) < bytes.len() ==> bytes[line_end(bytes, from)] == NEWLINE,
        forall|k: int| from <= k < line_end(bytes, from) ==> bytes[k] != NEWLINE,
    decreases bytes.len() - from,
{
    if from < bytes.len() && bytes[from] != NEWLINE {
        lemma_line_end(bytes, from + 1);
    }
}

/// The number of line ends in `bytes` from index `from` on.
pub open spec fn line_ends_from(bytes: Seq<u8>, from: int) -> nat
    decreases bytes.len() - from,
{
    if from < 0 || from >= bytes.len() {
        0
    } else if bytes[from] == NEWLINE {
        1 + line_ends_from(bytes, from + 1)
    } else {
        line_ends_from(bytes, from + 1)
    }
}

/// The next line end is the first that is counted.
proof fn lemma_line_ends_skip(bytes: Seq<u8>, from: int)
    requires
        0 <= from <= bytes.len(),
    ensures
        line_ends_from(bytes, from) == if line_end(bytes, from) < bytes.len() {
            1 + line_ends_from(bytes, line_end(bytes, from) + 1)
        } else {
            0
        },
    decreases bytes.len() - from,
{
    if from < bytes.len() && bytes[from] != NEWLINE {
        lemma_line_ends_skip(bytes, from + 1);
    }
}

/// There is one line for each line end, and one more for what follows the
/// last line end, if anything does. So a line that cannot be decoded is
/// counted like any other.
pub proof fn lemma_lines_count(bytes: Seq<u8>, from: int)
    requires
        0 <= from <= bytes.len(),
    ensures
        lines_from(bytes, from).len() == line_ends_from(bytes, from) + if from < bytes.len()
            && bytes.last() != NEWLINE {
            1nat
        } else {
            0nat
        },
    decreases bytes.len() - from,
{
    if from < bytes.len() {
        let end = line_end(bytes, from);
        lemma_line_end(bytes, from);
        lemma_line_ends_skip(bytes, from);
        if end < bytes.len() {
            lemma_lines_count(bytes, end + 1);
        }
    }
}

/// A line as a mathematical value.
pub open spec fn text_of(line: Option<String>) -> Option<Seq<char>> {
    match line {
        Some(text) => Some(text@),
        None => None,
    }
}

/// The lines as mathematical values.
pub open spec fn texts(lines: Seq<Option<String>>) -> Seq<Option<Seq<char>>> {
    Seq::new(lines.len(), |i: int| text_of(lines[i]))
}

/// `String::from_utf8` of std, with the failure reduced to `None`: the text
/// that `bytes` encode, where they are valid UTF-8.
#[verifier::external_body]
fn decode(bytes: Vec<u8>) -> (text: Option<String>)
    ensures
        text is Some <==> valid_utf8(bytes@),
        text matches Some(decoded) ==> decoded@ == decode_utf8(bytes@),
{
    String::from_utf8(bytes).ok()
}

/// Splits what was read from a file or from standard input into lines and
/// decodes each. A line that is no valid text is handed out as `None`: it is
/// skipped by the search and still counted.
pub fn read_lines(bytes: &[u8]) -> (lines: Vec<Option<String>>)
    ensures
        texts(lines@) == lines_of(bytes@),
{
    let mut lines: Vec<Option<String>> = Vec::new();
    let mut start: usize = 0;
    assert(texts(lines@) =~= Seq::empty());
    while start < bytes.len()
        invariant
            start <= bytes.len(),
            texts(lines@) + lines_from(bytes@, start as int) == lines_of(bytes@),
        decreases bytes.len() - start,
    {
        let mut end = start;
        while end < bytes.len() && bytes[end] != NEWLINE
            invariant
                start <= end <= bytes.len(),
                line_end(bytes@, end as int) == line_end(bytes@, start as int),
            decreases bytes.len() - end,
        {
            end = end + 1;
        }
        let ended = end < bytes.len();
        let mut stop = end;
        if ended && stop > start && bytes[stop - 1] == RETURN {
            stop = stop - 1;
        }
        let raw = slice_to_vec(slice_subrange(bytes, start, stop));
        let ghost before = texts(lines@);
        proof {
            let whole = bytes@.subrange(start as int, end as int);
            if ended {
                if whole.len() > 0 && whole.last() == RETURN {
                    assert(raw@ =~= whole.drop_last());
                } else {
                    assert(raw@ =~= whole);
                }
            }
        }
        let text = decode(raw);
        let ghost line = text_of(text);
        lines.push(text);
        proof {
            assert(texts(lines@) =~= before.push(line));
            let next = if ended {
                end + 1
            } else {
                end as int
            };
            assert(lines_from(bytes@, start as int) =~= seq![line] + lines_from(bytes@, next));
            assert(before.push(line) + lines_from(bytes@, next) =~= before + (seq![line]
                + lines_from(bytes@, next)));
        }
        start = if ended {
            end + 1
        } else {
            end
        };
    }
    assert(lines_from(bytes@, start as int) =~= Seq::empty());
    assert(texts(lines@) + Seq::<Option<Seq<char>>>::empty() =~= texts(lines@));
    lines
}

} // verus!
