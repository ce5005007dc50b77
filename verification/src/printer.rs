//! What is printed for a summary, piece by piece. How a piece looks on a
//! terminal is left to the caller.

use crate::config::OutputConfig;
use crate::summary::{
    indices_in_order, lines_view, Entries, MatchIndices, MatchedLine, MatchedLineView,
    SearchSummary,
};
use vstd::prelude::*;
use vstd::string::StringSliceAdditionalSpecFns;
use vstd::utf8::{
    encode_utf8, encode_utf8_valid_utf8, is_char_boundary,
    is_char_boundary_iff_not_is_continuation_byte, is_char_boundary_start_end_of_seq,
    valid_utf8_split,
};

verus! {

/// One piece of the output.
#[derive(Debug, PartialEq)]
pub enum Printed {
    /// The name of a source, on a line of its own.
    Source(String),
    /// A matched line of the source named last.
    Match(MatchedLine),
    /// The empty line that ends the block of a source.
    Gap,
}

/// A piece of the output as a mathematical value.
pub enum PrintedView {
    Source(Seq<char>),
    Match(MatchedLineView),
    Gap,
}

impl View for Printed {
    type V = PrintedView;

    open spec fn view(&self) -> PrintedView {
        match self {
            Printed::Source(name) => PrintedView::Source(name@),
            Printed::Match(line) => PrintedView::Match(line@),
            Printed::Gap => PrintedView::Gap,
        }
    }
}

/// The pieces as mathematical values.
pub open spec fn printed_view(pieces: Seq<Printed>) -> Seq<PrintedView> {
    Seq::new(pieces.len(), |i: int| pieces[i]@)
}

/// The short output: the name of each source.
pub open spec fn names(entries: Entries) -> Seq<PrintedView> {
    Seq::new(entries.len(), |i: int| PrintedView::Source(entries[i].0))
}

/// The block of one source: its name, its matched lines, an empty line.
pub open spec fn block(source: Seq<char>, lines: Seq<MatchedLineView>) -> Seq<PrintedView> {
    seq![PrintedView::Source(source)] + Seq::new(
        lines.len(),
        |k: int| PrintedView::Match(lines[k]),
    ) + seq![PrintedView::Gap]
}

/// The full output: the block of each source, one after the other.
pub open spec fn blocks(entries: Entries) -> Seq<PrintedView>
    decreases entries.len(),
{
    if entries.len() == 0 {
        Seq::empty()
    } else {
        blocks(entries.drop_last()) + block(entries.last().0, entries.last().1)
    }
}

/// A stretch of a matched line: a match, or the text before, between or
/// after the matches.
#[derive(Debug, PartialEq)]
pub struct Segment {
    pub text: String,
    /// Whether the stretch is a match, to be set off when it is printed.
    pub matched: bool,
}

/// The offset at which a line of `len` bytes is cut for the `k`-th time: at
/// its start, then at the start and at the end of each match, then at its
/// end.
pub open spec fn cut(spans: Seq<MatchIndices>, len: nat, k: int) -> int {
    if k <= 0 {
        0
    } else if k > 2 * spans.len() {
        len as int
    } else if k % 2 == 1 {
        spans[(k - 1) / 2].start as int
    } else {
        spans[k / 2 - 1].end as int
    }
}

/// The stretches of a line, as bytes: what lies between each cut and the
/// next. Every second stretch is a match.
pub open spec fn stretches(bytes: Seq<u8>, spans: Seq<MatchIndices>) -> Seq<(Seq<u8>, bool)> {
    Seq::new(
        2 * spans.len() + 1,
        |k: int|
            (
                bytes.subrange(cut(spans, bytes.len(), k), cut(spans, bytes.len(), k + 1)),
                k % 2 == 1,
            ),
    )
}

/// The segments as bytes.
pub open spec fn segments_view(segments: Seq<Segment>) -> Seq<(Seq<u8>, bool)> {
    Seq::new(segments.len(), |k: int| (encode_utf8(segments[k].text@), segments[k].matched))
}

/// The stretches put together again.
pub open spec fn rejoined(stretches: Seq<(Seq<u8>, bool)>) -> Seq<u8>
    decreases stretches.len(),
{
    if stretches.len() == 0 {
        Seq::empty()
    } else {
        rejoined(stretches.drop_last()) + stretches.last().0
    }
}

/// The cuts of a line whose matches are in order ascend from its start to its
/// end.
proof fn lemma_cuts_ascend(bytes: Seq<u8>, spans: Seq<MatchIndices>, k: int)
    requires
        indices_in_order(spans, bytes),
        0 <= k <= 2 * spans.len(),
    ensures
        0 <= cut(spans, bytes.len(), k) <= cut(spans, bytes.len(), k + 1) <= bytes.len(),
{
    if k > 0 && k % 2 == 0 && k < 2 * spans.len() {
        let (before, after) = (spans[k / 2 - 1], spans[k / 2]);
        assert(before.end <= after.start);
    }
    if k % 2 == 1 {
        let span = spans[(k - 1) / 2];
        assert(span.start <= span.end);
    }
    if k > 0 && k % 2 == 0 {
        let span = spans[k / 2 - 1];
        assert(span.end <= bytes.len());
    }
}

/// The first `k` stretches of a line are the line up to its `k`-th cut.
proof fn lemma_stretches_reach(bytes: Seq<u8>, spans: Seq<MatchIndices>, k: int)
    requires
        indices_in_order(spans, bytes),
        0 <= k <= 2 * spans.len() + 1,
    ensures
        rejoined(stretches(bytes, spans).take(k)) == bytes.subrange(
            0,
            cut(spans, bytes.len(), k),
        ),
        0 <= cut(spans, bytes.len(), k) <= bytes.len(),
    decreases k,
{
    let all = stretches(bytes, spans);
    if k == 0 {
        assert(all.take(0) =~= Seq::empty());
        assert(bytes.subrange(0, 0) =~= Seq::empty());
    } else {
        lemma_stretches_reach(bytes, spans, k - 1);
        lemma_cuts_ascend(bytes, spans, k - 1);
        assert(all.take(k).drop_last() =~= all.take(k - 1));
        assert(all.take(k).last() == all[k - 1]);
        let (from, to) = (cut(spans, bytes.len(), k - 1), cut(spans, bytes.len(), k));
        assert(bytes.subrange(0, from) + bytes.subrange(from, to) =~= bytes.subrange(0, to));
    }
}

/// Cutting a line loses nothing: its stretches, put together, are the line.
pub proof fn lemma_stretches_cover(bytes: Seq<u8>, spans: Seq<MatchIndices>)
    requires
        indices_in_order(spans, bytes),
    ensures
        rejoined(stretches(bytes, spans)) == bytes,
{
    let all = stretches(bytes, spans);
    lemma_stretches_reach(bytes, spans, all.len() as int);
    assert(all.take(all.len() as int) =~= all);
    assert(bytes.subrange(0, bytes.len() as int) =~= bytes);
}

/// Whether the matches lie in the line, between characters, and in order.
pub fn spans_fit(line: &str, spans: &Vec<MatchIndices>) -> (fit: bool)
    ensures
        fit == indices_in_order(spans@, line.spec_bytes()),
{
    let ghost bytes = line.spec_bytes();
    let size = line.as_bytes().len();
    let mut i: usize = 0;
    while i < spans.len()
        invariant
            i <= spans.len(),
            bytes == line.spec_bytes(),
            size == bytes.len(),
            indices_in_order(spans@.take(i as int), bytes),
        decreases spans.len() - i,
    {
        let span = spans[i];
        let inside = span.start <= span.end && span.end <= size && line.is_char_boundary(
            span.start,
        ) && line.is_char_boundary(span.end);
        let after = i == 0 || (spans[i - 1].start < span.start && spans[i - 1].end <= span.start
            && spans[i - 1].end < span.end);
        if !(inside && after) {
            proof {
                if indices_in_order(spans@, bytes) {
                    let here = spans@[i as int];
                    assert(here.start <= here.end <= bytes.len());
                    assert(is_char_boundary(bytes, here.start as int));
                    assert(is_char_boundary(bytes, here.end as int));
                    if i > 0 {
                        let before = spans@[i - 1];
                        assert(before.start < here.start && before.end <= here.start
                            && before.end < here.end);
                    }
                }
            }
            return false;
        }
        proof {
            let (shorter, longer) = (spans@.take(i as int), spans@.take(i + 1));
            assert forall|k: int| 0 <= k < longer.len() implies {
                &&& (#[trigger] longer[k]).start <= longer[k].end <= bytes.len()
                &&& is_char_boundary(bytes, longer[k].start as int)
                &&& is_char_boundary(bytes, longer[k].end as int)
            } by {
                if k < i {
                    assert(longer[k] == shorter[k]);
                }
            }
            assert forall|j: int, k: int| 0 <= j < k < longer.len() implies {
                &&& (#[trigger] longer[j]).start < (#[trigger] longer[k]).start
                &&& longer[j].end <= longer[k].start
                &&& longer[j].end < longer[k].end
            } by {
                assert(longer[j] == shorter[j]);
                if k < i {
                    assert(longer[k] == shorter[k]);
                } else if j < i - 1 {
                    assert(shorter[j].start < shorter[i - 1].start);
                    assert(shorter[j].end < shorter[i - 1].end);
                }
            }
        }
        i = i + 1;
    }
    assert(spans@.take(spans@.len() as int) =~= spans@);
    true
}

/// The text of `line` between two offsets that lie between characters.
fn stretch(line: &str, from: usize, to: usize) -> (text: String)
    requires
        from <= to <= line.spec_bytes().len(),
        is_char_boundary(line.spec_bytes(), from as int),
        is_char_boundary(line.spec_bytes(), to as int),
    ensures
        encode_utf8(text@) == line.spec_bytes().subrange(from as int, to as int),
{
    let ghost bytes = line.spec_bytes();
    proof {
        encode_utf8_valid_utf8(line@);
        valid_utf8_split(bytes, to as int);
        let head = bytes.subrange(0, to as int);
        if from < to {
            is_char_boundary_iff_not_is_continuation_byte(bytes, from as int);
            is_char_boundary_iff_not_is_continuation_byte(head, from as int);
        } else {
            is_char_boundary_start_end_of_seq(head);
        }
    }
    let (head, _) = line.split_at(to);
    let (_, piece) = head.split_at(from);
    assert(piece.spec_bytes() =~= bytes.subrange(from as int, to as int));
    piece.to_owned()
}

/// Cuts a matched line at its matches, so that each can be set off when the
/// line is printed: the text before the first match, the match, the text up
/// to the next, and so on to the end of the line. A line whose matches do not
/// lie in it, between characters and in order, is left in one piece.
pub fn segments(line: &MatchedLine) -> (pieces: Vec<Segment>)
    ensures
        segments_view(pieces@) == if indices_in_order(
            line@.matches_indices,
            encode_utf8(line@.line),
        ) {
            stretches(encode_utf8(line@.line), line@.matches_indices)
        } else {
            seq![(encode_utf8(line@.line), false)]
        },
        rejoined(segments_view(pieces@)) == encode_utf8(line@.line),
{
    let text = line.line.as_str();
    let spans = &line.matches_indices;
    let ghost bytes = text.spec_bytes();
    let mut pieces: Vec<Segment> = Vec::new();
    if !spans_fit(text, spans) {
        pieces.push(Segment { text: text.to_owned(), matched: false });
        proof {
            let whole = seq![(bytes, false)];
            assert(segments_view(pieces@) =~= whole);
            assert(whole.drop_last() =~= Seq::empty());
            assert(rejoined(whole) =~= bytes) by {
                reveal_with_fuel(rejoined, 2);
            }
        }
        return pieces;
    }
    let ghost all = stretches(bytes, spans@);
    let mut at: usize = 0;
    let mut i: usize = 0;
    proof {
        encode_utf8_valid_utf8(line.line@);
        is_char_boundary_start_end_of_seq(bytes);
        assert(segments_view(pieces@) =~= all.take(0));
    }
    while i < spans.len()
        invariant
            i <= spans.len(),
            bytes == text.spec_bytes(),
            all == stretches(bytes, spans@),
            indices_in_order(spans@, bytes),
            at == cut(spans@, bytes.len(), 2 * i),
            at <= bytes.len(),
            is_char_boundary(bytes, at as int),
            segments_view(pieces@) == all.take(2 * i),
        decreases spans.len() - i,
    {
        let span = spans[i];
        let ghost before = segments_view(pieces@);
        proof {
            lemma_cuts_ascend(bytes, spans@, 2 * i);
            lemma_cuts_ascend(bytes, spans@, 2 * i + 1);
            assert(spans@[i as int] == span);
        }
        let plain = Segment { text: stretch(text, at, span.start), matched: false };
        let found = Segment { text: stretch(text, span.start, span.end), matched: true };
        pieces.push(plain);
        pieces.push(found);
        proof {
            assert(segments_view(pieces@) =~= before.push(all[2 * i]).push(all[2 * i + 1]));
            assert(all.take(2 * i + 2) =~= all.take(2 * i).push(all[2 * i]).push(all[2 * i + 1]));
        }
        at = span.end;
        i = i + 1;
    }
    let ghost before = segments_view(pieces@);
    proof {
        lemma_cuts_ascend(bytes, spans@, 2 * i);
        encode_utf8_valid_utf8(line.line@);
        is_char_boundary_start_end_of_seq(bytes);
    }
    pieces.push(Segment { text: stretch(text, at, text.as_bytes().len()), matched: false });
    proof {
        assert(segments_view(pieces@) =~= before.push(all[2 * i]));
        assert(all.take(2 * i).push(all[2 * i]) =~= all);
        lemma_stretches_cover(bytes, spans@);
    }
    pieces
}

/// Lays a summary out for printing.
pub struct Printer<'conf> {
    config: &'conf OutputConfig,
}

impl<'conf> Printer<'conf> {
    /// Whether only the names of the sources are printed.
    pub closed spec fn names_only(&self) -> bool {
        self.config.only_file_names
    }

    /// A printer that lays out as `search_config` asks.
    pub fn new(search_config: &'conf OutputConfig) -> (printer: Self)
        ensures
            printer.names_only() == search_config.only_file_names,
    {
        Printer { config: search_config }
    }

    /// The pieces to print for `summary`, in order: the names of its sources
    /// alone, or each source followed by its lines and an empty line.
    pub fn layout(&self, summary: SearchSummary) -> (pieces: Vec<Printed>)
        ensures
            printed_view(pieces@) == if self.names_only() {
                names(summary@)
            } else {
                blocks(summary@)
            },
    {
        let ghost all = summary@;
        let entries = summary.into_entries();
        let mut pieces: Vec<Printed> = Vec::new();
        assert(all.take(0) =~= Seq::empty());
        assert(printed_view(pieces@) =~= Seq::empty());
        for entry in it: entries.into_iter()
            invariant
                it.seq() == entries@,
                all.len() == entries@.len(),
                forall|i: int|
                    0 <= i < entries@.len() ==> all[i] == (
                        (#[trigger] entries@[i]).0@,
                        lines_view(entries@[i].1@),
                    ),
                printed_view(pieces@) == if self.names_only() {
                    names(all.take(it.index() as int))
                } else {
                    blocks(all.take(it.index() as int))
                },
        {
            let ghost done = it.index() as int;
            let ghost before = printed_view(pieces@);
            let (source, lines) = entry;
            proof {
                let upto = all.take(done + 1);
                assert(upto.drop_last() =~= all.take(done));
                assert(upto.last() == all[done]);
                assert(names(upto) =~= names(all.take(done)).push(PrintedView::Source(source@)));
            }
            pieces.push(Printed::Source(source));
            assert(printed_view(pieces@) =~= before.push(PrintedView::Source(source@)));
            if !self.config.only_file_names {
                let ghost head = printed_view(pieces@);
                let ghost shown = lines_view(lines@);
                for line in at: lines.into_iter()
                    invariant
                        at.seq() == lines@,
                        shown == lines_view(lines@),
                        printed_view(pieces@) == head + Seq::new(
                            at.index() as nat,
                            |k: int| PrintedView::Match(shown[k]),
                        ),
                {
                    let ghost sofar = printed_view(pieces@);
                    pieces.push(Printed::Match(line));
                    assert(printed_view(pieces@) =~= sofar.push(PrintedView::Match(line@)));
                }
                let ghost body = printed_view(pieces@);
                pieces.push(Printed::Gap);
                assert(printed_view(pieces@) =~= body.push(PrintedView::Gap));
                assert(printed_view(pieces@) =~= before + block(source@, shown));
            }
        }
        assert(all.take(all.len() as int) =~= all);
        pieces
    }
}

} // verus!
