//! The result of a search: matched lines, grouped by the source they came from.

use crate::order::{key_before, key_order, lemma_key_order, KeyOrder};
use vstd::prelude::*;
use vstd::utf8::{encode_utf8, is_char_boundary};

verus! {

/// One match within a line: the half-open byte range `start..end`.
#[derive(Debug, Clone, Copy, PartialEq, Eq, Structural)]
pub struct MatchIndices {
    pub start: usize,
    pub end: usize,
}

/// What holds of the matches that are reported for a line of the given
/// bytes: each lies within the line and cuts it between characters, none
/// overlaps the one before it, and each begins and ends further right than
/// the one before it.
pub open spec fn indices_in_order(found: Seq<MatchIndices>, bytes: Seq<u8>) -> bool {
    &&& forall|i: int|
        0 <= i < found.len() ==> {
            &&& (#[trigger] found[i]).start <= found[i].end <= bytes.len()
            &&& is_char_boundary(bytes, found[i].start as int)
            &&& is_char_boundary(bytes, found[i].end as int)
        }
    &&& forall|i: int, j: int|
        0 <= i < j < found.len() ==> {
            &&& (#[trigger] found[i]).start < (#[trigger] found[j]).start
            &&& found[i].end <= found[j].start
            &&& found[i].end < found[j].end
        }
}

/// A line in which the pattern was found.
#[derive(Debug, PartialEq)]
pub struct MatchedLine {
    /// The position of the line in its file, counted from 1; `None` for a
    /// line of standard input.
    pub line_number: Option<usize>,
    /// The line, without its line ending.
    pub line: String,
    /// Where the pattern matched, from left to right.
    pub matches_indices: Vec<MatchIndices>,
}

/// A matched line as a mathematical value.
pub struct MatchedLineView {
    pub line_number: Option<usize>,
    pub line: Seq<char>,
    pub matches_indices: Seq<MatchIndices>,
}

impl MatchedLineView {
    /// What holds of every line that a search reports: the pattern matched in
    /// it at least once, and its matches lie in the line, in order.
    pub open spec fn is_valid(self) -> bool {
        &&& self.matches_indices.len() > 0
        &&& indices_in_order(self.matches_indices, encode_utf8(self.line))
    }
}

impl MatchedLine {
    /// The report of a line in which `matches_indices` were found. A line
    /// without a match is not reported.
    pub fn from_matches(
        line_number: Option<usize>,
        line: String,
        matches_indices: Vec<MatchIndices>,
    ) -> (matched: Option<MatchedLine>)
        ensures
            matches_indices@.len() == 0 ==> matched is None,
            matches_indices@.len() > 0 ==> (matched matches Some(reported) && reported@ == (
            MatchedLineView { line_number, line: line@, matches_indices: matches_indices@ })),
    {
        if matches_indices.len() == 0 {
            None
        } else {
            Some(MatchedLine { line_number, line, matches_indices })
        }
    }
}

/// Whether every line of every source is one that a search reports.
pub open spec fn all_valid(entries: Entries) -> bool {
    forall|i: int, k: int|
        0 <= i < entries.len() && 0 <= k < entries[i].1.len() ==> (
        #[trigger] entries[i].1[k]).is_valid()
}

impl View for MatchedLine {
    type V = MatchedLineView;

    open spec fn view(&self) -> MatchedLineView {
        MatchedLineView {
            line_number: self.line_number,
            line: self.line@,
            matches_indices: self.matches_indices@,
        }
    }
}

/// The sources of a summary with their matched lines, in listing order.
pub type Entries = Seq<(Seq<char>, Seq<MatchedLineView>)>;

/// The lines of one source as mathematical values.
pub open spec fn lines_view(lines: Seq<MatchedLine>) -> Seq<MatchedLineView> {
    Seq::new(lines.len(), |i: int| lines[i]@)
}

/// A source with its lines as a mathematical value.
pub open spec fn entry_view(entry: (String, Vec<MatchedLine>)) -> (
    Seq<char>,
    Seq<MatchedLineView>,
) {
    (entry.0@, lines_view(entry.1@))
}

/// Sources with their lines as mathematical values.
pub open spec fn entries_view(entries: Seq<(String, Vec<MatchedLine>)>) -> Entries {
    Seq::new(entries.len(), |i: int| entry_view(entries[i]))
}

/// The sources are listed in strictly ascending order, so none occurs twice.
pub open spec fn keys_ascend(entries: Entries) -> bool {
    forall|i: int, j: int|
        0 <= i < j < entries.len() ==> key_before(
            (#[trigger] entries[i]).0,
            (#[trigger] entries[j]).0,
        )
}

/// What holds of every summary: its sources ascend, and each of them has at
/// least one matched line.
pub open spec fn well_formed(entries: Entries) -> bool {
    &&& keys_ascend(entries)
    &&& forall|i: int| 0 <= i < entries.len() ==> (#[trigger] entries[i]).1.len() > 0
}

/// The lines listed under `key`, if it is a source of `entries`.
pub open spec fn lookup(entries: Entries, key: Seq<char>) -> Option<Seq<MatchedLineView>>
    decreases entries.len(),
{
    if entries.len() == 0 {
        None
    } else if entries.last().0 == key {
        Some(entries.last().1)
    } else {
        lookup(entries.drop_last(), key)
    }
}

/// The summary of one source: nothing when no line matched.
pub open spec fn single(key: Seq<char>, lines: Seq<MatchedLineView>) -> Entries {
    if lines.len() == 0 {
        Seq::empty()
    } else {
        seq![(key, lines)]
    }
}

/// The union of two summaries, source by source. Where both list a source,
/// the lines of the second follow those of the first.
pub open spec fn merged(a: Entries, b: Entries) -> Entries
    decreases a.len() + b.len(),
{
    if a.len() == 0 {
        b
    } else if b.len() == 0 {
        a
    } else if key_before(a.last().0, b.last().0) {
        merged(a, b.drop_last()).push(b.last())
    } else if key_before(b.last().0, a.last().0) {
        merged(a.drop_last(), b).push(a.last())
    } else {
        merged(a.drop_last(), b.drop_last()).push((a.last().0, a.last().1 + b.last().1))
    }
}

/// What one source holds after a union, from what it held on either side.
pub open spec fn joined(
    first: Option<Seq<MatchedLineView>>,
    second: Option<Seq<MatchedLineView>>,
) -> Option<Seq<MatchedLineView>> {
    match (first, second) {
        (Some(lines), Some(more)) => Some(lines + more),
        (Some(lines), None) => Some(lines),
        (None, later) => later,
    }
}

/// The summary that a list of sources with their lines adds up to: the union
/// of the summaries of each, in the order of the list.
pub open spec fn collected(pairs: Entries) -> Entries
    decreases pairs.len(),
{
    if pairs.len() == 0 {
        Seq::empty()
    } else {
        merged(collected(pairs.drop_last()), single(pairs.last().0, pairs.last().1))
    }
}

/// Whether every source of `entries` comes before `key`.
pub open spec fn all_before(entries: Entries, key: Seq<char>) -> bool {
    forall|i: int| 0 <= i < entries.len() ==> key_before((#[trigger] entries[i]).0, key)
}

/// A source that is not listed has no lines.
proof fn lemma_lookup_absent(entries: Entries, key: Seq<char>)
    requires
        forall|i: int| 0 <= i < entries.len() ==> (#[trigger] entries[i]).0 != key,
    ensures
        lookup(entries, key) is None,
    decreases entries.len(),
{
    if entries.len() > 0 {
        assert(entries.last() == entries[entries.len() - 1]);
        let rest = entries.drop_last();
        assert forall|i: int| 0 <= i < rest.len() implies (#[trigger] rest[i]).0 != key by {
            assert(rest[i] == entries[i]);
        }
        lemma_lookup_absent(rest, key);
    }
}

/// A source that comes after all the sources of a summary is not among them.
proof fn lemma_lookup_beyond(entries: Entries, key: Seq<char>)
    requires
        all_before(entries, key),
    ensures
        lookup(entries, key) is None,
{
    assert forall|i: int| 0 <= i < entries.len() implies (#[trigger] entries[i]).0 != key by {
        lemma_key_order(key, key, key);
    }
    lemma_lookup_absent(entries, key);
}

/// A union lists no source beyond a bound that both sides keep.
proof fn lemma_merged_all_before(a: Entries, b: Entries, key: Seq<char>)
    requires
        all_before(a, key),
        all_before(b, key),
    ensures
        all_before(merged(a, b), key),
    decreases a.len() + b.len(),
{
    if a.len() == 0 || b.len() == 0 {
    } else {
        let (x, y) = (a.last(), b.last());
        assert(x == a[a.len() - 1] && y == b[b.len() - 1]);
        let (a1, b1) = (a.drop_last(), b.drop_last());
        assert forall|i: int| 0 <= i < a1.len() implies key_before((#[trigger] a1[i]).0, key) by {
            assert(a1[i] == a[i]);
        }
        assert forall|i: int| 0 <= i < b1.len() implies key_before((#[trigger] b1[i]).0, key) by {
            assert(b1[i] == b[i]);
        }
        if key_before(x.0, y.0) {
            lemma_merged_all_before(a, b1, key);
        } else if key_before(y.0, x.0) {
            lemma_merged_all_before(a1, b, key);
        } else {
            lemma_merged_all_before(a1, b1, key);
        }
    }
}

/// All but the last source of a summary make a summary, whose sources come
/// before the last.
proof fn lemma_drop_last_well_formed(entries: Entries)
    requires
        well_formed(entries),
        entries.len() > 0,
    ensures
        well_formed(entries.drop_last()),
        all_before(entries.drop_last(), entries.last().0),
{
    let rest = entries.drop_last();
    assert(entries.last() == entries[entries.len() - 1]);
    assert forall|i: int| 0 <= i < rest.len() implies rest[i] == entries[i] by {}
    assert forall|i: int, j: int| 0 <= i < j < rest.len() implies key_before(
        (#[trigger] rest[i]).0,
        (#[trigger] rest[j]).0,
    ) by {
        assert(rest[i] == entries[i] && rest[j] == entries[j]);
    }
    assert forall|i: int| 0 <= i < rest.len() implies key_before(
        (#[trigger] rest[i]).0,
        entries.last().0,
    ) by {
        assert(rest[i] == entries[i]);
    }
}

/// A summary stays one when a source that comes after all of its sources is
/// added at its end with at least one line.
proof fn lemma_push_well_formed(entries: Entries, last: (Seq<char>, Seq<MatchedLineView>))
    requires
        well_formed(entries),
        all_before(entries, last.0),
        last.1.len() > 0,
    ensures
        well_formed(entries.push(last)),
{
    let longer = entries.push(last);
    assert forall|i: int, j: int| 0 <= i < j < longer.len() implies key_before(
        (#[trigger] longer[i]).0,
        (#[trigger] longer[j]).0,
    ) by {
        assert(longer[i] == entries[i]);
        if j < entries.len() {
            assert(longer[j] == entries[j]);
        }
    }
    assert forall|i: int| 0 <= i < longer.len() implies (#[trigger] longer[i]).1.len() > 0 by {
        if i < entries.len() {
            assert(longer[i] == entries[i]);
        }
    }
}

/// The union of two summaries is a summary: its sources ascend, none is
/// listed twice, and none is left without lines.
pub proof fn lemma_merged_well_formed(a: Entries, b: Entries)
    requires
        well_formed(a),
        well_formed(b),
    ensures
        well_formed(merged(a, b)),
    decreases a.len() + b.len(),
{
    if a.len() == 0 || b.len() == 0 {
    } else {
        let (x, y) = (a.last(), b.last());
        assert(x == a[a.len() - 1] && y == b[b.len() - 1]);
        let (a1, b1) = (a.drop_last(), b.drop_last());
        lemma_drop_last_well_formed(a);
        lemma_drop_last_well_formed(b);
        if key_before(x.0, y.0) {
            assert forall|i: int| 0 <= i < a.len() implies key_before(
                (#[trigger] a[i]).0,
                y.0,
            ) by {
                lemma_key_order(a[i].0, x.0, y.0);
            }
            lemma_merged_all_before(a, b1, y.0);
            lemma_merged_well_formed(a, b1);
            lemma_push_well_formed(merged(a, b1), y);
        } else if key_before(y.0, x.0) {
            assert forall|i: int| 0 <= i < b.len() implies key_before(
                (#[trigger] b[i]).0,
                x.0,
            ) by {
                lemma_key_order(b[i].0, y.0, x.0);
            }
            lemma_merged_all_before(a1, b, x.0);
            lemma_merged_well_formed(a1, b);
            lemma_push_well_formed(merged(a1, b), x);
        } else {
            lemma_key_order(x.0, y.0, x.0);
            lemma_merged_all_before(a1, b1, x.0);
            lemma_merged_well_formed(a1, b1);
            lemma_push_well_formed(merged(a1, b1), (x.0, x.1 + y.1));
        }
    }
}

/// A union is key-wise: under each source it holds the lines of the first
/// summary followed by those of the second.
pub proof fn lemma_merged_lookup(a: Entries, b: Entries, key: Seq<char>)
    requires
        well_formed(a),
        well_formed(b),
    ensures
        lookup(merged(a, b), key) == joined(lookup(a, key), lookup(b, key)),
    decreases a.len() + b.len(),
{
    if a.len() == 0 || b.len() == 0 {
    } else {
        let (x, y) = (a.last(), b.last());
        assert(x == a[a.len() - 1] && y == b[b.len() - 1]);
        let (a1, b1) = (a.drop_last(), b.drop_last());
        lemma_drop_last_well_formed(a);
        lemma_drop_last_well_formed(b);
        if key_before(x.0, y.0) {
            let m = merged(a, b1).push(y);
            assert(m.last() == y && m.drop_last() =~= merged(a, b1));
            if key == y.0 {
                assert forall|i: int| 0 <= i < a.len() implies key_before(
                    (#[trigger] a[i]).0,
                    key,
                ) by {
                    lemma_key_order(a[i].0, x.0, y.0);
                }
                lemma_lookup_beyond(a, key);
            } else {
                lemma_merged_lookup(a, b1, key);
            }
        } else if key_before(y.0, x.0) {
            let m = merged(a1, b).push(x);
            assert(m.last() == x && m.drop_last() =~= merged(a1, b));
            if key == x.0 {
                assert forall|i: int| 0 <= i < b.len() implies key_before(
                    (#[trigger] b[i]).0,
                    key,
                ) by {
                    lemma_key_order(b[i].0, y.0, x.0);
                }
                lemma_lookup_beyond(b, key);
            } else {
                lemma_merged_lookup(a1, b, key);
            }
        } else {
            lemma_key_order(x.0, y.0, x.0);
            let m = merged(a1, b1).push((x.0, x.1 + y.1));
            assert(m.last() == (x.0, x.1 + y.1) && m.drop_last() =~= merged(a1, b1));
            if key != x.0 {
                lemma_merged_lookup(a1, b1, key);
            }
        }
    }
}

/// A source that has lines is listed, at one place, with those lines.
pub proof fn lemma_lookup_listed(entries: Entries, key: Seq<char>) -> (at: int)
    requires
        lookup(entries, key) is Some,
    ensures
        0 <= at < entries.len(),
        entries[at] == (key, lookup(entries, key)->0),
    decreases entries.len(),
{
    if entries.last().0 == key {
        entries.len() - 1
    } else {
        lemma_lookup_listed(entries.drop_last(), key)
    }
}

/// A source that a summary lists has the lines that stand beside it.
pub proof fn lemma_listed_lookup(entries: Entries, at: int)
    requires
        keys_ascend(entries),
        0 <= at < entries.len(),
    ensures
        lookup(entries, entries[at].0) == Some(entries[at].1),
    decreases entries.len(),
{
    let last = entries.len() - 1;
    if at < last {
        lemma_key_order(entries[at].0, entries[last].0, entries[at].0);
        let rest = entries.drop_last();
        assert(rest[at] == entries[at]);
        assert forall|i: int, j: int| 0 <= i < j < rest.len() implies key_before(
            (#[trigger] rest[i]).0,
            (#[trigger] rest[j]).0,
        ) by {
            assert(rest[i] == entries[i] && rest[j] == entries[j]);
        }
        lemma_listed_lookup(rest, at);
    }
}

/// A summary is known by what it lists under each source: two summaries that
/// agree on every source are the same, order included.
pub proof fn lemma_same_lookup_same_entries(a: Entries, b: Entries)
    requires
        well_formed(a),
        well_formed(b),
        forall|key: Seq<char>| lookup(a, key) == lookup(b, key),
    ensures
        a == b,
    decreases a.len(),
{
    if a.len() == 0 {
        if b.len() > 0 {
            lemma_listed_lookup(b, b.len() - 1);
            assert(lookup(a, b[b.len() - 1].0) is None);
        }
        assert(a =~= b);
    } else {
        let x = a.last();
        lemma_listed_lookup(a, a.len() - 1);
        assert(lookup(b, x.0) == Some(x.1));
        let at_b = lemma_lookup_listed(b, x.0);
        let y = b.last();
        lemma_listed_lookup(b, b.len() - 1);
        assert(lookup(a, y.0) == Some(y.1));
        let at_a = lemma_lookup_listed(a, y.0);
        if at_b < b.len() - 1 {
            // `x` comes before `y` in `b`, so `y` is not the last of `a`.
            assert(key_before(b[at_b].0, b[b.len() - 1].0));
            lemma_key_order(x.0, y.0, x.0);
            assert(at_a < a.len() - 1);
            assert(key_before(a[at_a].0, a[a.len() - 1].0));
        }
        assert(x == y);
        let (a1, b1) = (a.drop_last(), b.drop_last());
        lemma_drop_last_well_formed(a);
        lemma_drop_last_well_formed(b);
        assert forall|key: Seq<char>| lookup(a1, key) == lookup(b1, key) by {
            if key == x.0 {
                lemma_lookup_beyond(a1, key);
                lemma_lookup_beyond(b1, key);
            } else {
                assert(lookup(a, key) == lookup(b, key));
            }
        }
        lemma_same_lookup_same_entries(a1, b1);
        assert(a =~= a1.push(x));
        assert(b =~= b1.push(y));
    }
}

/// Whether no source is listed on both sides.
pub open spec fn disjoint(a: Entries, b: Entries) -> bool {
    forall|key: Seq<char>| !(lookup(a, key) is Some && lookup(b, key) is Some)
}

/// The order in which the files of a tree are searched does not show in the
/// summary: a union of summaries that share no source is the same either way
/// round.
pub proof fn lemma_merged_commutes(a: Entries, b: Entries)
    requires
        well_formed(a),
        well_formed(b),
        disjoint(a, b),
    ensures
        merged(a, b) == merged(b, a),
{
    lemma_merged_well_formed(a, b);
    lemma_merged_well_formed(b, a);
    assert forall|key: Seq<char>| lookup(merged(a, b), key) == lookup(merged(b, a), key) by {
        lemma_merged_lookup(a, b, key);
        lemma_merged_lookup(b, a, key);
    }
    lemma_same_lookup_same_entries(merged(a, b), merged(b, a));
}

/// Partial results may be put together in any grouping.
pub proof fn lemma_merged_associates(a: Entries, b: Entries, c: Entries)
    requires
        well_formed(a),
        well_formed(b),
        well_formed(c),
    ensures
        merged(merged(a, b), c) == merged(a, merged(b, c)),
{
    lemma_merged_well_formed(a, b);
    lemma_merged_well_formed(b, c);
    lemma_merged_well_formed(merged(a, b), c);
    lemma_merged_well_formed(a, merged(b, c));
    assert forall|key: Seq<char>|
        lookup(merged(merged(a, b), c), key) == lookup(merged(a, merged(b, c)), key) by {
        lemma_merged_lookup(a, b, key);
        lemma_merged_lookup(b, c, key);
        lemma_merged_lookup(merged(a, b), c, key);
        lemma_merged_lookup(a, merged(b, c), key);
        if lookup(a, key) is Some && lookup(b, key) is Some && lookup(c, key) is Some {
            let (x, y, z) = (lookup(a, key)->0, lookup(b, key)->0, lookup(c, key)->0);
            assert((x + y) + z =~= x + (y + z));
        }
    }
    lemma_same_lookup_same_entries(merged(merged(a, b), c), merged(a, merged(b, c)));
}

/// Two files with a matched line each make a summary of exactly two sources,
/// each with its own lines.
pub proof fn lemma_two_sources(
    first: Seq<char>,
    lines: Seq<MatchedLineView>,
    second: Seq<char>,
    more: Seq<MatchedLineView>,
)
    requires
        first != second,
        lines.len() > 0,
        more.len() > 0,
    ensures
        merged(single(first, lines), single(second, more)).len() == 2,
        lookup(merged(single(first, lines), single(second, more)), first) == Some(lines),
        lookup(merged(single(first, lines), single(second, more)), second) == Some(more),
{
    let (a, b) = (single(first, lines), single(second, more));
    lemma_key_order(first, second, first);
    assert(a.drop_last() =~= Seq::empty());
    assert(b.drop_last() =~= Seq::empty());
    assert(a.last() == (first, lines) && b.last() == (second, more));
    lemma_merged_lookup(a, b, first);
    lemma_merged_lookup(a, b, second);
    reveal_with_fuel(lookup, 2);
    if key_before(first, second) {
        assert(merged(a, b) == merged(a, b.drop_last()).push(b.last()));
    } else {
        assert(merged(a, b) == merged(a.drop_last(), b).push(a.last()));
    }
}

/// A union holds no line that neither side held: if every line on both sides
/// is one that a search reports, so is every line of the union.
pub proof fn lemma_merged_all_valid(a: Entries, b: Entries)
    requires
        all_valid(a),
        all_valid(b),
    ensures
        all_valid(merged(a, b)),
    decreases a.len() + b.len(),
{
    if a.len() == 0 || b.len() == 0 {
    } else {
        let (x, y) = (a.last(), b.last());
        assert(x == a[a.len() - 1] && y == b[b.len() - 1]);
        let (a1, b1) = (a.drop_last(), b.drop_last());
        assert(all_valid(a1)) by {
            assert forall|i: int, k: int| 0 <= i < a1.len() && 0 <= k < a1[i].1.len() implies (
            #[trigger] a1[i].1[k]).is_valid() by {
                assert(a1[i] == a[i]);
                assert(a[i].1[k].is_valid());
            }
        }
        assert(all_valid(b1)) by {
            assert forall|i: int, k: int| 0 <= i < b1.len() && 0 <= k < b1[i].1.len() implies (
            #[trigger] b1[i].1[k]).is_valid() by {
                assert(b1[i] == b[i]);
                assert(b[i].1[k].is_valid());
            }
        }
        let (rest, last) = if key_before(x.0, y.0) {
            lemma_merged_all_valid(a, b1);
            (merged(a, b1), y)
        } else if key_before(y.0, x.0) {
            lemma_merged_all_valid(a1, b);
            (merged(a1, b), x)
        } else {
            lemma_merged_all_valid(a1, b1);
            (merged(a1, b1), (x.0, x.1 + y.1))
        };
        let whole = rest.push(last);
        assert(whole == merged(a, b));
        assert forall|i: int, k: int| 0 <= i < whole.len() && 0 <= k < whole[i].1.len() implies (
        #[trigger] whole[i].1[k]).is_valid() by {
            if i < rest.len() {
                assert(whole[i] == rest[i]);
                assert(rest[i].1[k].is_valid());
            } else if key_before(x.0, y.0) {
                assert(y.1[k].is_valid());
            } else if key_before(y.0, x.0) {
                assert(x.1[k].is_valid());
            } else if k < x.1.len() {
                assert(x.1[k].is_valid());
            } else {
                assert((x.1 + y.1)[k] == y.1[k - x.1.len()]);
                assert(y.1[k - x.1.len()].is_valid());
            }
        }
    }
}

/// All the lines that a list gives for `key`, in the order of the list.
pub open spec fn gathered(pairs: Entries, key: Seq<char>) -> Seq<MatchedLineView>
    decreases pairs.len(),
{
    if pairs.len() == 0 {
        Seq::empty()
    } else if pairs.last().0 == key {
        gathered(pairs.drop_last(), key) + pairs.last().1
    } else {
        gathered(pairs.drop_last(), key)
    }
}

/// What a list adds up to is a summary, and under each source it holds all
/// the lines that the list gives for it, in the order of the list; a source
/// for which the list gives no line is not in it.
pub proof fn lemma_collected_lookup(pairs: Entries, key: Seq<char>)
    ensures
        well_formed(collected(pairs)),
        lookup(collected(pairs), key) == if gathered(pairs, key).len() == 0 {
            None
        } else {
            Some(gathered(pairs, key))
        },
    decreases pairs.len(),
{
    if pairs.len() > 0 {
        let (rest, last) = (pairs.drop_last(), pairs.last());
        let one = single(last.0, last.1);
        lemma_collected_lookup(rest, key);
        lemma_merged_well_formed(collected(rest), one);
        lemma_merged_lookup(collected(rest), one, key);
        assert(lookup(one, key) == if last.1.len() > 0 && last.0 == key {
            Some(last.1)
        } else {
            None
        }) by {
            if last.1.len() > 0 {
                assert(one.last() == last);
                assert(one.drop_last() =~= Seq::empty());
                assert(lookup(one.drop_last(), key) is None);
            }
        }
        if last.0 == key {
            assert(gathered(pairs, key) == gathered(rest, key) + last.1);
            if last.1.len() == 0 {
                assert(gathered(rest, key) + last.1 =~= gathered(rest, key));
            } else if gathered(rest, key).len() == 0 {
                assert(gathered(rest, key) + last.1 =~= last.1);
            }
        }
    }
}

/// Whether `tail` holds the last sources of `whole`, the last of them first.
spec fn holds_end(tail: Seq<(String, Vec<MatchedLine>)>, whole: Entries) -> bool {
    &&& tail.len() <= whole.len()
    &&& forall|k: int|
        0 <= k < tail.len() ==> entry_view(#[trigger] tail[k]) == whole[whole.len() - 1 - k]
}

/// The end of `whole` grows by the source that stands before it.
proof fn lemma_end_grows(
    tail: Seq<(String, Vec<MatchedLine>)>,
    top: (String, Vec<MatchedLine>),
    shorter: Entries,
    whole: Entries,
)
    requires
        holds_end(tail, whole),
        shorter.push(entry_view(top)) == whole.take(whole.len() - tail.len()),
    ensures
        holds_end(tail.push(top), whole),
        shorter == whole.take(whole.len() - tail.push(top).len()),
{
    let front = whole.take(whole.len() - tail.len());
    assert(front.len() == shorter.len() + 1);
    assert(front[shorter.len() as int] == entry_view(top));
    assert(shorter =~= whole.take(whole.len() - tail.len() - 1)) by {
        assert forall|i: int| 0 <= i < shorter.len() implies shorter[i] == whole[i] by {
            assert(shorter.push(entry_view(top))[i] == front[i]);
        }
    }
    let longer = tail.push(top);
    assert forall|k: int| 0 <= k < longer.len() implies entry_view(#[trigger] longer[k])
        == whole[whole.len() - 1 - k] by {
        if k < tail.len() {
            assert(longer[k] == tail[k]);
        }
    }
}

/// The source that `tail` holds last follows what stands before the end.
proof fn lemma_end_shrinks(tail: Seq<(String, Vec<MatchedLine>)>, whole: Entries)
    requires
        holds_end(tail, whole),
        tail.len() > 0,
    ensures
        holds_end(tail.drop_last(), whole),
        whole.take(whole.len() - tail.len()).push(entry_view(tail.last())) == whole.take(
            whole.len() - tail.drop_last().len(),
        ),
{
    let rest = tail.drop_last();
    assert forall|k: int| 0 <= k < rest.len() implies entry_view(#[trigger] rest[k])
        == whole[whole.len() - 1 - k] by {
        assert(rest[k] == tail[k]);
    }
    assert(tail.last() == tail[tail.len() - 1]);
    assert(whole.take(whole.len() - tail.len()).push(entry_view(tail.last())) =~= whole.take(
        whole.len() - rest.len(),
    ));
}

/// The lines that were found, grouped by source. The sources are listed in
/// ascending order of their names, whatever the order in which they were
/// searched; a source without a matched line is not listed.
#[derive(Debug, PartialEq)]
pub struct SearchSummary {
    entries: Vec<(String, Vec<MatchedLine>)>,
}

impl View for SearchSummary {
    type V = Entries;

    closed spec fn view(&self) -> Entries {
        entries_view(self.entries@)
    }
}

impl SearchSummary {
    #[verifier::type_invariant]
    spec fn valid(self) -> bool {
        well_formed(entries_view(self.entries@))
    }

    /// The summary of one source: `matches` under `filename`, or nothing
    /// where `matches` is empty.
    pub fn new(filename: String, matches: Vec<MatchedLine>) -> (summary: Self)
        ensures
            summary@ == single(filename@, lines_view(matches@)),
            well_formed(summary@),
    {
        let mut entries: Vec<(String, Vec<MatchedLine>)> = Vec::new();
        if matches.len() > 0 {
            entries.push((filename, matches));
            assert(entries_view(entries@) =~= single(filename@, lines_view(matches@)));
        } else {
            assert(entries_view(entries@) =~= single(filename@, lines_view(matches@)));
        }
        SearchSummary { entries }
    }

    /// The summary of a search that found nothing.
    pub fn empty() -> (summary: Self)
        ensures
            summary@ == Seq::<(Seq<char>, Seq<MatchedLineView>)>::empty(),
            well_formed(summary@),
    {
        let entries: Vec<(String, Vec<MatchedLine>)> = Vec::new();
        assert(entries_view(entries@) =~= Seq::empty());
        SearchSummary { entries }
    }

    /// The number of sources.
    pub fn len(&self) -> (count: usize)
        ensures
            count == self@.len(),
    {
        self.entries.len()
    }

    /// Whether no source is listed.
    pub fn is_empty(&self) -> (none: bool)
        ensures
            none == (self@.len() == 0),
    {
        self.entries.len() == 0
    }

    /// The lines that are listed under `file`, if it is a source of this
    /// summary.
    pub fn get(&self, file: &str) -> (lines: Option<&Vec<MatchedLine>>)
        ensures
            lines matches Some(listed) ==> lookup(self@, file@) == Some(lines_view(listed@)),
            lines is None ==> lookup(self@, file@) is None,
    {
        proof {
            use_type_invariant(self);
        }
        let ghost all = entries_view(self.entries@);
        let mut low: usize = 0;
        let mut high: usize = self.entries.len();
        while low < high
            invariant
                low <= high <= self.entries.len(),
                all == entries_view(self.entries@),
                keys_ascend(all),
                forall|i: int| 0 <= i < low ==> key_before((#[trigger] all[i]).0, file@),
                forall|i: int| high <= i < all.len() ==> key_before(file@, (#[trigger] all[i]).0),
            decreases high - low,
        {
            let middle = low + (high - low) / 2;
            let ghost here = all[middle as int].0;
            match key_order(self.entries[middle].0.as_str(), file) {
                KeyOrder::Same => {
                    proof {
                        lemma_listed_lookup(all, middle as int);
                    }
                    return Some(&self.entries[middle].1);
                },
                KeyOrder::Before => {
                    assert forall|i: int| 0 <= i < middle + 1 implies key_before(
                        (#[trigger] all[i]).0,
                        file@,
                    ) by {
                        if i < middle {
                            lemma_key_order(all[i].0, here, file@);
                        }
                    }
                    low = middle + 1;
                },
                KeyOrder::After => {
                    assert forall|i: int| middle <= i < all.len() implies key_before(
                        file@,
                        (#[trigger] all[i]).0,
                    ) by {
                        if middle < i {
                            lemma_key_order(file@, here, all[i].0);
                        }
                    }
                    high = middle;
                },
            }
        }
        proof {
            assert forall|i: int| 0 <= i < all.len() implies (#[trigger] all[i]).0 != file@ by {
                lemma_key_order(file@, file@, file@);
            }
            lemma_lookup_absent(all, file@);
        }
        None
    }

    /// Takes the sources of `other` into this summary. A source that both
    /// list keeps its lines and gets those of `other` after them.
    pub fn merge(&mut self, other: Self)
        ensures
            final(self)@ == merged(old(self)@, other@),
            well_formed(final(self)@),
            forall|key: Seq<char>|
                lookup(final(self)@, key) == joined(
                    #[trigger] lookup(old(self)@, key),
                    lookup(other@, key),
                ),
            all_valid(old(self)@) && all_valid(other@) ==> all_valid(final(self)@),
    {
        let ghost whole = merged(self@, other@);
        proof {
            use_type_invariant(&*self);
            use_type_invariant(&other);
            lemma_merged_well_formed(self@, other@);
            if all_valid(self@) && all_valid(other@) {
                lemma_merged_all_valid(self@, other@);
            }
            assert forall|key: Seq<char>|
                lookup(whole, key) == joined(
                    #[trigger] lookup(self@, key),
                    lookup(other@, key),
                ) by {
                lemma_merged_lookup(self@, other@, key);
            }
        }
        let mut left: Vec<(String, Vec<MatchedLine>)> = Vec::new();
        assert(entries_view(left@) =~= Seq::empty());
        std::mem::swap(&mut left, &mut self.entries);
        let mut right = other.entries;
        // The end of the union, last source first.
        let mut tail: Vec<(String, Vec<MatchedLine>)> = Vec::new();
        while left.len() > 0 && right.len() > 0
            invariant
                holds_end(tail@, whole),
                merged(entries_view(left@), entries_view(right@)) == whole.take(
                    whole.len() - tail@.len(),
                ),
            decreases left.len() + right.len(),
        {
            let ghost (a, b) = (entries_view(left@), entries_view(right@));
            let ghost shorter_tail = tail@;
            match key_order(left[left.len() - 1].0.as_str(), right[right.len() - 1].0.as_str()) {
                KeyOrder::Before => {
                    let last = right.pop().unwrap();
                    assert(entries_view(right@) =~= b.drop_last());
                    assert(b.last() == entry_view(last));
                    tail.push(last);
                },
                KeyOrder::After => {
                    proof {
                        lemma_key_order(b.last().0, a.last().0, b.last().0);
                    }
                    let last = left.pop().unwrap();
                    assert(entries_view(left@) =~= a.drop_last());
                    assert(a.last() == entry_view(last));
                    tail.push(last);
                },
                KeyOrder::Same => {
                    proof {
                        lemma_key_order(a.last().0, a.last().0, a.last().0);
                    }
                    let (key, mut lines) = left.pop().unwrap();
                    let (_, mut more) = right.pop().unwrap();
                    assert(entries_view(left@) =~= a.drop_last());
                    assert(entries_view(right@) =~= b.drop_last());
                    let ghost (first, second) = (lines@, more@);
                    lines.append(&mut more);
                    assert(lines_view(lines@) =~= lines_view(first) + lines_view(second));
                    tail.push((key, lines));
                },
            }
            proof {
                let shorter = merged(entries_view(left@), entries_view(right@));
                let top = tail@[tail@.len() - 1];
                assert(tail@ == shorter_tail.push(top));
                assert(merged(a, b) == shorter.push(entry_view(top)));
                lemma_end_grows(shorter_tail, top, shorter, whole);
            }
        }
        let mut entries = if left.len() == 0 {
            right
        } else {
            left
        };
        while tail.len() > 0
            invariant
                holds_end(tail@, whole),
                entries_view(entries@) == whole.take(whole.len() - tail@.len()),
            decreases tail.len(),
        {
            let ghost before = entries_view(entries@);
            let ghost longer_tail = tail@;
            let next = tail.pop().unwrap();
            entries.push(next);
            proof {
                assert(tail@ == longer_tail.drop_last());
                assert(entries_view(entries@) =~= before.push(entry_view(next)));
                lemma_end_shrinks(longer_tail, whole);
            }
        }
        assert(entries_view(entries@) =~= whole);
        self.entries = entries;
    }

    /// The names of the sources, in ascending order.
    pub fn files(&self) -> (names: Vec<String>)
        ensures
            names@.len() == self@.len(),
            forall|i: int| 0 <= i < names@.len() ==> (#[trigger] names@[i])@ == self@[i].0,
            well_formed(self@),
    {
        proof {
            use_type_invariant(self);
        }
        let mut names: Vec<String> = Vec::new();
        let mut i: usize = 0;
        while i < self.entries.len()
            invariant
                i <= self.entries.len(),
                names@.len() == i,
                forall|k: int| 0 <= k < i ==> (#[trigger] names@[k])@ == self.entries@[k].0@,
            decreases self.entries.len() - i,
        {
            names.push(self.entries[i].0.clone());
            i = i + 1;
        }
        names
    }

    /// The summary that `map` adds up to: each source with its lines, taken in
    /// the order of the list. A source that occurs twice gets the later lines
    /// after the earlier ones; a source without lines is left out.
    pub fn from_map(map: Vec<(String, Vec<MatchedLine>)>) -> (summary: Self)
        ensures
            summary@ == collected(entries_view(map@)),
            well_formed(summary@),
            forall|key: Seq<char>|
                #[trigger] lookup(summary@, key) == if gathered(entries_view(map@), key).len()
                    == 0 {
                    None
                } else {
                    Some(gathered(entries_view(map@), key))
                },
    {
        let ghost pairs = entries_view(map@);
        proof {
            assert forall|key: Seq<char>|
                #[trigger] lookup(collected(pairs), key) == if gathered(pairs, key).len() == 0 {
                    None
                } else {
                    Some(gathered(pairs, key))
                } by {
                lemma_collected_lookup(pairs, key);
            }
        }
        let mut summary = SearchSummary::empty();
        for pair in it: map.into_iter()
            invariant
                it.seq() == map@,
                pairs == entries_view(map@),
                summary@ == collected(pairs.take(it.index() as int)),
                well_formed(summary@),
        {
            let ghost n = it.index() as int;
            let (filename, matches) = pair;
            summary.merge(SearchSummary::new(filename, matches));
            proof {
                let upto = pairs.take(n + 1);
                assert(upto.drop_last() =~= pairs.take(n));
                assert(upto.last() == pairs[n]);
            }
        }
        assert(pairs.take(pairs.len() as int) =~= pairs);
        summary
    }

    /// Hands out the sources with their lines, in ascending order of the
    /// sources.
    pub fn into_entries(self) -> (entries: Vec<(String, Vec<MatchedLine>)>)
        ensures
            entries_view(entries@) == self@,
            well_formed(self@),
    {
        proof {
            use_type_invariant(&self);
        }
        self.entries
    }
}

impl Default for SearchSummary {
    /// The summary of a search that found nothing.
    fn default() -> (summary: Self)
        ensures
            summary@ == Seq::<(Seq<char>, Seq<MatchedLineView>)>::empty(),
    {
        SearchSummary::empty()
    }
}

} // verus!
