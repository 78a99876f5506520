//! Highlight spans: from matched character positions to maximal runs, and
//! from runs to the plain and highlighted pieces of a text.

use vstd::prelude::*;

verus! {

/// A half-open span `[start, end)` of character positions.
#[derive(Debug, Clone, Copy, PartialEq, Eq, Structural)]
pub struct HighlightRange {
    pub start: usize,
    pub end: usize,
}

/// A text together with its pieces in reading order, each marked as
/// highlighted or plain.
#[derive(Debug, Clone, PartialEq)]
pub struct SearchResult {
    pub path: String,
    pub highlights: Vec<(String, bool)>,
}

/// Every position is smaller than every later one.
pub open spec fn strictly_ascending(indices: Seq<u32>) -> bool {
    forall|i: int, j: int| 0 <= i < j < indices.len() ==> indices[i] < indices[j]
}

/// Every position lies inside a text of `len` characters.
pub open spec fn within(indices: Seq<u32>, len: nat) -> bool {
    forall|i: int| 0 <= i < indices.len() ==> (#[trigger] indices[i]) < len
}

/// The spans that result from reading `indices` left to right: a position
/// that continues the last span extends it by one, any other opens a span
/// of length one.
pub open spec fn merge_runs(indices: Seq<u32>) -> Seq<HighlightRange>
    decreases indices.len(),
{
    if indices.len() == 0 {
        Seq::empty()
    } else {
        let before = merge_runs(indices.drop_last());
        let at = indices.last() as usize;
        if before.len() > 0 && before.last().end == at {
            before.drop_last().push(
                HighlightRange { start: before.last().start, end: (at + 1) as usize },
            )
        } else {
            before.push(HighlightRange { start: at, end: (at + 1) as usize })
        }
    }
}

/// Each span is non-empty and at least one position lies between a span
/// and the next.
pub open spec fn separated(ranges: Seq<HighlightRange>) -> bool {
    &&& forall|i: int| 0 <= i < ranges.len() ==> (#[trigger] ranges[i]).start < ranges[i].end
    &&& forall|i: int, j: int|
        0 <= i < j < ranges.len() ==> (#[trigger] ranges[i]).end < (#[trigger] ranges[j]).start
}

/// Position `p` lies in one of the spans.
pub open spec fn covered(ranges: Seq<HighlightRange>, p: int) -> bool {
    exists|i: int| 0 <= i < ranges.len() && (#[trigger] ranges[i]).start <= p < ranges[i].end
}

/// The spans are well-formed, in ascending order, do not overlap and end
/// inside a text of `len` characters.
pub open spec fn ranges_fit(ranges: Seq<HighlightRange>, len: nat) -> bool {
    &&& forall|i: int|
        0 <= i < ranges.len() ==> (#[trigger] ranges[i]).start <= ranges[i].end <= len
    &&& forall|i: int, j: int|
        0 <= i < j < ranges.len() ==> (#[trigger] ranges[i]).end <= (#[trigger] ranges[j]).start
}

/// Where the walk through a text stands after the first `k` spans.
pub open spec fn cursor_after(ranges: Seq<HighlightRange>, k: int) -> int {
    if k <= 0 {
        0
    } else {
        ranges[k - 1].end as int
    }
}

/// The pieces that the first `k` spans give: before each span the plain
/// text that separates it from the one before, if there is any, then the
/// span itself.
pub open spec fn leading_segments(text: Seq<char>, ranges: Seq<HighlightRange>, k: int) -> Seq<
    (Seq<char>, bool),
>
    decreases k,
{
    if k <= 0 {
        Seq::empty()
    } else {
        let before = leading_segments(text, ranges, k - 1);
        let from = cursor_after(ranges, k - 1);
        let range = ranges[k - 1];
        let with_gap = if from != range.start {
            before.push((text.subrange(from, range.start as int), false))
        } else {
            before
        };
        with_gap.push((text.subrange(range.start as int, range.end as int), true))
    }
}

/// The pieces of a text under its spans. Without spans the whole text is
/// one plain piece; with spans no piece is added for an empty rest.
pub open spec fn segments(text: Seq<char>, ranges: Seq<HighlightRange>) -> Seq<(Seq<char>, bool)> {
    if ranges.len() == 0 {
        seq![(text, false)]
    } else {
        let lead = leading_segments(text, ranges, ranges.len() as int);
        let from = cursor_after(ranges, ranges.len() as int);
        if from != text.len() {
            lead.push((text.subrange(from, text.len() as int), false))
        } else {
            lead
        }
    }
}

/// The pieces written one after the other.
pub open spec fn joined(pieces: Seq<(Seq<char>, bool)>) -> Seq<char>
    decreases pieces.len(),
{
    if pieces.len() == 0 {
        Seq::empty()
    } else {
        joined(pieces.drop_last()) + pieces.last().0
    }
}

impl HighlightRange {
    /// The span from `start` up to, not including, `end`.
    pub fn new(start: usize, end: usize) -> (range: Self)
        ensures
            range.start == start,
            range.end == end,
    {
        Self { start, end }
    }

    /// Merges consecutive positions into spans.
    pub fn from_highlights(highlights: &Vec<u32>) -> (ranges: Vec<Self>)
        requires
            forall|k: int| 0 <= k < highlights.len() ==> highlights[k] < usize::MAX,
        ensures
            ranges@ == merge_runs(highlights@),
            strictly_ascending(highlights@) ==> separated(ranges@),
            strictly_ascending(highlights@) ==> forall|p: int|
                covered(ranges@, p) <==> has_position(highlights@, p),
    {
        proof {
            if strictly_ascending(highlights@) {
                lemma_runs_are_separated(highlights@, usize::MAX as nat);
                lemma_runs_cover_positions(highlights@, usize::MAX as nat);
            }
        }
        let mut result: Vec<Self> = Vec::new();
        let mut current: Self = Self::new(0, 0);
        let mut k: usize = 0;
        while k < highlights.len()
            invariant
                k <= highlights.len(),
                forall|n: int| 0 <= n < highlights.len() ==> highlights[n] < usize::MAX,
                current.start < current.end || (k == 0 && current.start == 0 && current.end == 0
                    && result@.len() == 0),
                current.start < current.end ==> result@.push(current) == merge_runs(
                    highlights@.take(k as int),
                ),
            decreases highlights.len() - k,
        {
            let highlight: usize = highlights[k] as usize;
            proof {
                assert(highlights@.take(k + 1).drop_last() == highlights@.take(k as int));
                assert(highlights@.take(k + 1).last() == highlights@[k as int]);
                if k == 0 {
                    assert(merge_runs(highlights@.take(0)).len() == 0);
                }
            }
            if current.end == highlight {
                let ghost closed = result@.push(current);
                current.end += 1;
                proof {
                    if k > 0 {
                        assert(closed.drop_last() == result@);
                    }
                }
            } else {
                if current.start != current.end {
                    result.push(current);
                }
                current = Self::new(highlight, highlight + 1);
            }
            k += 1;
        }
        proof {
            assert(highlights@.take(k as int) == highlights@);
        }
        if current.start != current.end {
            result.push(current);
        }
        result
    }
}

/// Splits a text into plain and highlighted pieces along its spans.
pub fn segment(text: &str, ranges: &Vec<HighlightRange>) -> (pieces: Vec<(String, bool)>)
    requires
        ranges_fit(ranges@, text@.len()),
    ensures
        pieces.deep_view() == segments(text@, ranges@),
        joined(pieces.deep_view()) == text@,
{
    proof {
        lemma_segments_rebuild_text(text@, ranges@);
    }
    let mut pieces: Vec<(String, bool)> = Vec::new();
    if ranges.len() == 0 {
        pieces.push((text.to_owned(), false));
        assert(pieces.deep_view() =~= segments(text@, ranges@));
        return pieces;
    }
    let len: usize = text.unicode_len();
    let mut current: usize = 0;
    let mut k: usize = 0;
    while k < ranges.len()
        invariant
            k <= ranges.len(),
            len == text@.len(),
            ranges_fit(ranges@, text@.len()),
            current == cursor_after(ranges@, k as int),
            current <= len,
            pieces.deep_view() == leading_segments(text@, ranges@, k as int),
        decreases ranges.len() - k,
    {
        let range: HighlightRange = ranges[k];
        proof {
            if k > 0 {
                assert(ranges@[k - 1].end <= ranges@[k as int].start);
            }
        }
        if current != range.start {
            let ghost before = pieces.deep_view();
            let gap: String = text.substring_char(current, range.start).to_owned();
            pieces.push((gap, false));
            assert(pieces.deep_view() =~= before.push(
                (text@.subrange(current as int, range.start as int), false),
            ));
        }
        let ghost before = pieces.deep_view();
        let marked: String = text.substring_char(range.start, range.end).to_owned();
        pieces.push((marked, true));
        assert(pieces.deep_view() =~= before.push(
            (text@.subrange(range.start as int, range.end as int), true),
        ));
        current = range.end;
        k += 1;
    }
    if current != len {
        let ghost before = pieces.deep_view();
        let rest: String = text.substring_char(current, len).to_owned();
        pieces.push((rest, false));
        assert(pieces.deep_view() =~= before.push(
            (text@.subrange(current as int, len as int), false),
        ));
    }
    pieces
}

/// Whether the spans are well-formed, in ascending order without overlap,
/// and end inside the text.
pub fn ranges_fit_text(text: &str, ranges: &Vec<HighlightRange>) -> (fit: bool)
    ensures
        fit == ranges_fit(ranges@, text@.len()),
{
    let len: usize = text.unicode_len();
    let mut k: usize = 0;
    while k < ranges.len()
        invariant
            k <= ranges.len(),
            len == text@.len(),
            forall|i: int| 0 <= i < k ==> (#[trigger] ranges[i]).start <= ranges[i].end <= len,
            forall|i: int, j: int|
                0 <= i < j < k ==> (#[trigger] ranges[i]).end <= (#[trigger] ranges[j]).start,
            forall|i: int| 0 <= i < k ==> (#[trigger] ranges[i]).end <= ranges[k - 1].end,
        decreases ranges.len() - k,
    {
        let range: HighlightRange = ranges[k];
        if range.start > range.end || range.end > len {
            assert(!(ranges@[k as int].start <= ranges@[k as int].end <= len));
            return false;
        }
        if k > 0 && ranges[k - 1].end > range.start {
            assert(!(ranges@[k - 1].end <= ranges@[k as int].start));
            return false;
        }
        k += 1;
    }
    true
}

/// Whether the positions are ascending, each once, and lie inside the text.
pub fn positions_fit(text: &str, indices: &Vec<u32>) -> (fit: bool)
    ensures
        fit == (strictly_ascending(indices@) && within(indices@, text@.len())),
{
    let len: usize = text.unicode_len();
    let mut k: usize = 0;
    while k < indices.len()
        invariant
            k <= indices.len(),
            len == text@.len(),
            forall|i: int, j: int| 0 <= i < j < k ==> indices[i] < indices[j],
            forall|i: int| 0 <= i < k ==> indices[i] < len,
        decreases indices.len() - k,
    {
        if indices[k] as usize >= len {
            assert(!within(indices@, text@.len())) by {
                assert(indices@[k as int] >= len);
            }
            return false;
        }
        if k > 0 && indices[k - 1] >= indices[k] {
            assert(!strictly_ascending(indices@)) by {
                assert(indices@[k - 1] >= indices@[k as int]);
            }
            return false;
        }
        assert forall|i: int| 0 <= i < k implies indices[i] < indices[k as int] by {
            if i < k - 1 {
                assert(indices[i] < indices[k - 1]);
            }
        }
        k += 1;
    }
    true
}

impl SearchResult {
    /// The text with the pieces that its matched positions give, or `None`
    /// where the positions are not ascending or do not lie inside the text.
    pub fn try_new(path: String, indices: Vec<u32>) -> (result: Option<Self>)
        ensures
            result is Some <==> strictly_ascending(indices@) && within(indices@, path@.len()),
            result matches Some(made) ==> made.path@ == path@ && made.highlights.deep_view()
                == segments(path@, merge_runs(indices@)),
    {
        if positions_fit(path.as_str(), &indices) {
            Some(Self::new(path, indices))
        } else {
            None
        }
    }

    /// The text with the pieces that its matched positions give.
    pub fn new(path: String, indices: Vec<u32>) -> (result: Self)
        requires
            strictly_ascending(indices@),
            within(indices@, path@.len()),
        ensures
            result.path@ == path@,
            result.highlights.deep_view() == segments(path@, merge_runs(indices@)),
            joined(result.highlights.deep_view()) == path@,
    {
        let len: usize = path.as_str().unicode_len();
        proof {
            lemma_runs_are_separated(indices@, path@.len());
        }
        let highlight_ranges = HighlightRange::from_highlights(&indices);
        let highlights = segment(path.as_str(), &highlight_ranges);
        SearchResult { path, highlights }
    }
}

/// Position `p` is one of `indices`.
pub open spec fn has_position(indices: Seq<u32>, p: int) -> bool {
    exists|k: int| 0 <= k < indices.len() && #[trigger] indices[k] == p
}

/// The spans of ascending positions are non-empty, ascending and apart
/// from each other, and they end inside the text; the last one ends just
/// behind the last position.
pub proof fn lemma_runs_are_separated(indices: Seq<u32>, len: nat)
    requires
        strictly_ascending(indices),
        within(indices, len),
        len <= usize::MAX,
    ensures
        separated(merge_runs(indices)),
        ranges_fit(merge_runs(indices), len),
        indices.len() == 0 <==> merge_runs(indices).len() == 0,
        indices.len() > 0 ==> merge_runs(indices).last().end == indices.last() + 1,
    decreases indices.len(),
{
    let runs = merge_runs(indices);
    if indices.len() > 0 {
        let front = indices.drop_last();
        let before = merge_runs(front);
        let at = indices.last();
        assert(at == indices[indices.len() - 1]);
        lemma_runs_are_separated(front, len);
        if front.len() > 0 {
            assert(front.last() == indices[indices.len() - 2]);
            assert(before.last().end <= at);
        }
        assert forall|i: int| 0 <= i < before.len() implies (#[trigger] before[i]).end <= at by {
            if i < before.len() - 1 {
                assert(before[i].end < before[before.len() - 1].start);
            }
        }
        let extends = before.len() > 0 && before.last().end == at as usize;
        let kept = if extends {
            before.drop_last()
        } else {
            before
        };
        let newest = if extends {
            HighlightRange { start: before.last().start, end: (at + 1) as usize }
        } else {
            HighlightRange { start: at as usize, end: (at + 1) as usize }
        };
        assert(runs == kept.push(newest));
        assert forall|i: int| 0 <= i < runs.len() - 1 implies #[trigger] runs[i] == before[i] by {}
        assert forall|i: int| 0 <= i < runs.len() implies (#[trigger] runs[i]).start < runs[i].end
            && runs[i].start <= runs[i].end <= len by {
            if i < runs.len() - 1 {
                assert(runs[i] == before[i]);
            }
        }
        assert forall|i: int, j: int| 0 <= i < j < runs.len() implies (#[trigger] runs[i]).end < (
        #[trigger] runs[j]).start && runs[i].end <= runs[j].start by {
            assert(runs[i] == before[i]);
            if j < runs.len() - 1 {
                assert(runs[j] == before[j]);
            } else if extends {
                assert(runs[j].start == before[j].start);
            } else {
                assert(before[i].end <= at);
                assert(before[i].end != at) by {
                    if i < before.len() - 1 {
                        assert(before[i].end < before[before.len() - 1].start);
                    }
                }
            }
        }
    }
}

/// The spans of ascending positions cover those positions and no other.
pub proof fn lemma_runs_cover_positions(indices: Seq<u32>, len: nat)
    requires
        strictly_ascending(indices),
        within(indices, len),
        len <= usize::MAX,
    ensures
        forall|p: int| #[trigger] covered(merge_runs(indices), p) ==> has_position(indices, p),
        forall|p: int| #[trigger] has_position(indices, p) ==> covered(merge_runs(indices), p),
    decreases indices.len(),
{
    let runs = merge_runs(indices);
    if indices.len() > 0 {
        let front = indices.drop_last();
        let before = merge_runs(front);
        let at = indices.last();
        let last = runs.len() - 1;
        assert(at == indices[indices.len() - 1]);
        lemma_runs_cover_positions(front, len);
        lemma_runs_are_separated(front, len);
        lemma_runs_are_separated(indices, len);
        let extends = before.len() > 0 && before.last().end == at as usize;
        assert forall|i: int| 0 <= i < last implies #[trigger] runs[i] == before[i] by {}
        assert(runs[last].end == at + 1);
        assert(extends ==> runs[last].start == before[before.len() - 1].start && last
            == before.len() - 1);
        assert(!extends ==> runs[last].start == at && last == before.len());
        assert forall|p: int| #[trigger] covered(runs, p) implies has_position(indices, p) by {
            let i = choose|i: int|
                0 <= i < runs.len() && (#[trigger] runs[i]).start <= p < runs[i].end;
            if p == at {
                assert(indices[indices.len() - 1] == p);
            } else {
                if i < last {
                    assert(runs[i] == before[i]);
                    assert(before[i].start <= p < before[i].end);
                } else {
                    assert(extends);
                    assert(before[before.len() - 1].start <= p < before[before.len() - 1].end);
                }
                assert(covered(before, p));
                assert(has_position(front, p));
                let k = choose|k: int| 0 <= k < front.len() && #[trigger] front[k] == p;
                assert(front[k] == indices[k]);
                assert(indices[k] == p);
            }
        }
        assert forall|p: int| #[trigger] has_position(indices, p) implies covered(runs, p) by {
            let k = choose|k: int| 0 <= k < indices.len() && #[trigger] indices[k] == p;
            if k == indices.len() - 1 {
                assert(runs[last].start <= p < runs[last].end);
            } else {
                assert(front[k] == indices[k]);
                assert(has_position(front, p));
                assert(covered(before, p));
                let i = choose|i: int|
                    0 <= i < before.len() && (#[trigger] before[i]).start <= p < before[i].end;
                if i < last {
                    assert(runs[i] == before[i]);
                    assert(runs[i].start <= p < runs[i].end);
                } else {
                    assert(runs[last].start <= p < runs[last].end);
                }
            }
        }
    }
}

proof fn lemma_joined_push(pieces: Seq<(Seq<char>, bool)>, piece: (Seq<char>, bool))
    ensures
        joined(pieces.push(piece)) == joined(pieces) + piece.0,
{
    assert(pieces.push(piece).drop_last() == pieces);
}

proof fn lemma_leading_segments_join(text: Seq<char>, ranges: Seq<HighlightRange>, k: int)
    requires
        ranges_fit(ranges, text.len()),
        0 <= k <= ranges.len(),
    ensures
        0 <= cursor_after(ranges, k) <= text.len(),
        joined(leading_segments(text, ranges, k)) == text.subrange(0, cursor_after(ranges, k)),
    decreases k,
{
    if k > 0 {
        lemma_leading_segments_join(text, ranges, k - 1);
        let before = leading_segments(text, ranges, k - 1);
        let from = cursor_after(ranges, k - 1);
        let range = ranges[k - 1];
        if k > 1 {
            assert(ranges[k - 2].end <= ranges[k - 1].start);
        }
        let gap = (text.subrange(from, range.start as int), false);
        let marked = (text.subrange(range.start as int, range.end as int), true);
        if from != range.start {
            lemma_joined_push(before, gap);
            lemma_joined_push(before.push(gap), marked);
        } else {
            lemma_joined_push(before, marked);
        }
        if from != range.start {
            assert(text.subrange(0, from) + gap.0 + marked.0 =~= text.subrange(
                0,
                range.end as int,
            ));
        } else {
            assert(text.subrange(0, from) + marked.0 =~= text.subrange(0, range.end as int));
        }
    }
}

/// Written one after the other, the pieces of a text under spans that fit
/// it give the text back.
pub proof fn lemma_segments_rebuild_text(text: Seq<char>, ranges: Seq<HighlightRange>)
    requires
        ranges_fit(ranges, text.len()),
    ensures
        joined(segments(text, ranges)) == text,
{
    if ranges.len() == 0 {
        lemma_joined_push(Seq::empty(), (text, false));
        assert(seq![(text, false)] =~= Seq::<(Seq<char>, bool)>::empty().push((text, false)));
        assert(Seq::<char>::empty() + text =~= text);
    } else {
        let n = ranges.len() as int;
        lemma_leading_segments_join(text, ranges, n);
        let lead = leading_segments(text, ranges, n);
        let from = cursor_after(ranges, n);
        if from != text.len() {
            lemma_joined_push(lead, (text.subrange(from, text.len() as int), false));
            assert(text.subrange(0, from) + text.subrange(from, text.len() as int) =~= text);
        } else {
            assert(text.subrange(0, from) =~= text);
        }
    }
}

/// Merging ascending positions of a text into spans and splitting the text
/// along them loses nothing: the pieces, written one after the other, are
/// the text.
pub proof fn lemma_highlights_rebuild_text(text: Seq<char>, indices: Seq<u32>)
    requires
        strictly_ascending(indices),
        within(indices, text.len()),
        text.len() <= usize::MAX,
    ensures
        joined(segments(text, merge_runs(indices))) == text,
{
    lemma_runs_are_separated(indices, text.len());
    lemma_segments_rebuild_text(text, merge_runs(indices));
}

/// No piece is empty and each piece differs from the next in whether it is
/// highlighted.
pub open spec fn alternating(pieces: Seq<(Seq<char>, bool)>) -> bool {
    &&& forall|i: int| 0 <= i < pieces.len() ==> (#[trigger] pieces[i]).0.len() > 0
    &&& forall|i: int| 0 <= i < pieces.len() - 1 ==> (#[trigger] pieces[i]).1 != pieces[i + 1].1
}

proof fn lemma_alternating_push(pieces: Seq<(Seq<char>, bool)>, piece: (Seq<char>, bool))
    requires
        alternating(pieces),
        piece.0.len() > 0,
        pieces.len() > 0 ==> pieces.last().1 != piece.1,
    ensures
        alternating(pieces.push(piece)),
{
    let grown = pieces.push(piece);
    assert forall|i: int| 0 <= i < grown.len() implies (#[trigger] grown[i]).0.len() > 0 by {
        if i < pieces.len() {
            assert(grown[i] == pieces[i]);
        }
    }
    assert forall|i: int| 0 <= i < grown.len() - 1 implies (#[trigger] grown[i]).1 != grown[i
        + 1].1 by {
        assert(grown[i] == pieces[i]);
        if i + 1 < pieces.len() {
            assert(grown[i + 1] == pieces[i + 1]);
        }
    }
}

proof fn lemma_leading_segments_alternate(text: Seq<char>, ranges: Seq<HighlightRange>, k: int)
    requires
        separated(ranges),
        ranges_fit(ranges, text.len()),
        1 <= k <= ranges.len(),
    ensures
        alternating(leading_segments(text, ranges, k)),
        leading_segments(text, ranges, k).len() > 0,
        leading_segments(text, ranges, k).last().1,
    decreases k,
{
    let before = leading_segments(text, ranges, k - 1);
    let from = cursor_after(ranges, k - 1);
    let range = ranges[k - 1];
    let gap = (text.subrange(from, range.start as int), false);
    let marked = (text.subrange(range.start as int, range.end as int), true);
    if k > 1 {
        lemma_leading_segments_alternate(text, ranges, k - 1);
        assert(ranges[k - 2].end < ranges[k - 1].start);
        lemma_alternating_push(before, gap);
        lemma_alternating_push(before.push(gap), marked);
    } else {
        assert(before.len() == 0);
        if from != range.start {
            lemma_alternating_push(before, gap);
            lemma_alternating_push(before.push(gap), marked);
        } else {
            lemma_alternating_push(before, marked);
        }
    }
}

/// Under spans that lie apart the pieces of a text alternate between plain
/// and highlighted, and none of them is empty.
pub proof fn lemma_segments_alternate(text: Seq<char>, ranges: Seq<HighlightRange>)
    requires
        separated(ranges),
        ranges_fit(ranges, text.len()),
        ranges.len() > 0,
    ensures
        alternating(segments(text, ranges)),
{
    let n = ranges.len() as int;
    lemma_leading_segments_alternate(text, ranges, n);
    let lead = leading_segments(text, ranges, n);
    let from = cursor_after(ranges, n);
    if from != text.len() {
        lemma_alternating_push(lead, (text.subrange(from, text.len() as int), false));
    }
}

/// The pieces that a text has under its matched positions alternate
/// between plain and highlighted, and none of them is empty.
pub proof fn lemma_highlights_alternate(text: Seq<char>, indices: Seq<u32>)
    requires
        strictly_ascending(indices),
        within(indices, text.len()),
        text.len() <= usize::MAX,
        indices.len() > 0,
    ensures
        alternating(segments(text, merge_runs(indices))),
{
    lemma_runs_are_separated(indices, text.len());
    lemma_segments_alternate(text, merge_runs(indices));
}

} // verus!
