//! Cutting a long transcript into overlapping chunks.

use core::ops::Range;

use vstd::prelude::*;

use crate::model::RecordingScenario;
use crate::prompt;
use crate::text;
use crate::text::trim;
use crate::wire;
use crate::wire::WireSegment;

verus! {

/// Target rendered characters of primary content per chunk.
pub const CHUNK_CHARS: usize = 11_000;

/// Segments from the end of one chunk repeated at the start of the next, so a
/// chunk does not begin mid-thought.
pub const OVERLAP_SEGMENTS: usize = 2;

/// The size of one rendered transcript line in characters: its text, and an
/// allowance for the timecode and the speaker.
pub open spec fn rendered_size(segment: wire::SegmentView) -> nat {
    text::trimmed(segment.text).len() + 16
}

/// The size of the lines from `start` up to `end`.
pub open spec fn span_size(segments: Seq<wire::SegmentView>, start: int, end: int) -> nat
    decreases end - start,
{
    if end <= start {
        0
    } else {
        span_size(segments, start, end - 1) + rendered_size(segments[end - 1])
    }
}

/// Where the chunk that opens at `start` ends, looking from `end` on: as soon
/// as its lines reach the target size, or with the last segment.
pub open spec fn chunk_end(segments: Seq<wire::SegmentView>, start: int, end: int) -> int
    decreases segments.len() - end,
{
    if end >= segments.len() || (end > start && span_size(segments, start, end) >= CHUNK_CHARS) {
        end
    } else {
        chunk_end(segments, start, end + 1)
    }
}

/// Where the chunk after one from `start` to `end` opens: at its overlap tail,
/// but always further on than `start`.
pub open spec fn next_start(start: int, end: int) -> int {
    if end - OVERLAP_SEGMENTS > start {
        end - OVERLAP_SEGMENTS
    } else {
        start + 1
    }
}

/// The chunks from `start` on, each as its first segment and the one after
/// its last.
pub open spec fn chunks_from(segments: Seq<wire::SegmentView>, start: int) -> Seq<(int, int)>
    decreases segments.len() - start,
{
    if start < 0 || start >= segments.len() {
        Seq::empty()
    } else {
        let end = chunk_end(segments, start, start);
        if end >= segments.len() {
            seq![(start, end)]
        } else {
            seq![(start, end)] + chunks_from(segments, next_start(start, end))
        }
    }
}

/// What a row of ranges says.
pub open spec fn range_views(ranges: Seq<Range<usize>>) -> Seq<(int, int)> {
    Seq::new(ranges.len(), |i: int| (ranges[i].start as int, ranges[i].end as int))
}

/// The size of one rendered transcript line, e.g. `[72s] Me: ...`. The prefix
/// is small and bounded.
pub fn rendered_len(segment: &WireSegment) -> (n: usize)
    ensures
        n as nat == (if rendered_size(segment@) <= usize::MAX {
            rendered_size(segment@)
        } else {
            usize::MAX as nat
        }),
{
    let len = trim(segment.text.as_str()).unicode_len();
    if len <= usize::MAX - 16 {
        len + 16
    } else {
        usize::MAX
    }
}

/// Splits segments into overlapping chunks of roughly [`CHUNK_CHARS`] of
/// rendered content. Each chunk after the first repeats the last
/// [`OVERLAP_SEGMENTS`] segments of the one before it, as far as the chunk
/// still moves on.
pub fn chunk_ranges(segments: &[WireSegment]) -> (ranges: Vec<Range<usize>>)
    ensures
        range_views(ranges@) == chunks_from(wire::segment_views(segments@), 0),
{
    let ghost views = wire::segment_views(segments@);
    let mut ranges: Vec<Range<usize>> = Vec::new();
    let mut start: usize = 0;
    while start < segments.len()
        invariant_except_break
            start <= segments@.len(),
            range_views(ranges@) + chunks_from(views, start as int) == chunks_from(views, 0),
        invariant
            views == wire::segment_views(segments@),
        ensures
            range_views(ranges@) == chunks_from(views, 0),
        decreases segments@.len() - start,
    {
        let mut end: usize = start;
        let mut size: usize = 0;
        while end < segments.len()
            invariant_except_break
                chunk_end(views, start as int, end as int) == chunk_end(
                    views,
                    start as int,
                    start as int,
                ),
                size == span_size(views, start as int, end as int),
                size < CHUNK_CHARS,
            invariant
                views == wire::segment_views(segments@),
                start <= end <= segments@.len(),
                start < segments@.len(),
            ensures
                end == chunk_end(views, start as int, start as int),
                end > start,
            decreases segments@.len() - end,
        {
            let len = rendered_len(&segments[end]);
            assert(views[end as int] == segments@[end as int]@);
            end += 1;
            assert(span_size(views, start as int, end as int) == size + rendered_size(
                views[end - 1],
            ));
            assert(chunk_end(views, start as int, end as int) == chunk_end(
                views,
                start as int,
                end - 1,
            ));
            if len >= CHUNK_CHARS - size {
                break;
            }
            size += len;
        }
        let ghost before = range_views(ranges@);
        ranges.push(start..end);
        assert(range_views(ranges@) == before.push((start as int, end as int)));
        if end >= segments.len() {
            assert(before.push((start as int, end as int)) == before + seq![(start as int, end as int)]);
            break;
        }
        let next: usize = if end > OVERLAP_SEGMENTS && end - OVERLAP_SEGMENTS > start {
            end - OVERLAP_SEGMENTS
        } else {
            start + 1
        };
        assert(before.push((start as int, end as int)) + chunks_from(views, next as int) == before
            + (seq![(start as int, end as int)] + chunks_from(views, next as int)));
        start = next;
    }
    ranges
}

proof fn lemma_chunk_end(segments: Seq<wire::SegmentView>, start: int, end: int)
    requires
        0 <= start <= end <= segments.len(),
        start < segments.len(),
        end > start ==> span_size(segments, start, end - 1) < CHUNK_CHARS,
    ensures
        start < chunk_end(segments, start, end) <= segments.len(),
        end <= chunk_end(segments, start, end),
        chunk_end(segments, start, end) < segments.len() ==> span_size(
            segments,
            start,
            chunk_end(segments, start, end),
        ) >= CHUNK_CHARS,
        span_size(segments, start, chunk_end(segments, start, end) - 1) < CHUNK_CHARS,
    decreases segments.len() - end,
{
    if !(end >= segments.len() || (end > start && span_size(segments, start, end) >= CHUNK_CHARS)) {
        lemma_chunk_end(segments, start, end + 1);
    }
}

proof fn lemma_span_inside(segments: Seq<wire::SegmentView>, a: int, b: int, c: int, d: int)
    requires
        a <= b,
        c <= d,
    ensures
        span_size(segments, b, c) <= span_size(segments, a, d),
    decreases d - a,
{
    if d > a {
        if c == d {
            if b < d {
                lemma_span_inside(segments, a, b, d - 1, d - 1);
            }
        } else {
            lemma_span_inside(segments, a, b, c, d - 1);
        }
    }
}

proof fn lemma_next_reaches(segments: Seq<wire::SegmentView>, start: int, end: int)
    requires
        0 <= start < end < segments.len(),
        span_size(segments, start, end - 1) < CHUNK_CHARS,
    ensures
        end <= chunk_end(segments, next_start(start, end), next_start(start, end)),
{
    let next = next_start(start, end);
    lemma_chunk_end(segments, next, next);
    let reached = chunk_end(segments, next, next);
    if reached < end {
        lemma_span_inside(segments, start, next, reached, end - 1);
    }
}

/// The chunks of a transcript begin with its first segment and end with its
/// last; each moves on from the one before it and leaves no gap, repeating as
/// many of its last segments as it can while moving on, up to the overlap; and
/// a chunk stops as soon as it reaches the target size.
pub proof fn law_chunks_cover(segments: Seq<wire::SegmentView>, start: int)
    requires
        0 <= start < segments.len(),
    ensures
        chunks_from(segments, start).len() > 0,
        chunks_from(segments, start)[0].0 == start,
        chunks_from(segments, start).last().1 == segments.len(),
        forall|i: int|
            0 <= i < chunks_from(segments, start).len() ==> {
                let (from, to) = #[trigger] chunks_from(segments, start)[i];
                &&& start <= from < to <= segments.len()
                &&& span_size(segments, from, to - 1) < CHUNK_CHARS
                &&& i + 1 < chunks_from(segments, start).len() ==> span_size(segments, from, to)
                    >= CHUNK_CHARS
            },
        forall|i: int, j: int|
            0 <= i && j == i + 1 && j < chunks_from(segments, start).len() ==> {
                let (from, to) = #[trigger] chunks_from(segments, start)[i];
                let (next_from, next_to) = #[trigger] chunks_from(segments, start)[j];
                &&& from < next_from <= to <= next_to
                &&& to - next_from == if to - from > OVERLAP_SEGMENTS {
                    OVERLAP_SEGMENTS as int
                } else {
                    to - from - 1
                }
            },
    decreases segments.len() - start,
{
    let end = chunk_end(segments, start, start);
    lemma_chunk_end(segments, start, start);
    let chunks = chunks_from(segments, start);
    if end < segments.len() {
        let next = next_start(start, end);
        law_chunks_cover(segments, next);
        let rest = chunks_from(segments, next);
        assert(chunks == seq![(start, end)] + rest);
        assert(forall|i: int| 1 <= i < chunks.len() ==> chunks[i] == #[trigger] rest[i - 1]);
        assert(chunks.last() == rest.last());
        lemma_chunk_end(segments, next, next);
        assert(rest[0].1 == chunk_end(segments, next, next));
        lemma_next_reaches(segments, start, end);
        assert forall|i: int| 0 <= i < chunks.len() implies {
            let (from, to) = #[trigger] chunks[i];
            &&& start <= from < to <= segments.len()
            &&& span_size(segments, from, to - 1) < CHUNK_CHARS
            &&& i + 1 < chunks.len() ==> span_size(segments, from, to) >= CHUNK_CHARS
        } by {
            if i > 0 {
                assert(chunks[i] == rest[i - 1]);
            }
        }
        assert forall|i: int, j: int| 0 <= i && j == i + 1 && j < chunks.len() implies {
            let (from, to) = #[trigger] chunks[i];
            let (next_from, next_to) = #[trigger] chunks[j];
            &&& from < next_from <= to <= next_to
            &&& to - next_from == if to - from > OVERLAP_SEGMENTS {
                OVERLAP_SEGMENTS as int
            } else {
                to - from - 1
            }
        } by {
            assert(chunks[j] == rest[j - 1]);
            if i > 0 {
                assert(chunks[i] == rest[i - 1]);
            }
        }
    }
}

/// Every segment is in one of the chunks.
pub proof fn law_every_segment_in_a_chunk(
    segments: Seq<wire::SegmentView>,
    start: int,
    k: int,
) -> (i: int)
    requires
        0 <= start <= k < segments.len(),
    ensures
        0 <= i < chunks_from(segments, start).len(),
        chunks_from(segments, start)[i].0 <= k < chunks_from(segments, start)[i].1,
    decreases segments.len() - start,
{
    let end = chunk_end(segments, start, start);
    lemma_chunk_end(segments, start, start);
    if k < end {
        0
    } else {
        let next = next_start(start, end);
        let i = law_every_segment_in_a_chunk(segments, next, k);
        assert(chunks_from(segments, start)[i + 1] == chunks_from(segments, next)[i]);
        i + 1
    }
}

/// The size of a line is no underestimate while the timecode has at most four
/// digits: the timecode and the speaker fit the allowance.
pub proof fn law_rendered_size_covers_line(
    segment: wire::SegmentView,
    scenario: RecordingScenario,
)
    requires
        segment.start_secs < 10_000,
    ensures
        prompt::segment_line(segment, scenario).len() <= rendered_size(segment),
{
    reveal_with_fuel(text::decimal, 4);
    reveal_strlit("[");
    reveal_strlit("s] ");
    reveal_strlit("Me: ");
    reveal_strlit("Other: ");
    reveal_strlit("\n");
    assert(text::decimal(segment.start_secs as nat).len() <= 4);
}

/// A line's size grows with its text, character by character: two lines differ
/// in size by as much as their texts differ in length.
pub proof fn law_size_grows_with_the_text(a: wire::SegmentView, b: wire::SegmentView)
    ensures
        rendered_size(a) - rendered_size(b) == text::trimmed(a.text).len() - text::trimmed(
            b.text,
        ).len(),
{
}

/// The sizes of neighbouring spans add up, and a span of one line has its size.
pub proof fn law_sizes_add_up(segments: Seq<wire::SegmentView>, a: int, b: int, c: int)
    requires
        a <= b <= c,
    ensures
        span_size(segments, a, c) == span_size(segments, a, b) + span_size(segments, b, c),
        span_size(segments, a, a + 1) == rendered_size(segments[a]),
        span_size(segments, a, a) == 0,
    decreases c - b,
{
    assert(span_size(segments, a, a) == 0);
    assert(span_size(segments, a, a + 1) == span_size(segments, a, a) + rendered_size(segments[a]));
    if c > b {
        law_sizes_add_up(segments, a, b, c - 1);
    }
}

/// A chunk takes segments until its rendered lines come to 11,000 characters, and
/// the next one repeats its last two.
pub proof fn law_chunk_is_filled(segments: Seq<wire::SegmentView>, i: int)
    requires
        0 <= i < chunks_from(segments, 0).len(),
    ensures
        ({
            let (from, to) = chunks_from(segments, 0)[i];
            &&& 0 <= from < to <= segments.len()
            &&& span_size(segments, from, to - 1) < 11_000
            &&& to < segments.len() ==> span_size(segments, from, to) >= 11_000
            &&& i + 1 < chunks_from(segments, 0).len() && to - from > 2 ==> chunks_from(
                segments,
                0,
            )[i + 1].0 == to - 2
        }),
{
    if segments.len() > 0 {
        law_chunks_cover(segments, 0);
        let chunks = chunks_from(segments, 0);
        assert(chunks[i].0 < chunks[i].1);
        if i + 1 < chunks.len() {
            let j = i + 1;
            assert(chunks[i].0 < chunks[j].0);
        } else {
            assert(chunks[i] == chunks.last());
        }
    }
}

} // verus!
