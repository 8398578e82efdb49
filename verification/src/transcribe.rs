//! Transcription: what is heard on each channel becomes one speaker-attributed
//! [`Transcript`].
//!
//! Speaker attribution is structural, not statistical: a recording has the
//! near end (microphone) on one channel and the far end (system audio) on the
//! other, so each channel is transcribed on its own and every segment is
//! attributed by which channel it came from.

use vstd::prelude::*;

use crate::duration::Duration;
use crate::error::EngineError;
use crate::model;
use crate::model::{RecordingScenario, Speaker, Transcript, TranscriptSegment};
use crate::text;
use crate::text::trim;

verus! {

/// `std::path::Path`, handed to a backend as it came.
#[verifier::external_type_specification]
#[verifier::external_body]
pub struct ExPath(std::path::Path);

/// A transcription backend.
pub trait Transcriber: Send {
    /// Transcribes a finished recording into a timecoded transcript. The
    /// scenario decides whether the far channel is read.
    fn transcribe(&self, recording: &std::path::Path, scenario: RecordingScenario) -> Result<
        Transcript,
        EngineError,
    >;
}

/// One segment as the speech model reports it, its times in centiseconds (100
/// is one second).
#[derive(Debug)]
pub struct HeardSegment {
    pub text: String,
    pub t0: i64,
    pub t1: i64,
}

/// What a [`HeardSegment`] says.
pub struct HeardView {
    pub text: Seq<char>,
    pub t0: int,
    pub t1: int,
}

impl View for HeardSegment {
    type V = HeardView;

    open spec fn view(&self) -> HeardView {
        HeardView { text: self.text@, t0: self.t0 as int, t1: self.t1 as int }
    }
}

/// What a row of heard segments says.
pub open spec fn heard_views(segments: Seq<HeardSegment>) -> Seq<HeardView> {
    Seq::new(segments.len(), |i: int| segments[i]@)
}

/// The largest number of centiseconds whose milliseconds fit a `u64`.
pub const MAX_CENTISECONDS: i64 = 1_844_674_407_370_955_161;

/// Whether the times of all segments that say something fit.
pub open spec fn times_fit(segments: Seq<HeardSegment>) -> bool {
    forall|i: int|
        0 <= i < segments.len() && text::trimmed((#[trigger] segments[i]).text@).len() > 0
            ==> segments[i].t0 <= MAX_CENTISECONDS && segments[i].t1 <= MAX_CENTISECONDS
}

/// A time in centiseconds as nanoseconds; a negative one counts as zero.
pub open spec fn centisecond_nanos(value: int) -> nat {
    if value > 0 {
        (value * 10_000_000) as nat
    } else {
        0
    }
}

/// A time in centiseconds as a span from the start; a negative one counts as
/// zero.
pub fn centiseconds(value: i64) -> (d: Duration)
    requires
        value <= MAX_CENTISECONDS,
    ensures
        d.nanoseconds() == centisecond_nanos(value as int),
{
    if value > 0 {
        Duration::from_millis(value as u64 * 10)
    } else {
        Duration::from_millis(0)
    }
}

/// The segments of one channel: those that say something, trimmed and
/// attributed to the speaker.
pub open spec fn attributed(heard: Seq<HeardView>, speaker: Speaker) -> Seq<model::TimedText>
    decreases heard.len(),
{
    if heard.len() == 0 {
        Seq::empty()
    } else {
        let before = attributed(heard.drop_last(), speaker);
        let last = heard.last();
        if text::trimmed(last.text).len() == 0 {
            before
        } else {
            before.push(
                model::TimedText {
                    speaker,
                    start: centisecond_nanos(last.t0),
                    end: centisecond_nanos(last.t1),
                    text: text::trimmed(last.text),
                },
            )
        }
    }
}

/// Attributes what was heard on one channel to `speaker`, leaving out blank
/// segments.
pub fn transcribe_channel(heard: &Vec<HeardSegment>, speaker: Speaker) -> (segments: Vec<
    TranscriptSegment,
>)
    requires
        times_fit(heard@),
    ensures
        model::timed_texts(segments@) == attributed(heard_views(heard@), speaker),
{
    let ghost views = heard_views(heard@);
    let mut segments: Vec<TranscriptSegment> = Vec::new();
    let mut i: usize = 0;
    assert(views.take(0) == Seq::<HeardView>::empty());
    while i < heard.len()
        invariant
            i <= heard@.len(),
            times_fit(heard@),
            views == heard_views(heard@),
            model::timed_texts(segments@) == attributed(views.take(i as int), speaker),
        decreases heard@.len() - i,
    {
        let one = &heard[i];
        proof {
            assert(views.take(i + 1).drop_last() == views.take(i as int));
            assert(views.take(i + 1).last() == one@);
        }
        let text = trim(one.text.as_str());
        if !text.is_empty() {
            let ghost before = segments@;
            let segment = TranscriptSegment {
                speaker,
                start: centiseconds(one.t0),
                end: centiseconds(one.t1),
                text: text.to_string(),
            };
            segments.push(segment);
            assert(model::timed_texts(segments@) == model::timed_texts(before).push(segment@));
        }
        i += 1;
    }
    assert(views.take(i as int) == views);
    segments
}

// --- one timeline ----------------------------------------------------

/// Whether segments are ordered by their start.
pub open spec fn ordered(segments: Seq<model::TimedText>) -> bool {
    forall|i: int, j: int|
        0 <= i <= j < segments.len() ==> (#[trigger] segments[i]).start <= (
        #[trigger] segments[j]).start
}

/// The segments that start at a given time, in their order.
pub open spec fn starting_at(segments: Seq<model::TimedText>, start: nat) -> Seq<model::TimedText>
    decreases segments.len(),
{
    if segments.len() == 0 {
        Seq::empty()
    } else if segments.last().start == start {
        starting_at(segments.drop_last(), start).push(segments.last())
    } else {
        starting_at(segments.drop_last(), start)
    }
}

/// Whether `timeline` holds the given segments ordered by their start, those
/// that start together in the order they were given.
pub open spec fn is_timeline(
    timeline: Seq<model::TimedText>,
    segments: Seq<model::TimedText>,
) -> bool {
    &&& ordered(timeline)
    &&& forall|start: nat| #[trigger] starting_at(timeline, start) == starting_at(segments, start)
}

proof fn lemma_starting_at_push(segments: Seq<model::TimedText>, x: model::TimedText, start: nat)
    ensures
        starting_at(segments.push(x), start) == if x.start == start {
            starting_at(segments, start).push(x)
        } else {
            starting_at(segments, start)
        },
{
    assert(segments.push(x).drop_last() == segments);
}

proof fn lemma_starting_at_insert(
    segments: Seq<model::TimedText>,
    pos: int,
    x: model::TimedText,
    start: nat,
)
    requires
        0 <= pos <= segments.len(),
        forall|i: int| pos <= i < segments.len() ==> (#[trigger] segments[i]).start > x.start,
    ensures
        starting_at(segments.insert(pos, x), start) == starting_at(segments.push(x), start),
    decreases segments.len(),
{
    lemma_starting_at_push(segments, x, start);
    if pos == segments.len() {
        assert(segments.insert(pos, x) == segments.push(x));
    } else {
        let front = segments.drop_last();
        let last = segments.last();
        assert(last == segments[segments.len() - 1]);
        assert(segments.insert(pos, x).drop_last() == front.insert(pos, x));
        assert(segments.insert(pos, x).last() == last);
        assert forall|i: int| pos <= i < front.len() implies (#[trigger] front[i]).start
            > x.start by {
            assert(front[i] == segments[i]);
        }
        lemma_starting_at_insert(front, pos, x, start);
        lemma_starting_at_push(front, x, start);
        lemma_starting_at_push(front, last, start);
        lemma_starting_at_push(front.insert(pos, x), last, start);
        assert(front.push(last) == segments);
        assert(front.insert(pos, x).push(last) == segments.insert(pos, x));
    }
}

/// Puts the segments of both channels on one timeline ordered by start time.
/// Segments that start together keep their order, the near end first.
fn timeline(near: Vec<TranscriptSegment>, far: Vec<TranscriptSegment>) -> (out: Vec<
    TranscriptSegment,
>)
    ensures
        is_timeline(
            model::timed_texts(out@),
            model::timed_texts(near@) + model::timed_texts(far@),
        ),
{
    let mut all = near;
    let mut rest = far;
    let ghost given = near@ + far@;
    all.append(&mut rest);
    let ghost views = model::timed_texts(given);
    assert(views == model::timed_texts(near@) + model::timed_texts(far@));
    let mut out: Vec<TranscriptSegment> = Vec::new();
    assert(views.take(0) == Seq::<model::TimedText>::empty());
    assert(model::timed_texts(out@) == Seq::<model::TimedText>::empty());
    for segment in it: all
        invariant
            it.seq() == given,
            views == model::timed_texts(given),
            is_timeline(model::timed_texts(out@), views.take(it.index() as int)),
    {
        let ghost n = it.index() as int;
        let ghost before = model::timed_texts(out@);
        let mut pos: usize = out.len();
        while pos > 0 && segment.start < out[pos - 1].start
            invariant
                before == model::timed_texts(out@),
                ordered(before),
                pos <= out@.len(),
                forall|i: int| pos <= i < before.len() ==> (#[trigger] before[i]).start
                    > segment@.start,
            decreases pos,
        {
            assert(before[pos - 1] == out@[pos - 1]@);
            pos -= 1;
        }
        let ghost inserted = segment@;
        assert(pos > 0 ==> before[pos - 1] == out@[pos - 1]@);
        out.insert(pos, segment);
        proof {
            let after = model::timed_texts(out@);
            assert(after == before.insert(pos as int, inserted));
            assert(views.take(n + 1) == views.take(n).push(inserted));
            assert(views.take(n + 1).drop_last() == views.take(n));
            assert(before.push(inserted).drop_last() == before);
            assert forall|start: nat| #[trigger] starting_at(after, start) == starting_at(
                views.take(n + 1),
                start,
            ) by {
                lemma_starting_at_insert(before, pos as int, inserted, start);
                assert(starting_at(before, start) == starting_at(views.take(n), start));
            }
            assert forall|i: int, j: int| 0 <= i <= j < after.len() implies (
            #[trigger] after[i]).start <= (#[trigger] after[j]).start by {
                if i < pos && j >= pos {
                    assert(before[i].start <= before[pos - 1].start);
                }
            }
        }
    }
    assert(views.take(given.len() as int) == views);
    out
}

/// What a recording of this scenario says: the near end, and the far end if
/// the scenario has one.
pub open spec fn said(
    near: Seq<HeardView>,
    far: Seq<HeardView>,
    scenario: RecordingScenario,
) -> Seq<model::TimedText> {
    attributed(near, Speaker::Near) + match scenario {
        RecordingScenario::VirtualMeeting => attributed(far, Speaker::Far),
        _ => Seq::empty(),
    }
}

/// Makes the transcript of a recording from what was heard on its two
/// channels. The two ends are interleaved back into one timeline ordered by
/// start time; the far channel counts only where the scenario captures system
/// audio.
pub fn transcript_of(
    near: &Vec<HeardSegment>,
    far: &Vec<HeardSegment>,
    scenario: RecordingScenario,
) -> (transcript: Transcript)
    requires
        times_fit(near@),
        scenario == RecordingScenario::VirtualMeeting ==> times_fit(far@),
    ensures
        is_timeline(
            model::timed_texts(transcript.segments@),
            said(heard_views(near@), heard_views(far@), scenario),
        ),
{
    let near_segments = transcribe_channel(near, Speaker::Near);
    let far_segments = if scenario.captures_system_audio() {
        transcribe_channel(far, Speaker::Far)
    } else {
        let none: Vec<TranscriptSegment> = Vec::new();
        assert(model::timed_texts(none@) == Seq::<model::TimedText>::empty());
        none
    };
    Transcript { segments: timeline(near_segments, far_segments) }
}

proof fn lemma_starting_at_member(segments: Seq<model::TimedText>, start: nat, x: model::TimedText)
    ensures
        starting_at(segments, start).contains(x) <==> segments.contains(x) && x.start == start,
    decreases segments.len(),
{
    if segments.len() > 0 {
        let front = segments.drop_last();
        let last = segments.last();
        lemma_starting_at_member(front, start, x);
        let kept = starting_at(front, start);
        if starting_at(segments, start).contains(x) {
            if kept.contains(x) {
                let i = choose|i: int| 0 <= i < front.len() && front[i] == x;
                assert(segments[i] == x);
            } else {
                let i = choose|i: int|
                    0 <= i < starting_at(segments, start).len() && starting_at(segments, start)[i]
                        == x;
                if i < kept.len() {
                    assert(kept[i] == x);
                }
                assert(segments[segments.len() - 1] == x);
            }
        }
        if segments.contains(x) && x.start == start {
            let i = choose|i: int| 0 <= i < segments.len() && segments[i] == x;
            if i < front.len() {
                assert(front[i] == x);
                let k = choose|k: int| 0 <= k < kept.len() && kept[k] == x;
                assert(starting_at(segments, start)[k] == x);
            } else {
                assert(starting_at(segments, start)[kept.len() as int] == x);
            }
        }
    }
}

/// A timeline holds just the segments it was made of.
pub proof fn law_timeline_keeps_segments(
    timeline: Seq<model::TimedText>,
    segments: Seq<model::TimedText>,
    x: model::TimedText,
)
    requires
        is_timeline(timeline, segments),
    ensures
        timeline.contains(x) <==> segments.contains(x),
{
    lemma_starting_at_member(timeline, x.start, x);
    lemma_starting_at_member(segments, x.start, x);
    assert(starting_at(timeline, x.start) == starting_at(segments, x.start));
}

/// What was given and how a timeline is made determine it: there is no second
/// way to order the same segments.
pub proof fn law_timeline_unique(
    one: Seq<model::TimedText>,
    two: Seq<model::TimedText>,
    segments: Seq<model::TimedText>,
)
    requires
        is_timeline(one, segments),
        is_timeline(two, segments),
    ensures
        one == two,
{
    assert forall|start: nat| #[trigger] starting_at(one, start) == starting_at(two, start) by {
        assert(starting_at(one, start) == starting_at(segments, start));
        assert(starting_at(two, start) == starting_at(segments, start));
    }
    lemma_same_times_same_order(one, two);
}

proof fn lemma_same_times_same_order(one: Seq<model::TimedText>, two: Seq<model::TimedText>)
    requires
        ordered(one),
        ordered(two),
        forall|start: nat| #[trigger] starting_at(one, start) == starting_at(two, start),
    ensures
        one == two,
    decreases one.len() + two.len(),
{
    if one.len() == 0 && two.len() == 0 {
        assert(one == two);
    } else if one.len() == 0 {
        let x = two.last();
        assert(starting_at(one, x.start) == starting_at(two, x.start));
        assert(starting_at(two, x.start).len() > 0);
    } else if two.len() == 0 {
        let x = one.last();
        assert(starting_at(one, x.start) == starting_at(two, x.start));
        assert(starting_at(one, x.start).len() > 0);
    } else {
        let (x, y) = (one.last(), two.last());
        assert(x == one[one.len() - 1] && y == two[two.len() - 1]);
        assert(one.contains(x) && two.contains(y));
        lemma_starting_at_member(one, x.start, x);
        lemma_starting_at_member(two, x.start, x);
        lemma_starting_at_member(one, y.start, y);
        lemma_starting_at_member(two, y.start, y);
        assert(starting_at(one, x.start) == starting_at(two, x.start));
        assert(starting_at(one, y.start) == starting_at(two, y.start));
        assert(two.contains(x) && one.contains(y));
        let i = choose|i: int| 0 <= i < two.len() && two[i] == x;
        let j = choose|j: int| 0 <= j < one.len() && one[j] == y;
        assert(two[i].start <= two[two.len() - 1].start);
        assert(one[j].start <= one[one.len() - 1].start);
        assert(x.start == y.start);
        assert(starting_at(one, x.start).last() == x);
        assert(starting_at(two, x.start).last() == y);
        let (a, b) = (one.drop_last(), two.drop_last());
        assert forall|start: nat| #[trigger] starting_at(a, start) == starting_at(b, start) by {
            assert(starting_at(one, start) == starting_at(two, start));
            if start == x.start {
                assert(starting_at(one, start).drop_last() == starting_at(a, start));
                assert(starting_at(two, start).drop_last() == starting_at(b, start));
            }
        }
        assert(ordered(a)) by {
            assert forall|i: int, j: int| 0 <= i <= j < a.len() implies (#[trigger] a[i]).start
                <= (#[trigger] a[j]).start by {
                assert(one[i].start <= one[j].start);
            }
        }
        assert(ordered(b)) by {
            assert forall|i: int, j: int| 0 <= i <= j < b.len() implies (#[trigger] b[i]).start
                <= (#[trigger] b[j]).start by {
                assert(two[i].start <= two[j].start);
            }
        }
        lemma_same_times_same_order(a, b);
        assert(one == a.push(x));
        assert(two == b.push(y));
    }
}

proof fn lemma_attributed_speaker(heard: Seq<HeardView>, speaker: Speaker)
    ensures
        forall|i: int|
            0 <= i < attributed(heard, speaker).len() ==> (#[trigger] attributed(
                heard,
                speaker,
            )[i]).speaker == speaker && attributed(heard, speaker)[i].text.len() > 0,
    decreases heard.len(),
{
    if heard.len() > 0 {
        lemma_attributed_speaker(heard.drop_last(), speaker);
    }
}

/// Every segment of a transcript says something, and it is the operator's
/// where the scenario has a single microphone.
pub proof fn law_attribution(
    timeline: Seq<model::TimedText>,
    near: Seq<HeardView>,
    far: Seq<HeardView>,
    scenario: RecordingScenario,
)
    requires
        is_timeline(timeline, said(near, far, scenario)),
    ensures
        forall|i: int|
            0 <= i < timeline.len() ==> (#[trigger] timeline[i]).text.len() > 0 && (scenario
                != RecordingScenario::VirtualMeeting ==> timeline[i].speaker == Speaker::Near),
{
    lemma_attributed_speaker(near, Speaker::Near);
    lemma_attributed_speaker(far, Speaker::Far);
    let all = said(near, far, scenario);
    assert forall|i: int| 0 <= i < timeline.len() implies (#[trigger] timeline[i]).text.len() > 0
        && (scenario != RecordingScenario::VirtualMeeting ==> timeline[i].speaker
        == Speaker::Near) by {
        let x = timeline[i];
        assert(timeline.contains(x));
        law_timeline_keeps_segments(timeline, all, x);
        let k = choose|k: int| 0 <= k < all.len() && all[k] == x;
        let first = attributed(near, Speaker::Near);
        if k < first.len() {
            assert(first[k] == x);
        } else {
            assert(attributed(far, Speaker::Far)[k - first.len()] == x);
        }
    }
}

proof fn lemma_attributed_from(heard: Seq<HeardView>, speaker: Speaker)
    requires
        forall|i: int| 0 <= i < heard.len() ==> (#[trigger] heard[i]).t0 <= heard[i].t1,
    ensures
        forall|i: int|
            0 <= i < attributed(heard, speaker).len() ==> (#[trigger] attributed(
                heard,
                speaker,
            )[i]).start <= attributed(heard, speaker)[i].end,
    decreases heard.len(),
{
    if heard.len() > 0 {
        lemma_attributed_from(heard.drop_last(), speaker);
    }
}

/// If no segment was heard to end before it started, none in the transcript
/// does; and the transcript is ordered by start time.
pub proof fn law_times_in_order(
    timeline: Seq<model::TimedText>,
    near: Seq<HeardView>,
    far: Seq<HeardView>,
    scenario: RecordingScenario,
)
    requires
        is_timeline(timeline, said(near, far, scenario)),
        forall|i: int| 0 <= i < near.len() ==> (#[trigger] near[i]).t0 <= near[i].t1,
        forall|i: int| 0 <= i < far.len() ==> (#[trigger] far[i]).t0 <= far[i].t1,
    ensures
        ordered(timeline),
        forall|i: int|
            0 <= i < timeline.len() ==> (#[trigger] timeline[i]).start <= timeline[i].end,
{
    lemma_attributed_from(near, Speaker::Near);
    lemma_attributed_from(far, Speaker::Far);
    let all = said(near, far, scenario);
    assert forall|i: int| 0 <= i < timeline.len() implies (#[trigger] timeline[i]).start
        <= timeline[i].end by {
        let x = timeline[i];
        assert(timeline.contains(x));
        law_timeline_keeps_segments(timeline, all, x);
        let k = choose|k: int| 0 <= k < all.len() && all[k] == x;
        let first = attributed(near, Speaker::Near);
        if k < first.len() {
            assert(first[k] == x);
        } else {
            assert(attributed(far, Speaker::Far)[k - first.len()] == x);
        }
    }
}

// --- nothing heard is lost -------------------------------------------

/// What is heard on a channel is what is heard of its beginning and then of its
/// rest, wherever it is cut.
pub proof fn law_channel_in_two(a: Seq<HeardView>, b: Seq<HeardView>, speaker: Speaker)
    ensures
        attributed(a + b, speaker) == attributed(a, speaker) + attributed(b, speaker),
    decreases b.len(),
{
    if b.len() == 0 {
        assert(a + b == a);
        assert(attributed(a, speaker) + attributed(b, speaker) == attributed(a, speaker));
    } else {
        law_channel_in_two(a, b.drop_last(), speaker);
        assert((a + b).drop_last() == a + b.drop_last());
        assert((a + b).last() == b.last());
        if text::trimmed(b.last().text).len() > 0 {
            let one = attributed(b, speaker).last();
            assert((attributed(a, speaker) + attributed(b.drop_last(), speaker)).push(one)
                == attributed(a, speaker) + attributed(b.drop_last(), speaker).push(one));
        }
    }
}

/// A heard segment is said once, by the speaker of its channel, with the whole
/// of its text between the white space around it, however long; its times are
/// hundredths of a second, those before the start counted as the start. A blank
/// one is not said.
pub proof fn law_segment_said_whole(
    lead: Seq<char>,
    core: Seq<char>,
    tail: Seq<char>,
    t0: int,
    t1: int,
    speaker: Speaker,
)
    requires
        forall|i: int| 0 <= i < lead.len() ==> text::is_white_space(#[trigger] lead[i]),
        forall|i: int| 0 <= i < tail.len() ==> text::is_white_space(#[trigger] tail[i]),
        core.len() > 0 ==> !text::is_white_space(core[0]) && !text::is_white_space(core.last()),
    ensures
        ({
            let said = attributed(
                seq![HeardView { text: lead + core + tail, t0, t1 }],
                speaker,
            );
            if core.len() == 0 {
                said.len() == 0
            } else {
                &&& said.len() == 1
                &&& said[0].text == core
                &&& said[0].speaker == speaker
                &&& t0 >= 0 ==> said[0].start * 100 == t0 * 1_000_000_000
                &&& t1 >= 0 ==> said[0].end * 100 == t1 * 1_000_000_000
                &&& t0 < 0 ==> said[0].start == 0
                &&& t1 < 0 ==> said[0].end == 0
            }
        }),
{
    let one = seq![HeardView { text: lead + core + tail, t0, t1 }];
    text::law_trimmed_keeps_the_text(lead, core, tail);
    assert(one.drop_last() == Seq::<HeardView>::empty());
    assert(attributed(one.drop_last(), speaker) == Seq::<model::TimedText>::empty());
}

proof fn lemma_said_at(heard: Seq<HeardView>, i: int, speaker: Speaker)
    requires
        0 <= i < heard.len(),
        text::trimmed(heard[i].text).len() > 0,
    ensures
        attributed(heard, speaker).contains(
            (model::TimedText {
                speaker,
                start: centisecond_nanos(heard[i].t0),
                end: centisecond_nanos(heard[i].t1),
                text: text::trimmed(heard[i].text),
            }),
        ),
{
    let before = heard.take(i);
    let one = seq![heard[i]];
    let after = heard.skip(i + 1);
    assert(heard == before + one + after);
    law_channel_in_two(before + one, after, speaker);
    law_channel_in_two(before, one, speaker);
    assert(one.drop_last() == Seq::<HeardView>::empty());
    assert(attributed(one.drop_last(), speaker) == Seq::<model::TimedText>::empty());
    let x = attributed(before, speaker).len() as int;
    assert(attributed(one, speaker).len() == 1);
    assert(attributed(heard, speaker)[x] == attributed(one, speaker)[0]);
}

/// Every segment heard on a channel that is read appears in the transcript, with
/// its speaker, its times and the whole of its text but for the white space
/// around it: the near channel always, the far channel in a virtual meeting.
pub proof fn law_all_that_is_heard_is_said(
    timeline: Seq<model::TimedText>,
    near: Seq<HeardView>,
    far: Seq<HeardView>,
    scenario: RecordingScenario,
    i: int,
    lead: Seq<char>,
    core: Seq<char>,
    tail: Seq<char>,
)
    requires
        is_timeline(timeline, said(near, far, scenario)),
        forall|k: int| 0 <= k < lead.len() ==> text::is_white_space(#[trigger] lead[k]),
        forall|k: int| 0 <= k < tail.len() ==> text::is_white_space(#[trigger] tail[k]),
        core.len() > 0,
        !text::is_white_space(core[0]) && !text::is_white_space(core.last()),
        i >= 0,
    ensures
        i < near.len() && near[i].text == lead + core + tail && near[i].t0 >= 0 && near[i].t1
            >= 0 ==> exists|k: int|
            0 <= k < timeline.len() && (#[trigger] timeline[k]).text == core && timeline[k].speaker
                == Speaker::Near && timeline[k].start * 100 == near[i].t0 * 1_000_000_000
                && timeline[k].end * 100 == near[i].t1 * 1_000_000_000,
        scenario == RecordingScenario::VirtualMeeting && i < far.len() && far[i].text == lead + core
            + tail && far[i].t0 >= 0 && far[i].t1 >= 0 ==> exists|k: int|
            0 <= k < timeline.len() && (#[trigger] timeline[k]).text == core && timeline[k].speaker
                == Speaker::Far && timeline[k].start * 100 == far[i].t0 * 1_000_000_000
                && timeline[k].end * 100 == far[i].t1 * 1_000_000_000,
{
    text::law_trimmed_keeps_the_text(lead, core, tail);
    let all = said(near, far, scenario);
    let first = attributed(near, Speaker::Near);
    if i < near.len() && near[i].text == lead + core + tail && near[i].t0 >= 0 && near[i].t1 >= 0 {
        let x = model::TimedText {
            speaker: Speaker::Near,
            start: centisecond_nanos(near[i].t0),
            end: centisecond_nanos(near[i].t1),
            text: core,
        };
        lemma_said_at(near, i, Speaker::Near);
        let k = choose|k: int| 0 <= k < first.len() && first[k] == x;
        assert(all[k] == x);
        law_timeline_keeps_segments(timeline, all, x);
        let m = choose|m: int| 0 <= m < timeline.len() && timeline[m] == x;
        assert(timeline[m].text == core);
    }
    if scenario == RecordingScenario::VirtualMeeting && i < far.len() && far[i].text == lead + core
        + tail && far[i].t0 >= 0 && far[i].t1 >= 0 {
        let x = model::TimedText {
            speaker: Speaker::Far,
            start: centisecond_nanos(far[i].t0),
            end: centisecond_nanos(far[i].t1),
            text: core,
        };
        lemma_said_at(far, i, Speaker::Far);
        let second = attributed(far, Speaker::Far);
        let k = choose|k: int| 0 <= k < second.len() && second[k] == x;
        assert(all[first.len() + k] == x);
        law_timeline_keeps_segments(timeline, all, x);
        let m = choose|m: int| 0 <= m < timeline.len() && timeline[m] == x;
        assert(timeline[m].text == core);
    }
}

proof fn lemma_starting_at_count(segments: Seq<model::TimedText>, x: model::TimedText)
    ensures
        segments.to_multiset().count(x) == starting_at(segments, x.start).to_multiset().count(x),
    decreases segments.len(),
{
    broadcast use vstd::seq_lib::group_to_multiset_ensures;

    if segments.len() > 0 {
        let front = segments.drop_last();
        lemma_starting_at_count(front, x);
        assert(front.push(segments.last()) == segments);
        assert(segments.to_multiset() == front.to_multiset().insert(segments.last()));
        if segments.last().start == x.start {
            let kept = starting_at(front, x.start);
            assert(kept.push(segments.last()).to_multiset() == kept.to_multiset().insert(
                segments.last(),
            ));
        }
    }
}

/// The timeline is the segments of both channels, each as often as it was given,
/// in the order of their starts; those that start together keep the order in
/// which they were given.
pub proof fn law_timeline_is_a_stable_order(
    timeline: Seq<model::TimedText>,
    segments: Seq<model::TimedText>,
    start: nat,
)
    requires
        is_timeline(timeline, segments),
    ensures
        timeline.to_multiset() == segments.to_multiset(),
        timeline.len() == segments.len(),
        forall|i: int, j: int|
            0 <= i <= j < timeline.len() ==> (#[trigger] timeline[i]).start <= (
            #[trigger] timeline[j]).start,
        timeline.filter(|x: model::TimedText| x.start == start) == segments.filter(
            |x: model::TimedText| x.start == start,
        ),
{
    broadcast use vstd::seq_lib::group_to_multiset_ensures;

    assert forall|x: model::TimedText| #[trigger]
        timeline.to_multiset().count(x) == segments.to_multiset().count(x) by {
        lemma_starting_at_count(timeline, x);
        lemma_starting_at_count(segments, x);
        assert(starting_at(timeline, x.start) == starting_at(segments, x.start));
    }
    assert(timeline.to_multiset() =~= segments.to_multiset());
    assert(timeline.to_multiset().len() == timeline.len());
    lemma_starting_at_filter(timeline, start);
    lemma_starting_at_filter(segments, start);
    assert(starting_at(timeline, start) == starting_at(segments, start));
}

proof fn lemma_starting_at_filter(segments: Seq<model::TimedText>, start: nat)
    ensures
        segments.filter(|x: model::TimedText| x.start == start) == starting_at(segments, start),
    decreases segments.len(),
{
    reveal(Seq::filter);
    if segments.len() > 0 {
        lemma_starting_at_filter(segments.drop_last(), start);
    }
}

/// The near channel is said whole; the far channel is said whole in a virtual
/// meeting and not at all otherwise.
pub proof fn law_channels_that_are_read(
    near: Seq<HeardView>,
    far: Seq<HeardView>,
    scenario: RecordingScenario,
)
    ensures
        said(near, Seq::empty(), scenario) == attributed(near, Speaker::Near),
        scenario == RecordingScenario::VirtualMeeting ==> said(near, far, scenario) == attributed(
            near,
            Speaker::Near,
        ) + attributed(far, Speaker::Far),
        scenario != RecordingScenario::VirtualMeeting ==> said(near, far, scenario) == said(
            near,
            Seq::empty(),
            scenario,
        ),
{
    assert(attributed(Seq::empty(), Speaker::Far) == Seq::<model::TimedText>::empty());
    assert(said(near, Seq::empty(), scenario) == attributed(near, Speaker::Near));
    if scenario != RecordingScenario::VirtualMeeting {
        assert(said(near, far, scenario) == attributed(near, Speaker::Near));
    }
}

} // verus!
