//! Note generation: a [`Transcript`] to structured [`Notes`].
//!
//! [`NotesGenerator`] is the pluggable backend seam. [`SidecarNotesGenerator`]
//! is the default: it runs the notes sidecar, a local process, and speaks to
//! it over a small JSON protocol on its standard streams.

use vstd::prelude::*;

use crate::duration::Duration;
use crate::error::EngineError;
use crate::model;
use crate::model::{BillableDraft, NoteItem, Notes, RecordingScenario, Speaker, Transcript,
    TranscriptSegment};
use crate::prompt;
use crate::response;
use crate::text;
use crate::text::trim;
use crate::wire;
use crate::wire::{cite_within, WireItem, WireNotes, WireSegment, EMPTY_TRANSCRIPT};

verus! {

/// `std::path::PathBuf`, kept as it came.
#[verifier::external_type_specification]
#[verifier::external_body]
pub struct ExPathBuf(std::path::PathBuf);

/// A note-generation backend.
pub trait NotesGenerator: Send {
    /// Synthesizes the fixed-shape notes from a transcript.
    ///
    /// `context` is an optional operator-supplied note about the meeting
    /// (parties, matter, what to focus on); it grounds the summary. `scenario`
    /// tells the model how to read the transcript: one speaker, two sides, or
    /// an unseparated room.
    fn generate(
        &self,
        transcript: &Transcript,
        context: Option<&str>,
        scenario: RecordingScenario,
    ) -> Result<Notes, EngineError>;
}

/// Runs note generation in the sidecar process.
///
/// It holds the path to the sidecar binary and the path to the notes model.
/// Both are read fresh on every run, so one generator can be reused across
/// sessions.
#[derive(Debug)]
pub struct SidecarNotesGenerator {
    pub sidecar: std::path::PathBuf,
    pub model: std::path::PathBuf,
}

impl SidecarNotesGenerator {
    /// `sidecar` is the sidecar executable; `model` is an instruction model.
    pub fn new(sidecar: std::path::PathBuf, model: std::path::PathBuf) -> (g: Self)
        ensures
            g.sidecar == sidecar,
            g.model == model,
    {
        SidecarNotesGenerator { sidecar, model }
    }
}

// --- what the sidecar is sent ----------------------------------------

/// A transcript as it is sent to the sidecar.
#[derive(Debug)]
pub struct WireTranscript {
    /// The recording scenario, as a snake_case tag the sidecar reads.
    pub scenario: &'static str,
    pub context: Option<String>,
    pub segments: Vec<WireSegment>,
}

/// The tag of a scenario.
pub open spec fn scenario_tag(scenario: RecordingScenario) -> Seq<char> {
    match scenario {
        RecordingScenario::SoloMemo => "solo_memo"@,
        RecordingScenario::VirtualMeeting => "virtual_meeting"@,
        RecordingScenario::InPersonMeeting => "in_person_meeting"@,
    }
}

/// The tag of a speaker.
pub open spec fn speaker_tag(speaker: Speaker) -> Seq<char> {
    match speaker {
        Speaker::Near => "near"@,
        Speaker::Far => "far"@,
    }
}

/// Whether a segment is sent as this wire segment: times cut to whole seconds,
/// everything else as it is.
pub open spec fn sent_as(segment: model::TimedText, wire: wire::SegmentView) -> bool {
    &&& wire.speaker == speaker_tag(segment.speaker)
    &&& wire.start_secs as nat == segment.start / 1_000_000_000
    &&& wire.end_secs as nat == segment.end / 1_000_000_000
    &&& wire.text == segment.text
}

/// The operator's context as it is sent: trimmed, and left out if nothing is
/// left of it.
pub open spec fn sent_context(context: Option<Seq<char>>) -> Option<Seq<char>> {
    match context {
        Some(c) => if text::trimmed(c).len() > 0 {
            Some(text::trimmed(c))
        } else {
            None
        },
        None => None,
    }
}

/// What an optional context says.
pub open spec fn context_view(context: Option<&str>) -> Option<Seq<char>> {
    match context {
        Some(c) => Some(c@),
        None => None,
    }
}

fn wire_segment(segment: &TranscriptSegment) -> (wire: WireSegment)
    ensures
        sent_as(segment@, wire@),
{
    WireSegment {
        speaker: match segment.speaker {
            Speaker::Near => "near".to_string(),
            Speaker::Far => "far".to_string(),
        },
        start_secs: segment.start.as_secs(),
        end_secs: segment.end.as_secs(),
        text: segment.text.clone(),
    }
}

impl WireTranscript {
    /// The wire form of a transcript, with the operator's context and the
    /// recording scenario.
    pub fn new(
        transcript: &Transcript,
        context: Option<&str>,
        scenario: RecordingScenario,
    ) -> (wire: WireTranscript)
        ensures
            wire.scenario@ == scenario_tag(scenario),
            prompt::optional_text(wire.context) == sent_context(context_view(context)),
            wire.segments@.len() == transcript.segments@.len(),
            forall|i: int|
                0 <= i < wire.segments@.len() ==> sent_as(
                    transcript.segments@[i]@,
                    (#[trigger] wire.segments@[i])@,
                ),
    {
        let mut segments: Vec<WireSegment> = Vec::new();
        let mut i: usize = 0;
        while i < transcript.segments.len()
            invariant
                i <= transcript.segments@.len(),
                segments@.len() == i,
                forall|k: int|
                    0 <= k < segments@.len() ==> sent_as(
                        transcript.segments@[k]@,
                        (#[trigger] segments@[k])@,
                    ),
            decreases transcript.segments@.len() - i,
        {
            segments.push(wire_segment(&transcript.segments[i]));
            i += 1;
        }
        let context = match context {
            Some(c) => {
                let c = trim(c);
                if c.is_empty() {
                    None
                } else {
                    Some(c.to_string())
                }
            },
            None => None,
        };
        let scenario = match scenario {
            RecordingScenario::SoloMemo => "solo_memo",
            RecordingScenario::VirtualMeeting => "virtual_meeting",
            RecordingScenario::InPersonMeeting => "in_person_meeting",
        };
        WireTranscript { scenario, context, segments }
    }
}

/// What the sidecar is sent for a transcript. An empty one is refused.
pub fn sidecar_request(
    transcript: &Transcript,
    context: Option<&str>,
    scenario: RecordingScenario,
) -> (r: Result<WireTranscript, EngineError>)
    ensures
        match r {
            Ok(wire) => {
                &&& transcript.segments@.len() > 0
                &&& wire.scenario@ == scenario_tag(scenario)
                &&& prompt::optional_text(wire.context) == sent_context(context_view(context))
                &&& wire.segments@.len() == transcript.segments@.len()
                &&& forall|i: int|
                    0 <= i < wire.segments@.len() ==> sent_as(
                        transcript.segments@[i]@,
                        (#[trigger] wire.segments@[i])@,
                    )
            },
            Err(EngineError::Notes(message)) => transcript.segments@.len() == 0 && message@
                == EMPTY_TRANSCRIPT@,
            Err(_) => false,
        },
{
    if transcript.segments.len() == 0 {
        return Err(EngineError::Notes(EMPTY_TRANSCRIPT.to_string()));
    }
    Ok(WireTranscript::new(transcript, context, scenario))
}

// --- what the sidecar sends back -------------------------------------

/// Whether a note line is what a wire item stands for.
pub open spec fn item_stands_for(wire: wire::ItemView, item: NoteItem) -> bool {
    &&& item.text@ == wire.text
    &&& match (wire.source_secs, item.source) {
        (Some(secs), Some(source)) => source.nanoseconds() == secs * 1_000_000_000,
        (None, None) => true,
        _ => false,
    }
}

/// Whether note lines are what wire items stand for, in their order.
pub open spec fn items_stand_for(wire: Seq<wire::ItemView>, items: Seq<NoteItem>) -> bool {
    &&& wire.len() == items.len()
    &&& forall|i: int| 0 <= i < items.len() ==> item_stands_for(wire[i], #[trigger] items[i])
}

/// Whether notes are what wire notes stand for.
pub open spec fn stands_for(wire: wire::NotesView, notes: Notes) -> bool {
    &&& notes.summary@ == wire.summary
    &&& items_stand_for(wire.decisions, notes.decisions@)
    &&& items_stand_for(wire.action_items, notes.action_items@)
    &&& match (wire.billable, notes.billable) {
        (Some(w), Some(b)) => b.duration.nanoseconds() == w.duration_secs * 1_000_000_000
            && b.description@ == w.description,
        (None, None) => true,
        _ => false,
    }
}

fn note_items(wire: Vec<WireItem>) -> (items: Vec<NoteItem>)
    ensures
        items_stand_for(wire::item_views(wire@), items@),
{
    let mut items: Vec<NoteItem> = Vec::new();
    for item in it: wire
        invariant
            it.seq() == wire@,
            items@.len() == it.index(),
            forall|i: int|
                0 <= i < items@.len() ==> item_stands_for(wire@[i]@, #[trigger] items@[i]),
    {
        let source = match item.source_secs {
            Some(secs) => Some(Duration::from_secs(secs)),
            None => None,
        };
        items.push(NoteItem { text: item.text, source });
    }
    items
}

impl From<WireNotes> for Notes {
    fn from(wire: WireNotes) -> (notes: Notes)
        ensures
            stands_for(wire@, notes),
    {
        let billable = match wire.billable {
            Some(b) => Some(
                BillableDraft {
                    duration: Duration::from_secs(b.duration_secs),
                    description: b.description,
                },
            ),
            None => None,
        };
        Notes {
            summary: wire.summary,
            decisions: note_items(wire.decisions),
            action_items: note_items(wire.action_items),
            billable,
        }
    }
}

/// What [`From::from`] gives is not a function of the wire notes' view alone
/// (it allocates), so it is stated by [`stands_for`] and not as an equation.
impl vstd::std_specs::convert::FromSpecImpl<WireNotes> for Notes {
    open spec fn obeys_from_spec() -> bool {
        false
    }

    open spec fn from_spec(wire: WireNotes) -> Notes {
        arbitrary()
    }
}

/// When the recording of a transcript ends, in nanoseconds: with its last
/// segment.
pub open spec fn transcript_end(segments: Seq<model::TimedText>) -> nat {
    if segments.len() == 0 {
        0
    } else {
        segments.last().end
    }
}

/// The whole seconds of a transcript's recording.
pub open spec fn transcript_end_secs(segments: Seq<model::TimedText>) -> u64 {
    (transcript_end(segments) / 1_000_000_000) as u64
}

/// Whether no note line cites a moment after `end` nanoseconds.
pub open spec fn sources_within(items: Seq<NoteItem>, end: nat) -> bool {
    forall|i: int|
        0 <= i < items.len() ==> ((#[trigger] items[i]).source matches Some(source)
            ==> source.nanoseconds() <= end)
}

/// What came of a sidecar run on a transcript: `success` and `status` say how
/// the process ended, `parsed` is what its output reads as. A moment after the
/// recording is not cited: the line stays and loses its source.
pub fn sidecar_outcome(
    transcript: &Transcript,
    success: bool,
    status: &str,
    parsed: Result<WireNotes, String>,
) -> (r: Result<Notes, EngineError>)
    ensures
        match r {
            Ok(notes) => {
                let segments = model::timed_texts(transcript.segments@);
                &&& success
                &&& parsed matches Ok(wire)
                &&& stands_for(wire::cited_notes(wire@, transcript_end_secs(segments)), notes)
                &&& sources_within(notes.decisions@, transcript_end(segments))
                &&& sources_within(notes.action_items@, transcript_end(segments))
            },
            Err(EngineError::Notes(message)) => if !success {
                message@ == "notes sidecar exited with "@ + status@
            } else {
                parsed matches Err(e) && message@ == "could not parse notes sidecar output: "@ + e@
            },
            Err(_) => false,
        },
{
    if !success {
        let message = "notes sidecar exited with ".to_string().concat(status);
        return Err(EngineError::Notes(message));
    }
    match parsed {
        Ok(wire) => {
            let ghost segments = model::timed_texts(transcript.segments@);
            let count = transcript.segments.len();
            let end: u64 = if count > 0 {
                transcript.segments[count - 1].end.as_secs()
            } else {
                0
            };
            let within = WireNotes {
                summary: wire.summary,
                decisions: cite_within(wire.decisions, end),
                action_items: cite_within(wire.action_items, end),
                billable: wire.billable,
            };
            let notes = Notes::from(within);
            proof {
                assert(count > 0 ==> segments.last() == transcript.segments@[count - 1]@);
                assert(end == transcript_end_secs(segments));
                assert(within@ == wire::cited_notes(wire@, end));
                lemma_sources_within(within@.decisions, notes.decisions@, end);
                lemma_sources_within(within@.action_items, notes.action_items@, end);
            }
            Ok(notes)
        },
        Err(e) => {
            let message = "could not parse notes sidecar output: ".to_string().concat(e.as_str());
            Err(EngineError::Notes(message))
        },
    }
}

proof fn lemma_sources_within(wire: Seq<wire::ItemView>, items: Seq<NoteItem>, end: u64)
    requires
        items_stand_for(wire, items),
        wire::items_within(wire, end),
    ensures
        sources_within(items, (end * 1_000_000_000) as nat),
{
    assert forall|i: int| 0 <= i < items.len() implies ((
    #[trigger] items[i]).source matches Some(source) ==> source.nanoseconds() <= end
        * 1_000_000_000) by {
        assert(item_stands_for(wire[i], items[i]));
    }
}

// --- what holds across the protocol ----------------------------------

/// The three scenarios have three tags.
pub proof fn law_scenario_tags_distinct(a: RecordingScenario, b: RecordingScenario)
    ensures
        scenario_tag(a) == scenario_tag(b) ==> a == b,
{
    reveal_strlit("solo_memo");
    reveal_strlit("virtual_meeting");
    reveal_strlit("in_person_meeting");
    assert("solo_memo"@.len() == 9);
    assert("virtual_meeting"@.len() == 15);
    assert("in_person_meeting"@.len() == 17);
}

/// In a virtual meeting the sidecar labels the operator's lines `Me` and the
/// others' lines `Other`; with a single microphone it labels none.
pub proof fn law_speakers_labelled(
    segment: model::TimedText,
    wire: wire::SegmentView,
    scenario: RecordingScenario,
)
    requires
        sent_as(segment, wire),
    ensures
        prompt::speaker_label(wire, scenario) == if scenario != RecordingScenario::VirtualMeeting {
            Seq::<char>::empty()
        } else if segment.speaker == Speaker::Near {
            "Me: "@
        } else {
            "Other: "@
        },
{
    reveal_strlit("near");
    reveal_strlit("far");
    assert("near"@.len() == 4);
    assert("far"@.len() == 3);
}

/// A segment is sent with the whole of its text, the tag of its own side, and its
/// times cut to the second they fall in.
pub proof fn law_segment_sent_whole(segment: model::TimedText, wire: wire::SegmentView)
    requires
        sent_as(segment, wire),
    ensures
        wire.text == segment.text,
        wire.speaker == (match segment.speaker {
            Speaker::Near => "near"@,
            Speaker::Far => "far"@,
        }),
        wire.start_secs * 1_000_000_000 <= segment.start < (wire.start_secs + 1) * 1_000_000_000,
        wire.end_secs * 1_000_000_000 <= segment.end < (wire.end_secs + 1) * 1_000_000_000,
{
}

/// The operator's context is sent whole, but for the white space around it, and
/// left out where it is blank.
pub proof fn law_context_sent_whole(lead: Seq<char>, core: Seq<char>, tail: Seq<char>)
    requires
        forall|i: int| 0 <= i < lead.len() ==> text::is_white_space(#[trigger] lead[i]),
        forall|i: int| 0 <= i < tail.len() ==> text::is_white_space(#[trigger] tail[i]),
        core.len() > 0 ==> !text::is_white_space(core[0]) && !text::is_white_space(core.last()),
    ensures
        core.len() > 0 ==> sent_context(Some(lead + core + tail)) == Some(core),
        core.len() == 0 ==> sent_context(Some(lead + core + tail)) is None,
        sent_context(None) is None,
{
    text::law_trimmed_keeps_the_text(lead, core, tail);
}

/// What comes back from the sidecar comes through whole: the summary, every
/// decision and every action item with its text and its second, in their order,
/// and the billable draft.
pub proof fn law_notes_come_through(wire: wire::NotesView, notes: Notes, i: int)
    requires
        stands_for(wire, notes),
        i >= 0,
    ensures
        notes.summary@ == wire.summary,
        notes.decisions@.len() == wire.decisions.len(),
        notes.action_items@.len() == wire.action_items.len(),
        i < wire.decisions.len() ==> ({
            let (item, sent) = (notes.decisions@[i], wire.decisions[i]);
            &&& item.text@ == sent.text
            &&& item.source is Some <==> sent.source_secs is Some
            &&& item.source is Some ==> item.source->0.nanoseconds() == sent.source_secs->0
                * 1_000_000_000
        }),
        i < wire.action_items.len() ==> ({
            let (item, sent) = (notes.action_items@[i], wire.action_items[i]);
            &&& item.text@ == sent.text
            &&& item.source is Some <==> sent.source_secs is Some
            &&& item.source is Some ==> item.source->0.nanoseconds() == sent.source_secs->0
                * 1_000_000_000
        }),
        notes.billable is Some <==> wire.billable is Some,
        notes.billable is Some ==> notes.billable->0.description@ == wire.billable->0.description
            && notes.billable->0.duration.nanoseconds() == wire.billable->0.duration_secs
            * 1_000_000_000,
{
    if i < wire.decisions.len() {
        assert(item_stands_for(wire.decisions[i], notes.decisions@[i]));
    }
    if i < wire.action_items.len() {
        assert(item_stands_for(wire.action_items[i], notes.action_items@[i]));
    }
}

/// The engine cites the sidecar's second just where that second lies within the
/// recording.
pub proof fn law_citation_kept_within_recording(segments: Seq<model::TimedText>, secs: u64)
    requires
        transcript_end(segments) / 1_000_000_000 <= u64::MAX,
    ensures
        wire::cited(Some(secs), transcript_end_secs(segments)) == if secs * 1_000_000_000
            <= transcript_end(segments) {
            Some(secs)
        } else {
            None
        },
{
}

/// The engine and the sidecar agree on where the recording ends, so the engine
/// drops no citation that the sidecar let stand.
pub proof fn law_both_ends_agree_on_the_end(
    segments: Seq<model::TimedText>,
    sent: Seq<wire::SegmentView>,
    items: Seq<wire::ItemView>,
)
    requires
        segments.len() == sent.len(),
        forall|i: int| 0 <= i < sent.len() ==> sent_as(segments[i], #[trigger] sent[i]),
        wire::items_within(items, response::recording_end(sent)),
    ensures
        response::recording_end(sent) == transcript_end_secs(segments),
        wire::cited_items(items, transcript_end_secs(segments)) == items,
{
    if sent.len() > 0 {
        assert(sent_as(segments[sent.len() - 1], sent[sent.len() - 1]));
    }
    assert(wire::cited_items(items, transcript_end_secs(segments)) == items);
}

/// The context that reaches the prompt is the same whether or not it was
/// trimmed on the way.
pub proof fn law_context_survives(context: Option<Seq<char>>)
    ensures
        prompt::clamped(sent_context(context)) == prompt::clamped(context),
{
    if let Some(c) = context {
        text::lemma_trimmed(c);
    }
}

} // verus!
