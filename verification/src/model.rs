//! Shared data types: the [`Transcript`] produced by transcription and the
//! [`Notes`] produced from it.

use vstd::prelude::*;

use crate::duration::Duration;

verus! {

/// Which side of the conversation a segment came from. The engine keeps the
/// near end (microphone) and the far end (system audio) as separate streams,
/// so every transcript segment is attributed.
#[derive(Debug, Clone, Copy, PartialEq, Eq, Structural)]
pub enum Speaker {
    /// The operator, captured from the microphone.
    Near,
    /// The other participants, captured from system audio.
    Far,
}

/// What kind of recording a session is, declared by the operator before
/// recording starts. It decides which audio sources are captured, which
/// channels are transcribed, and how the notes model is told to read the
/// conversation. Channel-based speaker attribution is only meaningful for a
/// [`VirtualMeeting`](Self::VirtualMeeting), where the far side plays through
/// the computer; the other two scenarios are single-microphone.
#[derive(Debug, Clone, Copy, PartialEq, Eq, Structural)]
pub enum RecordingScenario {
    /// Just the operator: a dictated memo or note to self. The microphone is
    /// the only source.
    SoloMemo,
    /// A virtual meeting held through the computer. The operator is on the
    /// microphone and the other party plays through the computer's audio,
    /// captured as system audio. The two sides land on separate channels.
    VirtualMeeting,
    /// People sharing the one microphone: an in-person meeting, or a phone
    /// call on speaker. Everyone is recorded through the microphone and cannot
    /// be separated by channel.
    InPersonMeeting,
}

impl Default for RecordingScenario {
    fn default() -> (scenario: RecordingScenario)
        ensures
            scenario == RecordingScenario::VirtualMeeting,
    {
        RecordingScenario::VirtualMeeting
    }
}

impl RecordingScenario {
    /// Whether this scenario captures the far end (system audio). Only a
    /// virtual meeting has a far end on the computer; a solo memo and an
    /// in-person recording are microphone-only, so their far channel is
    /// silent.
    pub fn captures_system_audio(self) -> (r: bool)
        ensures
            r == (self == RecordingScenario::VirtualMeeting),
    {
        matches!(self, RecordingScenario::VirtualMeeting)
    }
}

/// One attributed, timecoded span of transcript.
#[derive(Debug, Clone)]
pub struct TranscriptSegment {
    pub speaker: Speaker,
    /// Offset from the start of the recording.
    pub start: Duration,
    pub end: Duration,
    pub text: String,
}

/// What a [`TranscriptSegment`] says, its times in nanoseconds.
pub struct TimedText {
    pub speaker: Speaker,
    pub start: nat,
    pub end: nat,
    pub text: Seq<char>,
}

impl View for TranscriptSegment {
    type V = TimedText;

    open spec fn view(&self) -> TimedText {
        TimedText {
            speaker: self.speaker,
            start: self.start.nanoseconds(),
            end: self.end.nanoseconds(),
            text: self.text@,
        }
    }
}

/// What a row of segments says.
pub open spec fn timed_texts(segments: Seq<TranscriptSegment>) -> Seq<TimedText> {
    Seq::new(segments.len(), |i: int| segments[i]@)
}

/// A full speaker-attributed, timecoded transcript of one session.
#[derive(Debug, Clone)]
pub struct Transcript {
    pub segments: Vec<TranscriptSegment>,
}

impl Default for Transcript {
    fn default() -> (transcript: Transcript)
        ensures
            transcript.segments@.len() == 0,
    {
        Transcript { segments: Vec::new() }
    }
}

/// One note line. `source` ties it back to the transcript moment it was drawn
/// from.
#[derive(Debug, Clone)]
pub struct NoteItem {
    pub text: String,
    /// Offset into the recording this item traces to, when known.
    pub source: Option<Duration>,
}

/// A draft time entry the operator confirms, never asserted as fact.
#[derive(Debug, Clone)]
pub struct BillableDraft {
    pub duration: Duration,
    pub description: String,
}

/// The structured notes generated from a [`Transcript`]: summary, key
/// decisions, action items, and a billable-time draft.
#[derive(Debug, Clone)]
pub struct Notes {
    pub summary: String,
    pub decisions: Vec<NoteItem>,
    pub action_items: Vec<NoteItem>,
    pub billable: Option<BillableDraft>,
}

impl Default for Notes {
    fn default() -> (notes: Notes)
        ensures
            notes.summary@.len() == 0,
            notes.decisions@.len() == 0,
            notes.action_items@.len() == 0,
            notes.billable is None,
    {
        Notes {
            summary: String::new(),
            decisions: Vec::new(),
            action_items: Vec::new(),
            billable: None,
        }
    }
}

} // verus!
