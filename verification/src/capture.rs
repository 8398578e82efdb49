//! Audio capture: the far end (system audio) and the near end (microphone)
//! recorded as two streams, finalized into one stereo recording.
//!
//! A [`CaptureSession`] decides which sources are opened and shut down, and in
//! which order; the host performs it. While recording, captured samples are
//! spilled to raw scratch files every few seconds, so memory stays flat no
//! matter how long the meeting runs.
//!
//! Where bytes are made of samples, a sample is the bit pattern of a 32-bit
//! floating-point number.

use vstd::prelude::*;

use crate::audio;
use crate::audio::{interleave, resample_to_whisper};
use crate::error::EngineError;

verus! {

/// Default far-end sample rate.
pub const SYSTEM_RATE: u32 = 48_000;

/// Window, in samples, over which input levels are averaged.
pub const LEVEL_WINDOW: usize = 4_800;

/// How often buffered audio is spilled to disk while recording, in seconds.
pub const FLUSH_INTERVAL_SECS: u64 = 3;

// --- the session -----------------------------------------------------

/// A running part of a recording.
#[derive(Debug, Clone, Copy, PartialEq, Eq, Structural)]
pub enum Source {
    /// The microphone: without it there is no recording.
    Microphone,
    /// The buffer that spills to disk; required.
    Buffer,
    /// System audio: best-effort.
    SystemAudio,
}

/// How a source is named in messages.
pub open spec fn source_label(source: Source) -> Seq<char> {
    match source {
        Source::Microphone => "microphone"@,
        Source::Buffer => "recording buffer"@,
        Source::SystemAudio => "system audio"@,
    }
}

/// Why a source did not open.
#[derive(Debug)]
pub enum OpenFailure {
    /// It said so.
    Reported(String),
    /// Its thread ended before it was ready.
    Exited,
}

/// The message about a source that did not open.
pub open spec fn open_message(source: Source, failure: OpenFailure) -> Seq<char> {
    match failure {
        OpenFailure::Reported(e) => source_label(source) + ": "@ + e@,
        OpenFailure::Exited => source_label(source)
            + ": capture thread exited before it was ready"@,
    }
}

/// The error of a source that did not open.
pub fn open_error(source: Source, failure: OpenFailure) -> (e: EngineError)
    ensures
        e matches EngineError::Capture(message) && message@ == open_message(source, failure),
{
    let mut message = (match source {
        Source::Microphone => "microphone",
        Source::Buffer => "recording buffer",
        Source::SystemAudio => "system audio",
    }).to_string();
    match failure {
        OpenFailure::Reported(e) => {
            message.append(": ");
            message.append(e.as_str());
        },
        OpenFailure::Exited => {
            message.append(": capture thread exited before it was ready");
        },
    }
    EngineError::Capture(message)
}

/// Where a session stands.
#[derive(Debug, Clone, Copy, PartialEq, Eq, Structural)]
pub enum Stage {
    /// Nothing runs.
    Idle,
    /// A source is being opened.
    Opening(Source),
    /// Recording, with or without the far end.
    Recording { system_audio: bool },
}

/// What runs at a stage.
pub open spec fn running(stage: Stage) -> Set<Source> {
    match stage {
        Stage::Idle => Set::empty(),
        Stage::Opening(Source::Microphone) => Set::empty(),
        Stage::Opening(Source::Buffer) => set![Source::Microphone],
        Stage::Opening(Source::SystemAudio) => set![Source::Microphone, Source::Buffer],
        Stage::Recording { system_audio } => if system_audio {
            set![Source::Microphone, Source::Buffer, Source::SystemAudio]
        } else {
            set![Source::Microphone, Source::Buffer]
        },
    }
}

/// Where a session goes when the source being opened has opened, or has not.
pub open spec fn after_report(source: Source, ok: bool, capture_system_audio: bool) -> Stage {
    match source {
        Source::Microphone => if ok {
            Stage::Opening(Source::Buffer)
        } else {
            Stage::Idle
        },
        Source::Buffer => if !ok {
            Stage::Idle
        } else if capture_system_audio {
            Stage::Opening(Source::SystemAudio)
        } else {
            Stage::Recording { system_audio: false }
        },
        Source::SystemAudio => Stage::Recording { system_audio: ok },
    }
}

/// What is shut down when a source has not opened.
pub open spec fn shut_down_on_failure(source: Source) -> Seq<Source> {
    match source {
        Source::Buffer => seq![Source::Microphone],
        _ => Seq::empty(),
    }
}

/// What the host does next while a session starts.
#[derive(Debug)]
pub enum StartStep {
    /// Open this source and report.
    Open(Source),
    /// The session records. If system audio was wanted and did not open, the
    /// error says why.
    Recording(Option<EngineError>),
    /// The session did not start: shut down these sources; the error says why.
    Failed(Vec<Source>, EngineError),
}

/// The decisions of a capture session.
#[derive(Debug)]
pub struct CaptureSession {
    capture_system_audio: bool,
    stage: Stage,
}

/// A capture session, as mathematics.
pub struct SessionView {
    /// Whether to capture the far end (system audio); true only for a remote
    /// call.
    pub capture_system_audio: bool,
    pub stage: Stage,
}

impl View for CaptureSession {
    type V = SessionView;

    closed spec fn view(&self) -> SessionView {
        SessionView { capture_system_audio: self.capture_system_audio, stage: self.stage }
    }
}

impl CaptureSession {
    /// System audio is opened only where it is wanted.
    #[verifier::type_invariant]
    spec fn well_formed(self) -> bool {
        !self.capture_system_audio ==> self.stage != Stage::Opening(Source::SystemAudio)
            && self.stage != (Stage::Recording { system_audio: true })
    }

    /// Where the session stands.
    pub fn stage(&self) -> (stage: Stage)
        ensures
            stage == self@.stage,
            running(stage).contains(Source::SystemAudio) ==> self@.capture_system_audio,
    {
        proof {
            use_type_invariant(self);
        }
        self.stage
    }

    /// A session at rest. Set `capture_system_audio` for a remote call, clear
    /// it for a microphone-only memo or in-person meeting.
    pub fn new(capture_system_audio: bool) -> (session: CaptureSession)
        ensures
            session@ == (SessionView { capture_system_audio, stage: Stage::Idle }),
    {
        CaptureSession { capture_system_audio, stage: Stage::Idle }
    }

    /// Begins a recording; the source to open first is returned.
    pub fn start(&mut self) -> (r: Result<Source, EngineError>)
        ensures
            final(self)@.capture_system_audio == old(self)@.capture_system_audio,
            match r {
                Ok(source) => {
                    &&& old(self)@.stage == Stage::Idle
                    &&& source == Source::Microphone
                    &&& final(self)@.stage == Stage::Opening(source)
                },
                Err(EngineError::Capture(message)) => {
                    &&& old(self)@.stage != Stage::Idle
                    &&& message@ == "already recording"@
                    &&& final(self)@.stage == old(self)@.stage
                },
                Err(_) => false,
            },
    {
        match self.stage {
            Stage::Idle => {
                self.stage = Stage::Opening(Source::Microphone);
                Ok(Source::Microphone)
            },
            _ => Err(EngineError::Capture("already recording".to_string())),
        }
    }

    /// Takes the report on the source being opened.
    ///
    /// The microphone and the buffer are required. If the buffer does not open
    /// the microphone is shut down again. System audio is captured only where
    /// it is wanted, and even then best-effort: if it fails, the recording
    /// continues with just the near end.
    pub fn opened(&mut self, report: Result<(), OpenFailure>) -> (step: StartStep)
        requires
            old(self)@.stage is Opening,
        ensures
            final(self)@.capture_system_audio == old(self)@.capture_system_audio,
            final(self)@.stage == after_report(
                old(self)@.stage->Opening_0,
                report is Ok,
                old(self)@.capture_system_audio,
            ),
            match step {
                StartStep::Open(source) => final(self)@.stage == Stage::Opening(source),
                StartStep::Recording(None) => final(self)@.stage is Recording && report is Ok,
                StartStep::Recording(Some(error)) => {
                    &&& old(self)@.stage == Stage::Opening(Source::SystemAudio)
                    &&& report matches Err(failure)
                    &&& error matches EngineError::Capture(message)
                    &&& message@ == open_message(Source::SystemAudio, failure)
                },
                StartStep::Failed(shut, error) => {
                    &&& final(self)@.stage == Stage::Idle
                    &&& shut@ == shut_down_on_failure(old(self)@.stage->Opening_0)
                    &&& report matches Err(failure)
                    &&& error matches EngineError::Capture(message)
                    &&& message@ == open_message(old(self)@.stage->Opening_0, failure)
                },
            },
    {
        proof {
            use_type_invariant(&*self);
        }
        let source = match self.stage {
            Stage::Opening(source) => source,
            _ => Source::Microphone,
        };
        match report {
            Ok(_) => match source {
                Source::Microphone => {
                    self.stage = Stage::Opening(Source::Buffer);
                    StartStep::Open(Source::Buffer)
                },
                Source::Buffer => {
                    if self.capture_system_audio {
                        self.stage = Stage::Opening(Source::SystemAudio);
                        StartStep::Open(Source::SystemAudio)
                    } else {
                        self.stage = Stage::Recording { system_audio: false };
                        StartStep::Recording(None)
                    }
                },
                Source::SystemAudio => {
                    self.stage = Stage::Recording { system_audio: true };
                    StartStep::Recording(None)
                },
            },
            Err(failure) => {
                let error = open_error(source, failure);
                match source {
                    Source::Microphone => {
                        self.stage = Stage::Idle;
                        StartStep::Failed(Vec::new(), error)
                    },
                    Source::Buffer => {
                        self.stage = Stage::Idle;
                        StartStep::Failed(vec![Source::Microphone], error)
                    },
                    Source::SystemAudio => {
                        self.stage = Stage::Recording { system_audio: false };
                        StartStep::Recording(Some(error))
                    },
                }
            },
        }
    }

    /// Ends the recording; the sources to shut down are returned in order. The
    /// buffer stops last: with the others gone there are no more appends, so
    /// its final spill captures every sample.
    pub fn stop(&mut self) -> (r: Result<Vec<Source>, EngineError>)
        ensures
            final(self)@.capture_system_audio == old(self)@.capture_system_audio,
            final(self)@.stage == after_stop(old(self)@.stage),
            match r {
                Ok(shut) => {
                    &&& old(self)@.stage is Recording
                    &&& shut@ == shutdown_order(old(self)@.stage->Recording_system_audio)
                },
                Err(EngineError::Capture(message)) => {
                    &&& !(old(self)@.stage is Recording)
                    &&& message@ == "not recording"@
                },
                Err(_) => false,
            },
    {
        match self.stage {
            Stage::Recording { system_audio } => {
                self.stage = Stage::Idle;
                if system_audio {
                    Ok(vec![Source::Microphone, Source::SystemAudio, Source::Buffer])
                } else {
                    Ok(vec![Source::Microphone, Source::Buffer])
                }
            },
            _ => Err(EngineError::Capture("not recording".to_string())),
        }
    }
}

/// Where a session goes when it is told to stop.
pub open spec fn after_stop(stage: Stage) -> Stage {
    if stage is Recording {
        Stage::Idle
    } else {
        stage
    }
}

/// The order in which the sources of a recording are shut down.
pub open spec fn shutdown_order(system_audio: bool) -> Seq<Source> {
    if system_audio {
        seq![Source::Microphone, Source::SystemAudio, Source::Buffer]
    } else {
        seq![Source::Microphone, Source::Buffer]
    }
}

/// At every report what runs is what ran before, the source that opened added
/// and what is shut down taken away: a start that fails leaves nothing
/// running. A recording always has the microphone and the buffer, and system
/// audio only where it is wanted.
pub proof fn law_start_accounts_for_sources(source: Source, ok: bool, capture_system_audio: bool)
    requires
        source == Source::SystemAudio ==> capture_system_audio,
    ensures
        running(after_report(source, ok, capture_system_audio)) == (if ok {
            running(Stage::Opening(source)).insert(source)
        } else {
            running(Stage::Opening(source)).difference(shut_down_on_failure(source).to_set())
        }),
        after_report(source, ok, capture_system_audio) is Recording ==> running(
            after_report(source, ok, capture_system_audio),
        ).contains(Source::Microphone) && running(
            after_report(source, ok, capture_system_audio),
        ).contains(Source::Buffer),
        after_report(source, ok, capture_system_audio) == Stage::Idle ==> running(
            after_report(source, ok, capture_system_audio),
        ) == Set::<Source>::empty(),
        running(after_report(source, ok, capture_system_audio)).contains(Source::SystemAudio)
            ==> capture_system_audio,
{
    let after = running(after_report(source, ok, capture_system_audio));
    let before = running(Stage::Opening(source));
    let shut = shut_down_on_failure(source);
    assert(shut.len() > 0 ==> shut[0] == Source::Microphone);
    if ok {
        assert(after =~= before.insert(source));
    } else {
        assert(after =~= before.difference(shut.to_set()));
    }
}

/// Stopping shuts down just what runs, the buffer last.
pub proof fn law_stop_shuts_down_all(system_audio: bool)
    ensures
        shutdown_order(system_audio).to_set() == running(Stage::Recording { system_audio }),
        shutdown_order(system_audio).last() == Source::Buffer,
        shutdown_order(system_audio).no_duplicates(),
{
    let order = shutdown_order(system_audio);
    let all = running(Stage::Recording { system_audio });
    assert(order[0] == Source::Microphone);
    assert(order[order.len() - 1] == Source::Buffer);
    assert(system_audio ==> order[1] == Source::SystemAudio);
    assert(order.to_set() =~= all);
}

// --- spilling to disk ------------------------------------------------

/// The bytes of one sample: its bit pattern, least significant byte first.
pub open spec fn sample_bytes(sample: u32) -> Seq<u8> {
    vstd::bytes::spec_u32_to_le_bytes(sample)
}

/// The bytes of a row of samples.
pub open spec fn samples_bytes(samples: Seq<u32>) -> Seq<u8>
    decreases samples.len(),
{
    if samples.len() == 0 {
        Seq::empty()
    } else {
        samples_bytes(samples.drop_last()) + sample_bytes(samples.last())
    }
}

/// The samples that a row of bytes holds; bytes that make no whole sample are
/// left out.
pub open spec fn samples_in(bytes: Seq<u8>) -> Seq<u32> {
    Seq::new(
        (bytes.len() / 4) as nat,
        |i: int| vstd::bytes::spec_u32_from_le_bytes(bytes.subrange(i * 4, i * 4 + 4)),
    )
}

/// How many samples a spill takes from a buffer of `len`.
pub open spec fn spilled(len: int, keep: int) -> int {
    if len <= keep {
        0
    } else {
        len - keep
    }
}

fn encode(samples: &Vec<u32>) -> (bytes: Vec<u8>)
    ensures
        bytes@ == samples_bytes(samples@),
{
    let mut bytes: Vec<u8> = Vec::new();
    let mut i: usize = 0;
    assert(samples@.take(0) == Seq::<u32>::empty());
    while i < samples.len()
        invariant
            i <= samples@.len(),
            bytes@ == samples_bytes(samples@.take(i as int)),
        decreases samples@.len() - i,
    {
        let mut four = vstd::bytes::u32_to_le_bytes(samples[i]);
        bytes.append(&mut four);
        assert(samples@.take(i + 1).drop_last() == samples@.take(i as int));
        i += 1;
    }
    assert(samples@.take(i as int) == samples@);
    bytes
}

/// Takes all but the last `keep` samples out of a buffer.
fn take_front(samples: &mut Vec<u32>, keep: usize) -> (chunk: Vec<u32>)
    ensures
        chunk@ == old(samples)@.take(spilled(old(samples)@.len() as int, keep as int)),
        final(samples)@ == old(samples)@.skip(spilled(old(samples)@.len() as int, keep as int)),
{
    if samples.len() <= keep {
        assert(samples@.take(0) == Seq::<u32>::empty());
        assert(samples@.skip(0) == samples@);
        return Vec::new();
    }
    let take = samples.len() - keep;
    let mut chunk = samples.split_off(take);
    core::mem::swap(samples, &mut chunk);
    assert(chunk@ == old(samples)@.take(take as int));
    assert(samples@ == old(samples)@.skip(take as int));
    chunk
}

/// Drains all but the last `keep` samples, and returns them as little-endian
/// bytes.
pub fn spill(samples: &mut Vec<u32>, keep: usize) -> (bytes: Vec<u8>)
    ensures
        bytes@ == samples_bytes(
            old(samples)@.take(spilled(old(samples)@.len() as int, keep as int)),
        ),
        final(samples)@ == old(samples)@.skip(spilled(old(samples)@.len() as int, keep as int)),
{
    encode(&take_front(samples, keep))
}

/// Reads raw little-endian bytes back into samples.
pub fn read_raw(bytes: &[u8]) -> (samples: Vec<u32>)
    ensures
        samples@ == samples_in(bytes@),
{
    let len = bytes.len();
    let count = len / 4;
    let mut samples: Vec<u32> = Vec::with_capacity(count);
    let mut i: usize = 0;
    while i < count
        invariant
            len == bytes@.len(),
            count == len / 4,
            i <= count,
            samples@ == samples_in(bytes@).take(i as int),
        decreases count - i,
    {
        let four = vstd::slice::slice_subrange(bytes, i * 4, i * 4 + 4);
        samples.push(vstd::bytes::u32_from_le_bytes(four));
        i += 1;
        assert(samples@ == samples_in(bytes@).take(i as int));
    }
    assert(samples_in(bytes@).take(count as int) == samples_in(bytes@));
    samples
}

/// What wakes the spill loop.
#[derive(Debug, Clone, Copy, PartialEq, Eq, Structural)]
pub enum SpillEvent {
    /// The flush interval passed.
    Tick,
    /// The recording was stopped, or the recorder is gone.
    Stop,
}

/// What the spill loop writes.
#[derive(Debug)]
pub struct SpillStep {
    pub near: Vec<u8>,
    pub far: Vec<u8>,
    /// Whether this was the last spill.
    pub finished: bool,
}

/// How many samples stay in memory at an event: the recent window for the
/// meters, or none at the end.
pub open spec fn kept(event: SpillEvent) -> int {
    match event {
        SpillEvent::Tick => LEVEL_WINDOW as int,
        SpillEvent::Stop => 0,
    }
}

/// Takes out of a channel's buffer what is to be spilled. On each tick that is
/// all but the recent [`LEVEL_WINDOW`]; on stop it is everything that remains.
pub fn drain(event: SpillEvent, samples: &mut Vec<u32>) -> (chunk: Vec<u32>)
    ensures
        chunk@ == old(samples)@.take(spilled(old(samples)@.len() as int, kept(event))),
        final(samples)@ == old(samples)@.skip(spilled(old(samples)@.len() as int, kept(event))),
        final(samples)@.len() <= kept(event),
{
    let keep = match event {
        SpillEvent::Tick => LEVEL_WINDOW,
        SpillEvent::Stop => 0,
    };
    take_front(samples, keep)
}

/// Decides what the spill loop writes for the samples drained from the two
/// channels, and whether it goes on.
pub fn spill_step(event: SpillEvent, near: &Vec<u32>, far: &Vec<u32>) -> (step: SpillStep)
    ensures
        step.near@ == samples_bytes(near@),
        step.far@ == samples_bytes(far@),
        step.finished == (event == SpillEvent::Stop),
{
    SpillStep {
        near: encode(near),
        far: encode(far),
        finished: matches!(event, SpillEvent::Stop),
    }
}

proof fn lemma_sample_bytes(sample: u32)
    ensures
        sample_bytes(sample).len() == 4,
        vstd::bytes::spec_u32_from_le_bytes(sample_bytes(sample)) == sample,
{
    vstd::bytes::lemma_auto_spec_u32_to_from_le_bytes();
    assert(vstd::bytes::spec_u32_to_le_bytes(sample).len() == 4);
}

proof fn lemma_samples_bytes(samples: Seq<u32>)
    ensures
        samples_bytes(samples).len() == samples.len() * 4,
        forall|i: int|
            0 <= i < samples.len() ==> samples_bytes(samples).subrange(i * 4, i * 4 + 4)
                == sample_bytes(#[trigger] samples[i]),
    decreases samples.len(),
{
    if samples.len() > 0 {
        let front = samples.drop_last();
        lemma_samples_bytes(front);
        lemma_sample_bytes(samples.last());
        let all = samples_bytes(samples);
        assert forall|i: int| 0 <= i < samples.len() implies all.subrange(i * 4, i * 4 + 4)
            == sample_bytes(#[trigger] samples[i]) by {
            if i < front.len() {
                assert(front[i] == samples[i]);
                assert(all.subrange(i * 4, i * 4 + 4) == samples_bytes(front).subrange(
                    i * 4,
                    i * 4 + 4,
                ));
            } else {
                assert(all.subrange(i * 4, i * 4 + 4) == sample_bytes(samples.last()));
            }
        }
    }
}

/// Samples written out and read back are the samples.
pub proof fn law_samples_round_trip(samples: Seq<u32>)
    ensures
        samples_in(samples_bytes(samples)) == samples,
{
    lemma_samples_bytes(samples);
    let back = samples_in(samples_bytes(samples));
    assert forall|i: int| 0 <= i < samples.len() implies back[i] == samples[i] by {
        lemma_sample_bytes(samples[i]);
        assert(samples_bytes(samples).subrange(i * 4, i * 4 + 4) == sample_bytes(samples[i]));
    }
    assert(back == samples);
}

proof fn lemma_samples_bytes_concat(a: Seq<u32>, b: Seq<u32>)
    ensures
        samples_bytes(a + b) == samples_bytes(a) + samples_bytes(b),
    decreases b.len(),
{
    if b.len() == 0 {
        assert(a + b == a);
    } else {
        lemma_samples_bytes_concat(a, b.drop_last());
        assert((a + b).drop_last() == a + b.drop_last());
        assert((a + b).last() == b.last());
    }
}

/// What a channel's scratch file holds at the end: each tick spills from what
/// the buffer holds, then more samples arrive; the stop spills what remains.
pub open spec fn scratch(buffer: Seq<u32>, arrivals: Seq<Seq<u32>>) -> Seq<u8>
    decreases arrivals.len(),
{
    if arrivals.len() == 0 {
        samples_bytes(buffer.take(spilled(buffer.len() as int, kept(SpillEvent::Stop))))
    } else {
        let n = spilled(buffer.len() as int, kept(SpillEvent::Tick));
        samples_bytes(buffer.take(n)) + scratch(
            buffer.skip(n) + arrivals.first(),
            arrivals.drop_first(),
        )
    }
}

/// Nothing is lost between spills: however the samples arrive, the scratch
/// file reads back as all of them in their order.
pub proof fn law_spills_lose_nothing(buffer: Seq<u32>, arrivals: Seq<Seq<u32>>)
    ensures
        scratch(buffer, arrivals) == samples_bytes(buffer + arrivals.flatten()),
        samples_in(scratch(buffer, arrivals)) == buffer + arrivals.flatten(),
    decreases arrivals.len(),
{
    if arrivals.len() == 0 {
        assert(buffer.take(buffer.len() as int) == buffer);
        assert(buffer + arrivals.flatten() == buffer);
    } else {
        let n = spilled(buffer.len() as int, kept(SpillEvent::Tick));
        let rest = buffer.skip(n) + arrivals.first();
        let later = arrivals.drop_first();
        law_spills_lose_nothing(rest, later);
        lemma_samples_bytes_concat(buffer.take(n), rest + later.flatten());
        assert(buffer.take(n) + (rest + later.flatten()) == buffer + arrivals.flatten());
    }
    law_samples_round_trip(buffer + arrivals.flatten());
}

// --- the end of a recording ------------------------------------------

/// A raw scratch file, one for each channel.
#[derive(Debug, Clone, Copy, PartialEq, Eq, Structural)]
pub enum Scratch {
    Near,
    Far,
}

/// What is left to do once the sources of a recording are shut down.
#[derive(Debug)]
pub struct FinishStep {
    /// The near and the far samples to write to the recording, or why there is
    /// nothing to write.
    pub samples: Result<(Vec<u32>, Vec<u32>), EngineError>,
    /// The scratch files to delete, whatever came of reading and writing.
    pub delete: Vec<Scratch>,
}

/// The scratch files that a stopped recording deletes.
pub open spec fn deleted_on_stop() -> Seq<Scratch> {
    seq![Scratch::Near, Scratch::Far]
}

/// The message about a scratch file that could not be read.
pub open spec fn unread_message(e: Seq<char>) -> Seq<char> {
    "could not read recording buffer: "@ + e
}

fn unread(e: &String) -> (error: EngineError)
    ensures
        error matches EngineError::Capture(message) && message@ == unread_message(e@),
{
    EngineError::Capture("could not read recording buffer: ".to_string().concat(e.as_str()))
}

/// Decides what a stopped recording writes and deletes, given what the two
/// scratch files hold or why they could not be read.
pub fn finish_recording(near: Result<Vec<u8>, String>, far: Result<Vec<u8>, String>) -> (step:
    FinishStep)
    ensures
        step.delete@ == deleted_on_stop(),
        match (near, far, step.samples) {
            (Ok(n), Ok(f), Ok(samples)) => samples.0@ == samples_in(n@) && samples.1@
                == samples_in(f@),
            (Err(e), _, Err(EngineError::Capture(message))) => message@ == unread_message(e@),
            (Ok(_), Err(e), Err(EngineError::Capture(message))) => message@ == unread_message(e@),
            _ => false,
        },
{
    let samples = match (&near, &far) {
        (Ok(n), Ok(f)) => Ok((read_raw(n.as_slice()), read_raw(f.as_slice()))),
        (Err(e), _) => Err(unread(e)),
        (_, Err(e)) => Err(unread(e)),
    };
    FinishStep { samples, delete: vec![Scratch::Near, Scratch::Far] }
}

/// Stopping a recording leaves nothing behind: the session is idle, so it can
/// start again and not stop again, nothing runs, and every scratch file is
/// deleted. What [`finish_recording`] deletes does not depend on what could be
/// read.
pub proof fn law_stop_leaves_nothing_behind(before: Stage)
    requires
        before is Recording,
    ensures
        after_stop(before) == Stage::Idle,
        after_stop(after_stop(before)) == Stage::Idle,
        running(after_stop(before)) == Set::<Source>::empty(),
        forall|file: Scratch| #[trigger] deleted_on_stop().contains(file),
        deleted_on_stop().no_duplicates(),
{
    assert forall|file: Scratch| #[trigger] deleted_on_stop().contains(file) by {
        match file {
            Scratch::Near => {
                assert(deleted_on_stop()[0] == file);
            },
            Scratch::Far => {
                assert(deleted_on_stop()[1] == file);
            },
        }
    }
}

// --- stream formats --------------------------------------------------

/// How the samples of an input stream are written, as far as any source reads
/// them.
#[derive(Debug, Clone, Copy, PartialEq, Eq, Structural)]
pub enum StreamFormat {
    F32,
    I16,
    /// Unsigned with mid-scale 32768.
    U16,
    Other,
}

/// Whether the stream that a source opens may have this format.
pub open spec fn readable(source: Source, format: StreamFormat) -> bool {
    match format {
        StreamFormat::F32 | StreamFormat::I16 => true,
        StreamFormat::U16 => source == Source::SystemAudio,
        StreamFormat::Other => false,
    }
}

/// Checks the format of the stream that a source is about to open. `name` is
/// what the format is called in the message.
pub fn check_stream_format(source: Source, format: StreamFormat, name: &str) -> (r: Result<
    (),
    String,
>)
    requires
        source != Source::Buffer,
    ensures
        r is Ok <==> readable(source, format),
        r matches Err(message) ==> message@ == (if source == Source::Microphone {
            "unsupported microphone sample format: "@
        } else {
            "unsupported system-audio sample format: "@
        }) + name@,
{
    match (format, source) {
        (StreamFormat::F32, _) | (StreamFormat::I16, _) => Ok(()),
        (StreamFormat::U16, Source::SystemAudio) => Ok(()),
        _ => {
            let mut message = (match source {
                Source::Microphone => "unsupported microphone sample format: ",
                _ => "unsupported system-audio sample format: ",
            }).to_string();
            message.append(name);
            Err(message)
        },
    }
}

// --- mixing and levels -----------------------------------------------

/// Whether `mixed` holds one averaged sample for each whole frame of `data`.
pub open spec fn is_mono<T, U, F: Fn(&[T]) -> U>(
    mean: F,
    data: Seq<T>,
    channels: int,
    mixed: Seq<U>,
) -> bool {
    &&& mixed.len() == data.len() as int / channels
    &&& forall|i: int|
        0 <= i < mixed.len() ==> audio::averages(
            mean,
            data.subrange(i * channels, i * channels + channels),
            #[trigger] mixed[i],
        )
}

/// Averages each interleaved frame to mono and appends it to `buf`. No
/// channels count as one.
pub fn append_mono<T: Copy, U, F: Fn(&[T]) -> U>(
    buf: &mut Vec<U>,
    data: &[T],
    channels: usize,
    mean: F,
)
    requires
        audio::total_mean(mean),
    ensures
        old(buf)@.is_prefix_of(final(buf)@),
        is_mono(
            mean,
            data@,
            if channels == 0 {
                1
            } else {
                channels as int
            },
            final(buf)@.skip(old(buf)@.len() as int),
        ),
{
    let width: usize = if channels == 0 {
        1
    } else {
        channels
    };
    let len = data.len();
    let frames = len / width;
    let ghost before = buf@;
    let mut i: usize = 0;
    let mut at: usize = 0;
    while i < frames
        invariant
            audio::total_mean(mean),
            width > 0,
            len == data@.len(),
            frames == data@.len() as int / width as int,
            i <= frames,
            at == i * width,
            buf@.len() == before.len() + i,
            buf@.take(before.len() as int) == before,
            forall|k: int|
                0 <= k < i ==> audio::averages(
                    mean,
                    data@.subrange(k * width, k * width + width),
                    #[trigger] buf@[before.len() + k],
                ),
        decreases frames - i,
    {
        proof {
            assert((i + 1) * width == at + width) by (nonlinear_arith)
                requires
                    at == i * width,
            ;
            assert((i + 1) * width <= frames * width) by (nonlinear_arith)
                requires
                    i + 1 <= frames,
            ;
            assert(frames * width <= data@.len()) by (nonlinear_arith)
                requires
                    frames == data@.len() as int / width as int,
                    width > 0,
            ;
        }
        let frame = vstd::slice::slice_subrange(data, at, at + width);
        let sample = mean(frame);
        assert(audio::averages(mean, data@.subrange(i * width, i * width + width), sample));
        let ghost so_far = buf@;
        buf.push(sample);
        assert(buf@.take(before.len() as int) == so_far.take(before.len() as int));
        at += width;
        i += 1;
    }
    proof {
        let mixed = buf@.skip(before.len() as int);
        assert(buf@.take(before.len() as int) == before);
        assert forall|k: int| 0 <= k < mixed.len() implies audio::averages(
            mean,
            data@.subrange(k * width, k * width + width),
            #[trigger] mixed[k],
        ) by {
            assert(mixed[k] == buf@[before.len() + k]);
        }
    }
}

/// The channels that hold samples at all.
pub open spec fn sounding<T>(channels: Seq<Vec<T>>) -> Seq<Vec<T>>
    decreases channels.len(),
{
    if channels.len() == 0 {
        Seq::empty()
    } else if channels.last()@.len() == 0 {
        sounding(channels.drop_last())
    } else {
        sounding(channels.drop_last()).push(channels.last())
    }
}

/// The length of the shortest channel; zero if there is none.
pub open spec fn shortest<T>(channels: Seq<Vec<T>>) -> int
    decreases channels.len(),
{
    if channels.len() == 0 {
        0
    } else if channels.len() == 1 || channels.last()@.len() < shortest(channels.drop_last()) {
        channels.last()@.len() as int
    } else {
        shortest(channels.drop_last())
    }
}

/// Sample `i` of every channel.
pub open spec fn column<T>(channels: Seq<Vec<T>>, i: int) -> Seq<T> {
    Seq::new(channels.len(), |c: int| channels[c]@[i])
}

/// Whether `mixed` holds one averaged sample for each frame that all the
/// sounding channels have.
pub open spec fn is_planar_mix<T, U, F: Fn(&[T]) -> U>(
    mean: F,
    channels: Seq<Vec<T>>,
    mixed: Seq<U>,
) -> bool {
    &&& mixed.len() == shortest(sounding(channels))
    &&& forall|i: int|
        0 <= i < mixed.len() ==> audio::averages(
            mean,
            column(sounding(channels), i),
            #[trigger] mixed[i],
        )
}

proof fn lemma_shortest<T>(channels: Seq<Vec<T>>)
    ensures
        shortest(channels) >= 0,
        forall|c: int|
            0 <= c < channels.len() ==> shortest(channels) <= (#[trigger] channels[c])@.len(),
    decreases channels.len(),
{
    if channels.len() > 0 {
        let front = channels.drop_last();
        lemma_shortest(front);
        assert forall|c: int| 0 <= c < channels.len() implies shortest(channels) <= (
        #[trigger] channels[c])@.len() by {
            if c < front.len() {
                assert(front[c] == channels[c]);
            }
        }
    }
}

/// Averages non-interleaved audio, one buffer per channel, into mono and
/// appends it to `buf`. Empty channels are left out.
pub fn append_planar<T: Copy, U, F: Fn(&[T]) -> U>(
    buf: &mut Vec<U>,
    channels: Vec<Vec<T>>,
    mean: F,
)
    requires
        audio::total_mean(mean),
    ensures
        old(buf)@.is_prefix_of(final(buf)@),
        is_planar_mix(mean, channels@, final(buf)@.skip(old(buf)@.len() as int)),
{
    let ghost before = buf@;
    let ghost all = channels@;
    let mut kept_channels: Vec<Vec<T>> = Vec::new();
    let mut frames: usize = 0;
    assert(all.take(0) == Seq::<Vec<T>>::empty());
    for channel in it: channels
        invariant
            it.seq() == all,
            kept_channels@ == sounding(all.take(it.index() as int)),
            frames == shortest(kept_channels@),
    {
        assert(all.take(it.index() + 1).drop_last() == all.take(it.index() as int));
        if !channel.is_empty() {
            if kept_channels.is_empty() || channel.len() < frames {
                frames = channel.len();
            }
            let ghost front = kept_channels@;
            kept_channels.push(channel);
            assert(kept_channels@.drop_last() == front);
        }
    }
    assert(all.take(all.len() as int) == all);
    let mut i: usize = 0;
    while i < frames
        invariant
            audio::total_mean(mean),
            kept_channels@ == sounding(all),
            frames == shortest(kept_channels@),
            i <= frames,
            buf@.len() == before.len() + i,
            buf@.take(before.len() as int) == before,
            forall|k: int|
                0 <= k < i ==> audio::averages(
                    mean,
                    column(sounding(all), k),
                    #[trigger] buf@[before.len() + k],
                ),
        decreases frames - i,
    {
        proof {
            lemma_shortest(kept_channels@);
        }
        let mut frame: Vec<T> = Vec::with_capacity(kept_channels.len());
        let mut c: usize = 0;
        while c < kept_channels.len()
            invariant
                c <= kept_channels@.len(),
                i < frames,
                forall|k: int|
                    0 <= k < kept_channels@.len() ==> frames <= (
                    #[trigger] kept_channels@[k])@.len(),
                frame@ == column(kept_channels@, i as int).take(c as int),
            decreases kept_channels@.len() - c,
        {
            frame.push(kept_channels[c][i]);
            c += 1;
            assert(frame@ == column(kept_channels@, i as int).take(c as int));
        }
        assert(frame@ == column(sounding(all), i as int));
        let sample = mean(frame.as_slice());
        assert(audio::averages(mean, column(sounding(all), i as int), sample));
        let ghost so_far = buf@;
        buf.push(sample);
        assert(buf@.take(before.len() as int) == so_far.take(before.len() as int));
        i += 1;
    }
    proof {
        lemma_shortest(sounding(all));
        let mixed = buf@.skip(before.len() as int);
        assert(buf@.take(before.len() as int) == before);
        assert forall|k: int| 0 <= k < mixed.len() implies audio::averages(
            mean,
            column(sounding(all), k),
            #[trigger] mixed[k],
        ) by {
            assert(mixed[k] == buf@[before.len() + k]);
        }
    }
}

/// The samples that the input level is averaged over: the most recent
/// [`LEVEL_WINDOW`], or all if there are fewer.
pub fn level_tail<T>(samples: &[T]) -> (tail: &[T])
    ensures
        tail@ == samples@.skip(spilled(samples@.len() as int, LEVEL_WINDOW as int)),
        tail@.is_suffix_of(samples@),
        samples@.len() <= 4_800 ==> tail@ == samples@,
        samples@.len() > 4_800 ==> tail@.len() == 4_800,
{
    let from = if samples.len() <= LEVEL_WINDOW {
        0
    } else {
        samples.len() - LEVEL_WINDOW
    };
    let tail = vstd::slice::slice_subrange(samples, from, samples.len());
    assert(tail@ == samples@.skip(from as int));
    assert(samples@.skip(0) == samples@);
    tail
}

// --- the recording ---------------------------------------------------

/// Whether `out` is `samples` as the recording writes them, one for one.
pub open spec fn is_quantized<T, P, G: Fn(T) -> P>(
    quantize: G,
    samples: Seq<T>,
    out: Seq<P>,
) -> bool {
    &&& out.len() == samples.len()
    &&& forall|i: int|
        0 <= i < out.len() ==> call_ensures(quantize, (samples[i],), #[trigger] out[i])
}

fn quantize_all<T: Copy, P, G: Fn(T) -> P>(samples: &Vec<T>, quantize: &G) -> (out: Vec<P>)
    requires
        forall|x: T| call_requires(*quantize, (x,)),
    ensures
        is_quantized(*quantize, samples@, out@),
{
    let mut out: Vec<P> = Vec::with_capacity(samples.len());
    let mut i: usize = 0;
    while i < samples.len()
        invariant
            forall|x: T| call_requires(*quantize, (x,)),
            i <= samples@.len(),
            out@.len() == i,
            forall|k: int|
                0 <= k < i ==> call_ensures(*quantize, (samples@[k],), #[trigger] out@[k]),
        decreases samples@.len() - i,
    {
        out.push(quantize(samples[i]));
        i += 1;
    }
    out
}

/// Whether `out` is one end of a recording: resampled, then written sample by
/// sample.
pub open spec fn is_recorded<T, P, F: Fn(&[T]) -> T, G: Fn(T) -> P>(
    mean: F,
    quantize: G,
    samples: Seq<T>,
    rate: int,
    out: Seq<P>,
) -> bool {
    exists|resampled: Seq<T>|
        #[trigger] audio::is_resampled(mean, samples, rate, resampled) && is_quantized(
            quantize,
            resampled,
            out,
        )
}

/// Resamples both channels to 16 kHz and interleaves them: channel 0 the near
/// end, channel 1 the far end. The shorter channel is padded with silence.
pub fn stereo_samples<T: Copy, P: Copy, F: Fn(&[T]) -> T, G: Fn(T) -> P>(
    near: &[T],
    near_rate: u32,
    far: &[T],
    far_rate: u32,
    silence: P,
    mean: F,
    quantize: G,
) -> (out: Vec<P>)
    requires
        audio::total_mean(mean),
        forall|x: T| call_requires(quantize, (x,)),
        near@.len() > 0 ==> near_rate > 0 && audio::resampled_len(
            near@.len() as int,
            near_rate as int,
        ) <= usize::MAX,
        far@.len() > 0 ==> far_rate > 0 && audio::resampled_len(
            far@.len() as int,
            far_rate as int,
        ) <= usize::MAX,
    ensures
        exists|n: Seq<P>, f: Seq<P>|
            {
                &&& #[trigger] is_recorded(mean, quantize, near@, near_rate as int, n)
                &&& #[trigger] is_recorded(mean, quantize, far@, far_rate as int, f)
                &&& out@ == audio::interleaved(n, f, silence)
            },
{
    let ghost near_in = near@;
    let ghost far_in = far@;
    let near = resample_to_whisper(near, near_rate, &mean);
    let far = resample_to_whisper(far, far_rate, &mean);
    let near_out = quantize_all(&near, &quantize);
    let far_out = quantize_all(&far, &quantize);
    proof {
        assert(audio::is_resampled(mean, near_in, near_rate as int, near@));
        assert(audio::is_resampled(mean, far_in, far_rate as int, far@));
        assert(is_recorded(mean, quantize, near_in, near_rate as int, near_out@));
        assert(is_recorded(mean, quantize, far_in, far_rate as int, far_out@));
    }
    interleave(near_out.as_slice(), far_out.as_slice(), silence)
}

// --- what holds of what is captured ----------------------------------

/// The error of a source that did not open begins with the source and ends with
/// the whole reason that was reported.
pub proof fn law_open_error_gives_the_reason(source: Source, e: String)
    ensures
        source_label(source).is_prefix_of(open_message(source, OpenFailure::Reported(e))),
        e@.is_suffix_of(open_message(source, OpenFailure::Reported(e))),
        source_label(source).is_prefix_of(open_message(source, OpenFailure::Exited)),
        e@.is_suffix_of(unread_message(e@)),
{
    let label = source_label(source);
    let message = open_message(source, OpenFailure::Reported(e));
    assert(message == label + (": "@ + e@));
    assert(message.take(label.len() as int) == label);
    let exited = open_message(source, OpenFailure::Exited);
    assert(exited.take(label.len() as int) == label);
}

/// A spill takes what is older than the tail to keep, and leaves the tail whole.
pub proof fn law_spill_leaves_the_tail(buffer: Seq<u32>, keep: nat)
    ensures
        ({
            let n = spilled(buffer.len() as int, keep as int);
            &&& buffer.take(n) + buffer.skip(n) == buffer
            &&& buffer.len() >= keep ==> buffer.skip(n).len() == keep
            &&& buffer.len() < keep ==> buffer.skip(n) == buffer
        }),
{
    let n = spilled(buffer.len() as int, keep as int);
    assert(buffer.take(n) + buffer.skip(n) == buffer);
    if buffer.len() < keep {
        assert(buffer.skip(0) == buffer);
    }
}

/// Bytes that make no whole sample at the end of a scratch file are left out,
/// and all before them is read.
pub proof fn law_partial_sample_left_out(samples: Seq<u32>, rest: Seq<u8>)
    requires
        rest.len() < 4,
    ensures
        samples_in(samples_bytes(samples) + rest) == samples,
{
    lemma_samples_bytes(samples);
    let all = samples_bytes(samples) + rest;
    assert(all.len() / 4 == samples.len());
    assert forall|i: int| 0 <= i < samples.len() implies samples_in(all)[i] == samples[i] by {
        assert(all.subrange(i * 4, i * 4 + 4) == samples_bytes(samples).subrange(i * 4, i * 4 + 4));
        assert(samples_bytes(samples).subrange(i * 4, i * 4 + 4) == sample_bytes(samples[i]));
        lemma_sample_bytes(samples[i]);
    }
    assert(samples_in(all) == samples);
}

/// Mixing to mono gives one sample for every whole frame, averaged from just the
/// samples of that frame.
pub proof fn law_mono_mixes_each_frame<T, U, F: Fn(&[T]) -> U>(
    mean: F,
    g: spec_fn(Seq<T>) -> U,
    data: Seq<T>,
    channels: int,
    mixed: Seq<U>,
    i: int,
)
    requires
        channels > 0,
        is_mono(mean, data, channels, mixed),
        forall|window: &[T], value: U| #[trigger]
            call_ensures(mean, (window,), value) ==> value == g(window@),
        0 <= i,
    ensures
        mixed.len() * channels <= data.len() < (mixed.len() + 1) * channels,
        i < mixed.len() ==> mixed[i] == g(data.subrange(i * channels, (i + 1) * channels)),
{
    let len = data.len() as int;
    vstd::arithmetic::div_mod::lemma_fundamental_div_mod(len, channels);
    vstd::arithmetic::div_mod::lemma_mod_bound(len, channels);
    let n = mixed.len() as int;
    assert(n * channels == channels * n && (n + 1) * channels == channels * n + channels)
        by (nonlinear_arith);
    assert((i + 1) * channels == i * channels + channels) by (nonlinear_arith);
    if i < mixed.len() {
        audio::law_averages_what_it_is_given(
            mean,
            g,
            data.subrange(i * channels, i * channels + channels),
            mixed[i],
        );
    }
}

/// The channels that are mixed are those that hold samples, all of them and in
/// their order.
pub proof fn law_sounding_channels_are_mixed<T>(a: Seq<Vec<T>>, b: Seq<Vec<T>>)
    ensures
        sounding(a + b) == sounding(a) + sounding(b),
        b.len() == 1 ==> sounding(b) == (if b[0]@.len() > 0 {
            b
        } else {
            Seq::empty()
        }),
    decreases b.len(),
{
    if b.len() == 0 {
        assert(a + b == a);
        assert(sounding(a) + sounding(b) == sounding(a));
    } else {
        let front = b.drop_last();
        law_sounding_channels_are_mixed(a, front);
        assert((a + b).drop_last() == a + front);
        assert((a + b).last() == b.last());
        if b.last()@.len() > 0 {
            assert((sounding(a) + sounding(front)).push(b.last()) == sounding(a) + sounding(
                front,
            ).push(b.last()));
        }
        if b.len() == 1 {
            assert(front == Seq::<Vec<T>>::empty());
            assert(sounding(front) == Seq::<Vec<T>>::empty());
            assert(seq![b[0]] == b);
            assert(sounding(b) == if b[0]@.len() > 0 {
                b
            } else {
                Seq::empty()
            });
        }
    }
}

/// There are as many frames as the shortest channel has samples: no channel has
/// fewer, and one has just as many.
pub proof fn law_frames_of_the_shortest_channel<T>(channels: Seq<Vec<T>>) -> (at: int)
    requires
        channels.len() > 0,
    ensures
        0 <= at < channels.len(),
        shortest(channels) == channels[at]@.len(),
        forall|c: int|
            0 <= c < channels.len() ==> shortest(channels) <= (#[trigger] channels[c])@.len(),
    decreases channels.len(),
{
    lemma_shortest(channels);
    let front = channels.drop_last();
    if channels.len() == 1 || channels.last()@.len() < shortest(front) {
        channels.len() - 1
    } else {
        law_frames_of_the_shortest_channel(front)
    }
}

/// Each sample mixed from separate channels is averaged from the samples that the
/// channels have at its place, one of each.
pub proof fn law_planar_mixes_each_place<T, U, F: Fn(&[T]) -> U>(
    mean: F,
    g: spec_fn(Seq<T>) -> U,
    channels: Seq<Vec<T>>,
    mixed: Seq<U>,
    i: int,
)
    requires
        is_planar_mix(mean, channels, mixed),
        forall|window: &[T], value: U| #[trigger]
            call_ensures(mean, (window,), value) ==> value == g(window@),
        0 <= i < mixed.len(),
    ensures
        mixed.len() == shortest(sounding(channels)),
        mixed[i] == g(sounding(channels).map_values(|channel: Vec<T>| channel@[i])),
{
    let places = column(sounding(channels), i);
    assert(places == sounding(channels).map_values(|channel: Vec<T>| channel@[i]));
    audio::law_averages_what_it_is_given(mean, g, places, mixed[i]);
}

/// A recording at 16 kHz holds every captured sample, written one for one.
pub proof fn law_every_sample_recorded<T, P, F: Fn(&[T]) -> T, G: Fn(T) -> P>(
    mean: F,
    quantize: G,
    h: spec_fn(T) -> P,
    samples: Seq<T>,
    out: Seq<P>,
)
    requires
        is_recorded(mean, quantize, samples, 16_000, out),
        forall|x: T, value: P| #[trigger]
            call_ensures(quantize, (x,), value) ==> value == h(x),
    ensures
        out == samples.map_values(h),
{
    let resampled = choose|resampled: Seq<T>|
        #[trigger] audio::is_resampled(mean, samples, 16_000, resampled) && is_quantized(
            quantize,
            resampled,
            out,
        );
    assert(resampled == samples);
    assert forall|i: int| 0 <= i < out.len() implies out[i] == samples.map_values(h)[i] by {
        assert(call_ensures(quantize, (samples[i],), out[i]));
    }
    assert(out == samples.map_values(h));
}

/// What is spilled while recording does not change the level that is shown: the
/// newest samples that the meter reads stay in memory.
pub proof fn law_spill_keeps_the_level(buffer: Seq<u32>)
    ensures
        ({
            let n = spilled(buffer.len() as int, kept(SpillEvent::Tick));
            let left = buffer.skip(n);
            &&& buffer.len() >= 4_800 ==> left == buffer.skip(buffer.len() - 4_800)
            &&& buffer.len() < 4_800 ==> left == buffer
            &&& left.skip(spilled(left.len() as int, LEVEL_WINDOW as int)) == buffer.skip(
                spilled(buffer.len() as int, LEVEL_WINDOW as int),
            )
        }),
{
    law_spill_leaves_the_tail(buffer, 4_800);
    let left = buffer.skip(spilled(buffer.len() as int, kept(SpillEvent::Tick)));
    assert(left.skip(0) == left);
}

/// System audio is read in every format that a microphone is, and unsigned
/// samples besides; what has no known format is not read at all.
pub proof fn law_formats_that_are_read(source: Source, format: StreamFormat)
    ensures
        readable(Source::Microphone, format) ==> readable(Source::SystemAudio, format),
        readable(source, format) ==> format != StreamFormat::Other,
        format is U16 ==> readable(Source::SystemAudio, format) && !readable(
            Source::Microphone,
            format,
        ),
        format is F32 || format is I16 ==> readable(source, format),
{
}

} // verus!
