//! One job of the notes sidecar, from a transcript to its notes. The job says
//! which prompt to run next and is told what the model replied.
//!
//! A short meeting is summarized in one pass. A long one is chunked: each
//! chunk is summarized on its own, with a small overlap for continuity, and
//! the parts are then combined in one more pass.

use core::ops::Range;

use vstd::prelude::*;

use crate::chunk;
use crate::chunk::chunk_ranges;
use crate::model::RecordingScenario;
use crate::prompt;
use crate::prompt::{build_notes_prompt, build_reduce_prompt, clamped_context, format_segments};
use crate::response;
use crate::response::{dedupe, parse_part};
use crate::text;
use crate::text::push_decimal;
use crate::wire;
use crate::wire::{WireNotes, WireSegment, EMPTY_TRANSCRIPT};

verus! {

/// A transcript whose rendered text is at most this many characters is
/// summarized in a single pass; longer transcripts are chunked.
pub const SINGLE_PASS_CHARS: usize = 14_000;

/// How often a prompt is run before its reply is given up as unparseable. A
/// small model's structural slips are stochastic, so a re-roll almost always
/// lands clean.
pub const ATTEMPTS: u32 = 3;

/// The message when no chunk gave notes.
pub const NO_PART: &'static str = "no part of the meeting could be summarized";

// --- the model of a job ----------------------------------------------

/// Where a job stands.
pub enum PhaseView {
    /// The whole transcript is being summarized, attempt `seed`.
    Single { seed: int },
    /// Chunk `index` is being summarized; `parts` are the notes so far.
    Chunk { index: int, seed: int, parts: Seq<wire::NotesView> },
    /// The parts are being combined.
    Reduce { seed: int, parts: Seq<wire::NotesView> },
    /// The job is over.
    Done(Result<wire::NotesView, Seq<char>>),
}

/// A job as mathematics.
pub struct JobView {
    pub segments: Seq<wire::SegmentView>,
    pub context: Seq<char>,
    pub scenario: RecordingScenario,
    pub phase: PhaseView,
}

impl JobView {
    /// The chunks of the transcript.
    pub open spec fn chunks(self) -> Seq<(int, int)> {
        chunk::chunks_from(self.segments, 0)
    }

    /// The segments of one chunk.
    pub open spec fn chunk_segments(self, index: int) -> Seq<wire::SegmentView> {
        self.segments.subrange(self.chunks()[index].0, self.chunks()[index].1)
    }

    /// When the recording ends, in seconds.
    pub open spec fn end(self) -> u64 {
        response::recording_end(self.segments)
    }

    /// What holds of every job: there is a transcript, a chunk under way is
    /// one of the chunks, no attempt is beyond the last, and only what there
    /// is gets combined.
    pub open spec fn wf(self) -> bool {
        &&& self.segments.len() > 0
        &&& match self.phase {
            PhaseView::Single { seed } => 0 <= seed < ATTEMPTS,
            PhaseView::Chunk { index, seed, parts } => 0 <= seed < ATTEMPTS && 0 <= index
                < self.chunks().len() && parts.len() <= index,
            PhaseView::Reduce { seed, parts } => 0 <= seed < ATTEMPTS && 0 < parts.len()
                <= self.chunks().len(),
            PhaseView::Done(_) => true,
        }
    }

    /// The prompt to run next, and the seed to run it with; none once the job
    /// is over.
    pub open spec fn request(self) -> Option<(Seq<char>, int)> {
        match self.phase {
            PhaseView::Single { seed } => Some(
                (prompt::notes_prompt(self.segments, self.context, self.scenario, None), seed),
            ),
            PhaseView::Chunk { index, seed, parts } => Some(
                (
                    prompt::notes_prompt(
                        self.chunk_segments(index),
                        self.context,
                        self.scenario,
                        Some(((index + 1) as nat, self.chunks().len())),
                    ),
                    seed,
                ),
            ),
            PhaseView::Reduce { seed, parts } => Some(
                (prompt::reduce_prompt(parts, self.context), seed),
            ),
            PhaseView::Done(_) => None,
        }
    }

    /// The same job in another phase.
    pub open spec fn at(self, phase: PhaseView) -> JobView {
        JobView { phase, ..self }
    }
}

/// What a reply means for the prompt it answers.
pub enum VerdictView {
    /// The prompt is done with.
    Settled(Result<wire::NotesView, Seq<char>>),
    /// The reply could not be parsed; the prompt is run again.
    Retry(Seq<char>),
}

/// How a reply about these segments of a recording of `end` seconds is judged.
/// A failure of the model itself settles the prompt at once; a reply that
/// cannot be parsed is given another attempt until there is none left.
pub open spec fn verdict(
    seed: int,
    reply: Result<Seq<char>, Seq<char>>,
    segments: Seq<wire::SegmentView>,
    end: u64,
) -> VerdictView {
    match reply {
        Err(message) => VerdictView::Settled(Err(message)),
        Ok(raw) => match response::notes_of_response(raw, segments, end) {
            Ok(notes) => VerdictView::Settled(Ok(notes)),
            Err(message) => if seed + 1 < ATTEMPTS {
                VerdictView::Retry(message)
            } else {
                VerdictView::Settled(Err(message))
            },
        },
    }
}

/// The notes with exact duplicates among their items removed.
pub open spec fn without_duplicates(notes: wire::NotesView) -> wire::NotesView {
    wire::NotesView {
        decisions: response::deduped(notes.decisions),
        action_items: response::deduped(notes.action_items),
        ..notes
    }
}

/// Where a job goes when a chunk is settled. One chunk that gave no notes does
/// not lose the meeting: the rest carry them.
pub open spec fn after_chunk(
    job: JobView,
    index: int,
    parts: Seq<wire::NotesView>,
    outcome: Result<wire::NotesView, Seq<char>>,
) -> PhaseView {
    let parts = match outcome {
        Ok(notes) => parts.push(notes),
        Err(_) => parts,
    };
    if index + 1 < job.chunks().len() {
        PhaseView::Chunk { index: index + 1, seed: 0, parts }
    } else if parts.len() == 0 {
        PhaseView::Done(Err(NO_PART@))
    } else {
        PhaseView::Reduce { seed: 0, parts }
    }
}

/// Where a job goes on a reply.
pub open spec fn step(job: JobView, reply: Result<Seq<char>, Seq<char>>) -> JobView {
    match job.phase {
        PhaseView::Single { seed } => match verdict(seed, reply, job.segments, job.end()) {
            VerdictView::Retry(_) => job.at(PhaseView::Single { seed: seed + 1 }),
            VerdictView::Settled(outcome) => job.at(PhaseView::Done(outcome)),
        },
        PhaseView::Chunk { index, seed, parts } => match verdict(
            seed,
            reply,
            job.chunk_segments(index),
            job.end(),
        ) {
            VerdictView::Retry(_) => job.at(PhaseView::Chunk { index, seed: seed + 1, parts }),
            VerdictView::Settled(outcome) => job.at(after_chunk(job, index, parts, outcome)),
        },
        PhaseView::Reduce { seed, parts } => match verdict(seed, reply, job.segments, job.end()) {
            VerdictView::Retry(_) => job.at(PhaseView::Reduce { seed: seed + 1, parts }),
            VerdictView::Settled(Ok(notes)) => job.at(
                PhaseView::Done(Ok(without_duplicates(notes))),
            ),
            VerdictView::Settled(Err(message)) => job.at(PhaseView::Done(Err(message))),
        },
        PhaseView::Done(_) => job,
    }
}

/// The phase a job starts in.
pub open spec fn first_phase(
    segments: Seq<wire::SegmentView>,
    scenario: RecordingScenario,
) -> PhaseView {
    if prompt::segment_lines(segments, scenario).len() <= SINGLE_PASS_CHARS {
        PhaseView::Single { seed: 0 }
    } else {
        PhaseView::Chunk { index: 0, seed: 0, parts: Seq::empty() }
    }
}

/// A job as it starts on a transcript, with what the operator said of it.
pub open spec fn started(
    segments: Seq<wire::SegmentView>,
    context: Option<Seq<char>>,
    scenario: RecordingScenario,
) -> JobView {
    JobView {
        segments,
        context: prompt::clamped(context),
        scenario,
        phase: first_phase(segments, scenario),
    }
}

/// The status line about an attempt that could not be parsed.
pub open spec fn attempt_notice(seed: int, message: Seq<char>) -> Seq<char> {
    "attempt "@ + text::decimal((seed + 1) as nat) + " produced unparseable notes — "@ + message
}

/// The status line about a chunk that gave no notes.
pub open spec fn skip_notice(index: int, message: Seq<char>) -> Seq<char> {
    "skipping part "@ + text::decimal((index + 1) as nat) + " — "@ + message
}

/// The status lines that a reply gives rise to.
pub open spec fn notices(job: JobView, reply: Result<Seq<char>, Seq<char>>) -> Seq<Seq<char>> {
    match job.phase {
        PhaseView::Single { seed } => attempt_notices(seed, reply, job.segments, job.end()),
        PhaseView::Chunk { index, seed, parts } => {
            let tried = attempt_notices(seed, reply, job.chunk_segments(index), job.end());
            match verdict(seed, reply, job.chunk_segments(index), job.end()) {
                VerdictView::Settled(Err(message)) => tried.push(skip_notice(index, message)),
                _ => tried,
            }
        },
        PhaseView::Reduce { seed, parts } => attempt_notices(seed, reply, job.segments, job.end()),
        PhaseView::Done(_) => Seq::empty(),
    }
}

/// The status line about the attempt, if its reply could not be parsed.
pub open spec fn attempt_notices(
    seed: int,
    reply: Result<Seq<char>, Seq<char>>,
    segments: Seq<wire::SegmentView>,
    end: u64,
) -> Seq<Seq<char>> {
    match reply {
        Ok(raw) => match response::notes_of_response(raw, segments, end) {
            Err(message) => seq![attempt_notice(seed, message)],
            Ok(_) => Seq::empty(),
        },
        Err(_) => Seq::empty(),
    }
}

// --- the job ---------------------------------------------------------

/// Where a job stands.
#[derive(Debug)]
enum Phase {
    Single { seed: u32 },
    Chunk { index: usize, seed: u32, parts: Vec<WireNotes> },
    Reduce { seed: u32, parts: Vec<WireNotes> },
    Done(Result<WireNotes, String>),
}

spec fn phase_view(phase: Phase) -> PhaseView {
    match phase {
        Phase::Single { seed } => PhaseView::Single { seed: seed as int },
        Phase::Chunk { index, seed, parts } => PhaseView::Chunk {
            index: index as int,
            seed: seed as int,
            parts: wire::notes_views(parts@),
        },
        Phase::Reduce { seed, parts } => PhaseView::Reduce {
            seed: seed as int,
            parts: wire::notes_views(parts@),
        },
        Phase::Done(outcome) => PhaseView::Done(response::outcome_view(outcome)),
    }
}

/// One job of the sidecar.
#[derive(Debug)]
pub struct NotesJob {
    segments: Vec<WireSegment>,
    context: String,
    scenario: RecordingScenario,
    chunks: Vec<Range<usize>>,
    phase: Phase,
}

/// What became of a job on a reply, and the status lines to report.
#[derive(Debug)]
pub struct Progress {
    pub job: NotesJob,
    pub notices: Vec<String>,
}

/// What a row of status lines says.
pub open spec fn lines_view(lines: Seq<String>) -> Seq<Seq<char>> {
    Seq::new(lines.len(), |i: int| lines[i]@)
}

/// What a reply says.
pub open spec fn reply_view(reply: Result<String, String>) -> Result<Seq<char>, Seq<char>> {
    match reply {
        Ok(raw) => Ok(raw@),
        Err(message) => Err(message@),
    }
}

/// What a reply means for the prompt it answers.
enum Verdict {
    Settled(Result<WireNotes, String>),
    Retry,
}

/// Judges a reply, reporting one that could not be parsed.
fn judge(
    seed: u32,
    reply: Result<String, String>,
    segments: &[WireSegment],
    end: u64,
    notices: &mut Vec<String>,
) -> (r: Verdict)
    requires
        seed < ATTEMPTS,
    ensures
        match r {
            Verdict::Settled(outcome) => verdict(
                seed as int,
                reply_view(reply),
                wire::segment_views(segments@),
                end,
            ) == VerdictView::Settled(response::outcome_view(outcome)),
            Verdict::Retry => seed + 1 < ATTEMPTS && verdict(
                seed as int,
                reply_view(reply),
                wire::segment_views(segments@),
                end,
            ) is Retry,
        },
        lines_view(final(notices)@) == lines_view(old(notices)@) + attempt_notices(
            seed as int,
            reply_view(reply),
            wire::segment_views(segments@),
            end,
        ),
{
    match reply {
        Err(message) => {
            assert(lines_view(notices@) + Seq::<Seq<char>>::empty() == lines_view(notices@));
            Verdict::Settled(Err(message))
        },
        Ok(raw) => match parse_part(raw.as_str(), segments, end) {
            Ok(notes) => {
                assert(lines_view(notices@) + Seq::<Seq<char>>::empty() == lines_view(notices@));
                Verdict::Settled(Ok(notes))
            },
            Err(message) => {
                let mut line = "attempt ".to_string();
                push_decimal(&mut line, (seed + 1) as u64);
                line.append(" produced unparseable notes — ");
                line.append(message.as_str());
                assert(line@ == attempt_notice(seed as int, message@));
                let ghost before = notices@;
                notices.push(line);
                assert(lines_view(notices@) == lines_view(before) + seq![line@]);
                if seed + 1 < ATTEMPTS {
                    Verdict::Retry
                } else {
                    Verdict::Settled(Err(message))
                }
            },
        },
    }
}

impl View for NotesJob {
    type V = JobView;

    closed spec fn view(&self) -> JobView {
        JobView {
            segments: wire::segment_views(self.segments@),
            context: self.context@,
            scenario: self.scenario,
            phase: phase_view(self.phase),
        }
    }
}

impl NotesJob {
    #[verifier::type_invariant]
    spec fn well_formed(self) -> bool {
        &&& self@.wf()
        &&& self.phase is Chunk ==> chunk::range_views(self.chunks@) == self@.chunks()
    }

    /// Starts a job for a transcript, with the operator's optional context.
    pub fn start(
        segments: Vec<WireSegment>,
        context: Option<String>,
        scenario: RecordingScenario,
    ) -> (r: Result<NotesJob, String>)
        ensures
            match r {
                Ok(job) => segments@.len() > 0 && job@ == (JobView {
                    segments: wire::segment_views(segments@),
                    context: prompt::clamped(prompt::optional_text(context)),
                    scenario,
                    phase: first_phase(wire::segment_views(segments@), scenario),
                }) && job@.wf(),
                Err(message) => segments@.len() == 0 && message@ == EMPTY_TRANSCRIPT@,
            },
            r matches Ok(job) ==> job@ == started(
                wire::segment_views(segments@),
                prompt::optional_text(context),
                scenario,
            ),
    {
        if segments.len() == 0 {
            return Err(EMPTY_TRANSCRIPT.to_string());
        }
        let context = clamped_context(&context);
        let lines = format_segments(segments.as_slice(), scenario);
        if lines.as_str().unicode_len() <= SINGLE_PASS_CHARS {
            let chunks: Vec<Range<usize>> = Vec::new();
            Ok(NotesJob { segments, context, scenario, chunks, phase: Phase::Single { seed: 0 } })
        } else {
            let chunks = chunk_ranges(segments.as_slice());
            let parts: Vec<WireNotes> = Vec::new();
            proof {
                chunk::law_chunks_cover(wire::segment_views(segments@), 0);
                assert(wire::notes_views(parts@) == Seq::<wire::NotesView>::empty());
            }
            Ok(
                NotesJob {
                    segments,
                    context,
                    scenario,
                    chunks,
                    phase: Phase::Chunk { index: 0, seed: 0, parts },
                },
            )
        }
    }

    /// The segments of the chunk under way.
    fn chunk_at(&self, index: usize) -> (chunk: &[WireSegment])
        requires
            self.phase is Chunk,
            index < self@.chunks().len(),
        ensures
            wire::segment_views(chunk@) == self@.chunk_segments(index as int),
    {
        proof {
            use_type_invariant(self);
            chunk::law_chunks_cover(self@.segments, 0);
            assert(chunk::range_views(self.chunks@)[index as int] == self@.chunks()[index as int]);
        }
        let from = self.chunks[index].start;
        let to = self.chunks[index].end;
        let chunk = vstd::slice::slice_subrange(self.segments.as_slice(), from, to);
        assert(wire::segment_views(chunk@) == self@.chunk_segments(index as int));
        chunk
    }

    /// The prompt to run next, and the seed to run it with; none once the job
    /// is over.
    pub fn request(&self) -> (r: Option<(String, u32)>)
        ensures
            match r {
                Some((text, seed)) => self@.request() == Some((text@, seed as int)),
                None => self@.request() is None,
            },
    {
        proof {
            use_type_invariant(self);
        }
        match &self.phase {
            Phase::Single { seed } => Some(
                (
                    build_notes_prompt(
                        self.segments.as_slice(),
                        self.context.as_str(),
                        self.scenario,
                        None,
                    ),
                    *seed,
                ),
            ),
            Phase::Chunk { index, seed, parts } => {
                assert(chunk::range_views(self.chunks@).len() == self.chunks@.len());
                let chunk = self.chunk_at(*index);
                assert(*index < self.chunks.len());
                Some(
                    (
                        build_notes_prompt(
                            chunk,
                            self.context.as_str(),
                            self.scenario,
                            Some((*index + 1, self.chunks.len())),
                        ),
                        *seed,
                    ),
                )
            },
            Phase::Reduce { seed, parts } => Some(
                (build_reduce_prompt(parts, self.context.as_str()), *seed),
            ),
            Phase::Done(_) => None,
        }
    }

    /// Takes the model's reply to the prompt of [`NotesJob::request`]: the text
    /// it generated, or why it failed.
    pub fn reply(self, reply: Result<String, String>) -> (r: Progress)
        ensures
            r.job@ == step(self@, reply_view(reply)),
            r.job@.wf(),
            lines_view(r.notices@) == notices(self@, reply_view(reply)),
    {
        proof {
            use_type_invariant(&self);
        }
        let mut lines: Vec<String> = Vec::new();
        let ghost said = reply_view(reply);
        let ghost job = self@;
        assert(lines_view(lines@) == Seq::<Seq<char>>::empty());
        let end = self.segments[self.segments.len() - 1].end_secs;
        assert(job.segments.last() == self.segments@[self.segments@.len() - 1]@);
        let verdict = match &self.phase {
            Phase::Chunk { index, seed, parts } => {
                judge(*seed, reply, self.chunk_at(*index), end, &mut lines)
            },
            Phase::Single { seed } => judge(*seed, reply, self.segments.as_slice(), end, &mut lines),
            Phase::Reduce { seed, parts } => {
                judge(*seed, reply, self.segments.as_slice(), end, &mut lines)
            },
            Phase::Done(_) => Verdict::Retry,
        };
        let NotesJob { segments, context, scenario, chunks, phase } = self;
        let total = chunks.len();
        assert(chunk::range_views(chunks@).len() == chunks@.len());
        let phase = match phase {
            Phase::Single { seed } => match verdict {
                Verdict::Retry => Phase::Single { seed: seed + 1 },
                Verdict::Settled(outcome) => Phase::Done(outcome),
            },
            Phase::Chunk { index, seed, parts } => match verdict {
                Verdict::Retry => Phase::Chunk { index, seed: seed + 1, parts },
                Verdict::Settled(outcome) => {
                    let mut parts = parts;
                    let ghost before = parts@;
                    match outcome {
                        Ok(notes) => {
                            parts.push(notes);
                            assert(wire::notes_views(parts@) == wire::notes_views(before).push(
                                notes@,
                            ));
                        },
                        Err(message) => {
                            let mut line = "skipping part ".to_string();
                            push_decimal(&mut line, (index + 1) as u64);
                            line.append(" — ");
                            line.append(message.as_str());
                            assert(line@ == skip_notice(index as int, message@));
                            let ghost so_far = lines@;
                            lines.push(line);
                            assert(lines_view(lines@) == lines_view(so_far).push(line@));
                        },
                    }
                    assert(wire::notes_views(parts@).len() == parts@.len());
                    if index + 1 < total {
                        Phase::Chunk { index: index + 1, seed: 0, parts }
                    } else if parts.len() == 0 {
                        Phase::Done(Err(NO_PART.to_string()))
                    } else {
                        Phase::Reduce { seed: 0, parts }
                    }
                },
            },
            Phase::Reduce { seed, parts } => match verdict {
                Verdict::Retry => Phase::Reduce { seed: seed + 1, parts },
                Verdict::Settled(Ok(notes)) => Phase::Done(
                    Ok(
                        WireNotes {
                            summary: notes.summary,
                            decisions: dedupe(notes.decisions),
                            action_items: dedupe(notes.action_items),
                            billable: notes.billable,
                        },
                    ),
                ),
                Verdict::Settled(Err(message)) => Phase::Done(Err(message)),
            },
            Phase::Done(outcome) => Phase::Done(outcome),
        };
        Progress {
            job: NotesJob { segments, context, scenario, chunks, phase },
            notices: lines,
        }
    }

    /// What came of the job, once it is over.
    pub fn finish(self) -> (r: Option<Result<WireNotes, String>>)
        ensures
            match r {
                Some(outcome) => self@.phase == PhaseView::Done(response::outcome_view(outcome)),
                None => !(self@.phase is Done),
            },
    {
        match self.phase {
            Phase::Done(outcome) => Some(outcome),
            _ => None,
        }
    }
}

// --- what holds of every run -----------------------------------------

/// Where a job stands after these replies.
pub open spec fn run(job: JobView, replies: Seq<Result<Seq<char>, Seq<char>>>) -> JobView
    decreases replies.len(),
{
    if replies.len() == 0 {
        job
    } else {
        run(step(job, replies[0]), replies.drop_first())
    }
}

/// A bound on the replies that a job still takes.
pub open spec fn replies_left(job: JobView) -> int {
    match job.phase {
        PhaseView::Single { seed } => ATTEMPTS - seed,
        PhaseView::Chunk { index, seed, parts } => ATTEMPTS * (job.chunks().len() - index + 1)
            - seed,
        PhaseView::Reduce { seed, parts } => ATTEMPTS - seed,
        PhaseView::Done(_) => 0,
    }
}

/// A reply keeps a job well-formed and brings it nearer to its end; once a job
/// is over nothing changes it.
pub proof fn law_reply_moves_on(job: JobView, reply: Result<Seq<char>, Seq<char>>)
    requires
        job.wf(),
    ensures
        step(job, reply).wf(),
        job.phase is Done ==> step(job, reply) == job,
        !(job.phase is Done) ==> 0 <= replies_left(step(job, reply)) < replies_left(job),
        step(job, reply).segments == job.segments,
        step(job, reply).context == job.context,
        step(job, reply).scenario == job.scenario,
{
}

/// Every job ends: a prompt is run at most [`ATTEMPTS`] times, and there is one
/// prompt for a short meeting, one for each chunk of a long one and one to
/// combine them.
pub proof fn law_job_ends(job: JobView, replies: Seq<Result<Seq<char>, Seq<char>>>)
    requires
        job.wf(),
        replies.len() >= replies_left(job),
    ensures
        run(job, replies).phase is Done,
        job.phase == first_phase(job.segments, job.scenario) ==> replies_left(job) <= ATTEMPTS * (
        job.chunks().len() + 1),
    decreases replies.len(),
{
    if replies.len() > 0 {
        law_reply_moves_on(job, replies[0]);
        law_job_ends(step(job, replies[0]), replies.drop_first());
    }
}

proof fn lemma_run_done(job: JobView, replies: Seq<Result<Seq<char>, Seq<char>>>)
    requires
        job.phase is Done,
    ensures
        run(job, replies) == job,
    decreases replies.len(),
{
    if replies.len() > 0 {
        lemma_run_done(job, replies.drop_first());
    }
}

/// What the attempts at one prompt come to, from attempt `seed` on: the first
/// reply that parses, a failure of the model, or the last parse error.
pub open spec fn attempts_outcome(
    seed: int,
    replies: Seq<Result<Seq<char>, Seq<char>>>,
    segments: Seq<wire::SegmentView>,
    end: u64,
) -> Result<wire::NotesView, Seq<char>>
    decreases ATTEMPTS - seed,
{
    match verdict(seed, replies[0], segments, end) {
        VerdictView::Settled(outcome) => outcome,
        VerdictView::Retry(_) => if seed + 1 < ATTEMPTS {
            attempts_outcome(seed + 1, replies.drop_first(), segments, end)
        } else {
            arbitrary()
        },
    }
}

/// How many replies the attempts at one prompt take.
pub open spec fn attempts_taken(
    seed: int,
    replies: Seq<Result<Seq<char>, Seq<char>>>,
    segments: Seq<wire::SegmentView>,
    end: u64,
) -> int
    decreases ATTEMPTS - seed,
{
    match verdict(seed, replies[0], segments, end) {
        VerdictView::Settled(outcome) => 1,
        VerdictView::Retry(_) => if seed + 1 < ATTEMPTS {
            1 + attempts_taken(seed + 1, replies.drop_first(), segments, end)
        } else {
            1
        },
    }
}

/// A short meeting's notes are what the attempts at its one prompt come to.
pub proof fn law_single_pass(job: JobView, replies: Seq<Result<Seq<char>, Seq<char>>>)
    requires
        job.wf(),
        job.phase is Single,
        replies.len() >= ATTEMPTS - job.phase->Single_seed,
    ensures
        run(job, replies).phase == PhaseView::Done(
            attempts_outcome(job.phase->Single_seed, replies, job.segments, job.end()),
        ),
    decreases replies.len(),
{
    let seed = job.phase->Single_seed;
    let next = step(job, replies[0]);
    match verdict(seed, replies[0], job.segments, job.end()) {
        VerdictView::Settled(outcome) => {
            lemma_run_done(next, replies.drop_first());
        },
        VerdictView::Retry(_) => {
            law_single_pass(next, replies.drop_first());
        },
    }
}

proof fn lemma_chunk_settles(job: JobView, replies: Seq<Result<Seq<char>, Seq<char>>>)
    requires
        job.wf(),
        job.phase is Chunk,
        replies.len() >= ATTEMPTS - job.phase->Chunk_seed,
    ensures
        ({
            let (index, seed) = (job.phase->Chunk_index, job.phase->Chunk_seed);
            let taken = attempts_taken(seed, replies, job.chunk_segments(index), job.end());
            let outcome = attempts_outcome(seed, replies, job.chunk_segments(index), job.end());
            &&& 0 < taken <= ATTEMPTS - seed
            &&& run(job, replies) == run(
                job.at(after_chunk(job, index, job.phase->Chunk_parts, outcome)),
                replies.skip(taken),
            )
        }),
    decreases replies.len(),
{
    let (index, seed) = (job.phase->Chunk_index, job.phase->Chunk_seed);
    let next = step(job, replies[0]);
    match verdict(seed, replies[0], job.chunk_segments(index), job.end()) {
        VerdictView::Settled(outcome) => {
            assert(replies.skip(1) == replies.drop_first());
        },
        VerdictView::Retry(_) => {
            lemma_chunk_settles(next, replies.drop_first());
            let taken = attempts_taken(
                seed + 1,
                replies.drop_first(),
                job.chunk_segments(index),
                job.end(),
            );
            assert(replies.drop_first().skip(taken) == replies.skip(1 + taken));
            let outcome = attempts_outcome(
                seed + 1,
                replies.drop_first(),
                job.chunk_segments(index),
                job.end(),
            );
            let phase = after_chunk(job, index, job.phase->Chunk_parts, outcome);
            assert(next.at(phase) == job.at(phase));
        },
    }
}

/// What combining the parts comes to.
pub open spec fn combined(outcome: Result<wire::NotesView, Seq<char>>) -> Result<
    wire::NotesView,
    Seq<char>,
> {
    match outcome {
        Ok(notes) => Ok(without_duplicates(notes)),
        Err(message) => Err(message),
    }
}

proof fn lemma_reduce_settles(job: JobView, replies: Seq<Result<Seq<char>, Seq<char>>>)
    requires
        job.wf(),
        job.phase is Reduce,
        replies.len() >= ATTEMPTS - job.phase->Reduce_seed,
    ensures
        run(job, replies).phase == PhaseView::Done(
            combined(attempts_outcome(job.phase->Reduce_seed, replies, job.segments, job.end())),
        ),
    decreases replies.len(),
{
    let seed = job.phase->Reduce_seed;
    let next = step(job, replies[0]);
    match verdict(seed, replies[0], job.segments, job.end()) {
        VerdictView::Settled(outcome) => {
            lemma_run_done(next, replies.drop_first());
        },
        VerdictView::Retry(_) => {
            lemma_reduce_settles(next, replies.drop_first());
        },
    }
}

/// What a long meeting comes to from chunk `index` on: each chunk is
/// summarized in turn, those that fail are left out, and the parts are
/// combined; it fails if there is no part at all.
pub open spec fn chunked_outcome(
    job: JobView,
    index: int,
    parts: Seq<wire::NotesView>,
    replies: Seq<Result<Seq<char>, Seq<char>>>,
) -> Result<wire::NotesView, Seq<char>>
    decreases job.chunks().len() - index,
{
    if index < 0 || index >= job.chunks().len() {
        if parts.len() == 0 {
            Err(NO_PART@)
        } else {
            combined(attempts_outcome(0, replies, job.segments, job.end()))
        }
    } else {
        let outcome = attempts_outcome(0, replies, job.chunk_segments(index), job.end());
        let rest = replies.skip(attempts_taken(0, replies, job.chunk_segments(index), job.end()));
        match outcome {
            Ok(notes) => chunked_outcome(job, index + 1, parts.push(notes), rest),
            Err(_) => chunked_outcome(job, index + 1, parts, rest),
        }
    }
}

/// A long meeting's notes are what its chunks and their combination come to.
pub proof fn law_chunked_run(job: JobView, replies: Seq<Result<Seq<char>, Seq<char>>>)
    requires
        job.wf(),
        job.phase is Chunk,
        job.phase->Chunk_seed == 0,
        replies.len() >= replies_left(job),
    ensures
        run(job, replies).phase == PhaseView::Done(
            chunked_outcome(job, job.phase->Chunk_index, job.phase->Chunk_parts, replies),
        ),
    decreases job.chunks().len() - job.phase->Chunk_index,
{
    let index = job.phase->Chunk_index;
    let parts = job.phase->Chunk_parts;
    lemma_chunk_settles(job, replies);
    let segments = job.chunk_segments(index);
    let outcome = attempts_outcome(0, replies, segments, job.end());
    let rest = replies.skip(attempts_taken(0, replies, segments, job.end()));
    let phase = after_chunk(job, index, parts, outcome);
    let next = job.at(phase);
    let parts_after = match outcome {
        Ok(notes) => parts.push(notes),
        Err(_) => parts,
    };
    assert(next.wf());
    assert(chunked_outcome(job, index, parts, replies) == chunked_outcome(
        job,
        index + 1,
        parts_after,
        rest,
    ));
    if index + 1 < job.chunks().len() {
        law_chunked_run(next, rest);
        lemma_chunked_outcome_phase(job, next, index + 1, parts_after, rest);
    } else if parts_after.len() == 0 {
        lemma_run_done(next, rest);
    } else {
        lemma_reduce_settles(next, rest);
    }
}

proof fn lemma_chunked_outcome_phase(
    job: JobView,
    other: JobView,
    index: int,
    parts: Seq<wire::NotesView>,
    replies: Seq<Result<Seq<char>, Seq<char>>>,
)
    requires
        job.segments == other.segments,
    ensures
        chunked_outcome(job, index, parts, replies) == chunked_outcome(
            other,
            index,
            parts,
            replies,
        ),
    decreases job.chunks().len() - index,
{
    if 0 <= index < job.chunks().len() {
        let outcome = attempts_outcome(0, replies, job.chunk_segments(index), job.end());
        let rest = replies.skip(attempts_taken(0, replies, job.chunk_segments(index), job.end()));
        match outcome {
            Ok(notes) => {
                lemma_chunked_outcome_phase(job, other, index + 1, parts.push(notes), rest);
            },
            Err(_) => {
                lemma_chunked_outcome_phase(job, other, index + 1, parts, rest);
            },
        }
    }
}

/// One chunk that gave notes is enough: with a part in hand a job goes on to
/// the combining pass, whatever becomes of the other chunks.
pub proof fn law_one_part_suffices(job: JobView, reply: Result<Seq<char>, Seq<char>>)
    requires
        job.wf(),
        job.phase is Chunk,
        job.phase->Chunk_parts.len() > 0 || verdict(
            job.phase->Chunk_seed,
            reply,
            job.chunk_segments(job.phase->Chunk_index),
            job.end(),
        ) matches VerdictView::Settled(Ok(_)),
    ensures
        match step(job, reply).phase {
            PhaseView::Chunk { index, seed, parts } => parts.len() > 0,
            PhaseView::Reduce { seed, parts } => parts.len() > 0,
            _ => false,
        },
{
}

/// Whatever the model replies, the notes of a job say something, their
/// billable time is the length of the recording, every item has a text without
/// a trailing timecode and cites no moment after the recording, and those of a
/// chunked job hold no duplicates.
pub proof fn law_final_notes(job: JobView, replies: Seq<Result<Seq<char>, Seq<char>>>)
    requires
        job.wf(),
        !(job.phase is Done),
        run(job, replies).phase matches PhaseView::Done(Ok(_)),
    ensures
        ({
            let notes = run(job, replies).phase->Done_0->Ok_0;
            &&& notes.summary.len() > 0 || notes.decisions.len() > 0 || notes.action_items.len()
                > 0
            &&& notes.billable matches Some(b) ==> b.duration_secs == response::recording_end(
                job.segments,
            ) && b.description.len() > 0
            &&& response::clean_items(notes.decisions)
            &&& response::clean_items(notes.action_items)
            &&& wire::items_within(notes.decisions, job.end())
            &&& wire::items_within(notes.action_items, job.end())
            &&& !(job.phase is Single) ==> response::deduped(notes.decisions) == notes.decisions
                && response::deduped(notes.action_items) == notes.action_items
        }),
    decreases replies.len(),
{
    if replies.len() > 0 {
        let next = step(job, replies[0]);
        law_reply_moves_on(job, replies[0]);
        if next.phase is Done {
            lemma_run_done(next, replies.drop_first());
            match replies[0] {
                Ok(raw) => {
                    response::law_notes_usable(raw, job.segments, job.end());
                    if response::notes_of_response(raw, job.segments, job.end()) is Ok {
                        let notes = response::notes_of_response(raw, job.segments, job.end())->Ok_0;
                        response::law_dedupe_idempotent(notes.decisions);
                        response::law_dedupe_idempotent(notes.action_items);
                        response::lemma_deduped_clean(notes.decisions);
                        response::lemma_deduped_clean(notes.action_items);
                        response::lemma_deduped_within(notes.decisions, job.end());
                        response::lemma_deduped_within(notes.action_items, job.end());
                    }
                },
                Err(_) => {},
            }
        } else {
            law_final_notes(next, replies.drop_first());
        }
    }
}

// --- what is asked, and what becomes of the answers ------------------

/// Whatever pass runs on transcript segments, the whole of a short meeting or
/// any chunk of a long one, its prompt frames the recording by the job's own
/// scenario and ends with the lines of just those segments, rendered for that
/// scenario.
pub proof fn law_every_pass_reads_its_own_recording(job: JobView, from: int, to: int)
    requires
        job.wf(),
        match job.phase {
            PhaseView::Single { seed } => from == 0 && to == job.segments.len(),
            PhaseView::Chunk { index, seed, parts } => (from, to) == chunk::chunks_from(
                job.segments,
                0,
            )[index],
            _ => false,
        },
    ensures
        job.request() is Some,
        exists|start: Seq<char>, middle: Seq<char>|
            (job.request()->0).0 == #[trigger] (start + prompt::framing(job.scenario) + middle
                + prompt::segment_lines(job.segments.subrange(from, to), job.scenario)
                + "<end_of_turn>\n<start_of_turn>model\n"@),
{
    let segments = job.segments.subrange(from, to);
    match job.phase {
        PhaseView::Single { seed } => {
            assert(segments == job.segments);
            prompt::law_prompt_reads_its_scenario(segments, job.context, job.scenario, None);
        },
        PhaseView::Chunk { index, seed, parts } => {
            prompt::law_prompt_reads_its_scenario(
                segments,
                job.context,
                job.scenario,
                Some(((index + 1) as nat, job.chunks().len())),
            );
        },
        _ => {},
    }
}

proof fn lemma_regroup(
    head: Seq<char>,
    x: Seq<char>,
    line: Seq<char>,
    y: Seq<char>,
    closing: Seq<char>,
)
    ensures
        head + (x + line + y) + closing == (head + x) + line + (y + closing),
{
    assert(head + (x + line + y) + closing == (head + x) + line + (y + closing));
}

proof fn lemma_line_in_prompt(job: JobView, from: int, to: int, k: int) -> (around: (
    Seq<char>,
    Seq<char>,
))
    requires
        job.wf(),
        match job.phase {
            PhaseView::Single { seed } => from == 0 && to == job.segments.len(),
            PhaseView::Chunk { index, seed, parts } => (from, to) == chunk::chunks_from(
                job.segments,
                0,
            )[index],
            _ => false,
        },
        from <= k < to,
    ensures
        (job.request()->0).0 == around.0 + prompt::segment_line(job.segments[k], job.scenario)
            + around.1,
{
    chunk::law_chunks_cover(job.segments, 0);
    if let PhaseView::Chunk { index, seed, parts } = job.phase {
        assert(chunk::chunks_from(job.segments, 0)[index] == (from, to));
    }
    let segments = job.segments.subrange(from, to);
    let i = k - from;
    assert(segments[i] == job.segments[k]);
    law_every_pass_reads_its_own_recording(job, from, to);
    prompt::law_every_segment_has_its_line(segments, job.scenario, i);
    let lines = prompt::segment_lines(segments, job.scenario);
    let closing = "<end_of_turn>\n<start_of_turn>model\n"@;
    let (start, middle) = choose|start: Seq<char>, middle: Seq<char>|
        (job.request()->0).0 == #[trigger] (start + prompt::framing(job.scenario) + middle + lines
            + closing);
    let head = start + prompt::framing(job.scenario) + middle;
    let x = prompt::segment_lines(segments.take(i), job.scenario);
    let y = prompt::segment_lines(segments.skip(i + 1), job.scenario);
    lemma_regroup(head, x, prompt::segment_line(segments[i], job.scenario), y, closing);
    (head + x, y + closing)
}

/// Every segment that a pass runs on stands in its prompt as a line of its own,
/// with its moment, the label of its side in a virtual meeting, and its whole
/// text but for the white space around it.
pub proof fn law_every_segment_stands_in_its_prompt(
    job: JobView,
    from: int,
    to: int,
    k: int,
    lead: Seq<char>,
    core: Seq<char>,
    tail: Seq<char>,
)
    requires
        job.wf(),
        match job.phase {
            PhaseView::Single { seed } => from == 0 && to == job.segments.len(),
            PhaseView::Chunk { index, seed, parts } => (from, to) == chunk::chunks_from(
                job.segments,
                0,
            )[index],
            _ => false,
        },
        from <= k < to,
        job.segments[k].text == lead + core + tail,
        forall|i: int| 0 <= i < lead.len() ==> text::is_white_space(#[trigger] lead[i]),
        forall|i: int| 0 <= i < tail.len() ==> text::is_white_space(#[trigger] tail[i]),
        core.len() > 0 ==> !text::is_white_space(core[0]) && !text::is_white_space(core.last()),
    ensures
        job.scenario != RecordingScenario::VirtualMeeting ==> exists|start: Seq<char>, end: Seq<char>|
            (job.request()->0).0 == #[trigger] (start + ("["@ + text::decimal(
                job.segments[k].start_secs as nat,
            ) + "s] "@ + core + "\n"@) + end),
        job.scenario == RecordingScenario::VirtualMeeting && job.segments[k].speaker == "near"@ ==> exists|start: Seq<char>, end: Seq<char>|
            (job.request()->0).0 == #[trigger] (start + ("["@ + text::decimal(
                job.segments[k].start_secs as nat,
            ) + "s] "@ + "Me: "@ + core + "\n"@) + end),
        job.scenario == RecordingScenario::VirtualMeeting && job.segments[k].speaker != "near"@ ==> exists|start: Seq<char>, end: Seq<char>|
            (job.request()->0).0 == #[trigger] (start + ("["@ + text::decimal(
                job.segments[k].start_secs as nat,
            ) + "s] "@ + "Other: "@ + core + "\n"@) + end),
{
    prompt::law_line_says_it_all(job.segments[k], job.scenario, lead, core, tail);
    let around = lemma_line_in_prompt(job, from, to, k);
    let line = prompt::segment_line(job.segments[k], job.scenario);
    assert((job.request()->0).0 == around.0 + line + around.1);
}

/// Every pass is told the operator's context, and a pass on a chunk is told which
/// part it is and of how many. The combining pass lists every part.
pub proof fn law_every_pass_is_told(job: JobView, i: int)
    requires
        job.wf(),
        i >= 0,
    ensures
        !(job.phase is Done) && job.context.len() > 0 ==> exists|start: Seq<char>, end: Seq<char>|
            (job.request()->0).0 == #[trigger] (start + job.context + end),
        job.phase matches PhaseView::Chunk { index, seed, parts } ==> exists|
            start: Seq<char>,
            end: Seq<char>,
        |
            (job.request()->0).0 == #[trigger] (start + ("This is part "@ + text::decimal(
                (index + 1) as nat,
            ) + " of "@ + text::decimal(chunk::chunks_from(job.segments, 0).len())) + end),
        job.phase matches PhaseView::Reduce { seed, parts } ==> i < parts.len() ==> exists|
            start: Seq<char>,
            end: Seq<char>,
        |
            (job.request()->0).0 == #[trigger] (start + prompt::part_text((i + 1) as nat, parts[i])
                + end),
{
    match job.phase {
        PhaseView::Single { seed } => {
            if job.context.len() > 0 {
                prompt::law_prompt_holds_the_context(
                    job.segments,
                    job.context,
                    job.scenario,
                    None,
                );
            }
        },
        PhaseView::Chunk { index, seed, parts } => {
            let segments = job.chunk_segments(index);
            let total = job.chunks().len();
            prompt::law_prompt_numbers_its_part(
                segments,
                job.context,
                job.scenario,
                (index + 1) as nat,
                total,
            );
            if job.context.len() > 0 {
                prompt::law_prompt_holds_the_context(
                    segments,
                    job.context,
                    job.scenario,
                    Some(((index + 1) as nat, total)),
                );
            }
        },
        PhaseView::Reduce { seed, parts } => {
            prompt::law_reduce_prompt_lists_every_part(
                parts,
                job.context,
                if i < parts.len() {
                    i
                } else {
                    0
                },
            );
            if job.context.len() > 0 {
                prompt::law_reduce_prompt_holds_the_context(parts, job.context);
            }
        },
        PhaseView::Done(_) => {},
    }
}

/// Each attempt at a prompt has a seed of its own, counted from zero, and asks
/// the same thing: only a reply that cannot be parsed leads to another.
pub proof fn law_retry_asks_again(job: JobView, raw: Seq<char>)
    requires
        job.wf(),
        !(job.phase is Done),
        step(job, Ok(raw)).request() is Some,
        (step(job, Ok(raw)).request()->0).1 > 0,
    ensures
        job.request() is Some,
        (step(job, Ok(raw)).request()->0).0 == (job.request()->0).0,
        (step(job, Ok(raw)).request()->0).1 == (job.request()->0).1 + 1,
        (step(job, Ok(raw)).request()->0).1 < 3,
{
}

/// The first reply to a chunk that can be parsed is its part: it joins the parts
/// before it, unchanged and last, and the job goes on to the next chunk or, after
/// the last, to combining them.
pub proof fn law_part_joins_the_others(
    job: JobView,
    raw: Seq<char>,
    index: int,
    seed: int,
    parts: Seq<wire::NotesView>,
    notes: wire::NotesView,
)
    requires
        job.wf(),
        job.phase == (PhaseView::Chunk { index, seed, parts }),
        response::notes_of_response(
            raw,
            job.segments.subrange(job.chunks()[index].0, job.chunks()[index].1),
            job.segments.last().end_secs,
        ) == Ok::<wire::NotesView, Seq<char>>(notes),
    ensures
        step(job, Ok(raw)).phase == (if index == job.chunks().len() - 1 {
            PhaseView::Reduce { seed: 0, parts: parts.push(notes) }
        } else {
            PhaseView::Chunk { index: index + 1, seed: 0, parts: parts.push(notes) }
        }),
{
}

/// A chunk that the model fails on is passed over and takes no part with it.
pub proof fn law_failed_chunk_takes_no_part(
    job: JobView,
    message: Seq<char>,
    index: int,
    seed: int,
    parts: Seq<wire::NotesView>,
)
    requires
        job.wf(),
        job.phase == (PhaseView::Chunk { index, seed, parts }),
    ensures
        index < job.chunks().len() - 1 ==> step(job, Err(message)).phase == (PhaseView::Chunk {
            index: index + 1,
            seed: 0,
            parts,
        }),
        index == job.chunks().len() - 1 && parts.len() > 0 ==> step(job, Err(message)).phase == (
        PhaseView::Reduce { seed: 0, parts }),
        index == job.chunks().len() - 1 && parts.len() == 0 ==> step(
            job,
            Err(message),
        ).phase matches PhaseView::Done(Err(_)),
{
}

/// A reply that cannot be parsed is asked for again, at most twice. After the
/// third the job goes on as if the model had failed with the reason why the last
/// reply could not be parsed.
pub proof fn law_unparseable_reply_is_retried(
    job: JobView,
    raw: Seq<char>,
    segments: Seq<wire::SegmentView>,
    seed: int,
    message: Seq<char>,
)
    requires
        job.wf(),
        match job.phase {
            PhaseView::Chunk { index, .. } => segments == job.segments.subrange(
                job.chunks()[index].0,
                job.chunks()[index].1,
            ),
            _ => segments == job.segments,
        },
        job.request() matches Some((_, tried)) && tried == seed,
        response::notes_of_response(raw, segments, job.segments.last().end_secs) == Err::<wire::NotesView, Seq<char>>(
            message,
        ),
    ensures
        0 <= seed <= 2,
        seed < 2 ==> step(job, Ok(raw)).request() == Some(((job.request()->0).0, seed + 1)),
        seed == 2 ==> step(job, Ok(raw)) == step(job, Err(message)),
{
}

/// A model that fails is not asked again: unless only a chunk is lost by it, the
/// job ends with the model's own message.
pub proof fn law_failure_is_reported(job: JobView, message: Seq<char>)
    requires
        job.wf(),
        job.phase is Single || job.phase is Reduce,
    ensures
        step(job, Err(message)).phase == PhaseView::Done(Err(message)),
{
}

/// Each reply that cannot be parsed is told of once, a chunk that is passed over
/// once more, and nothing else is.
pub proof fn law_what_is_told(
    job: JobView,
    reply: Result<Seq<char>, Seq<char>>,
    segments: Seq<wire::SegmentView>,
)
    requires
        job.wf(),
        !(job.phase is Done),
        match job.phase {
            PhaseView::Chunk { index, .. } => segments == job.segments.subrange(
                job.chunks()[index].0,
                job.chunks()[index].1,
            ),
            _ => segments == job.segments,
        },
    ensures
        ({
            let told = notices(job, reply);
            let skips = job.phase is Chunk;
            let last = (job.request()->0).1 == 2;
            match reply {
                Err(e) => if skips {
                    told.len() == 1 && e.is_suffix_of(told[0])
                } else {
                    told.len() == 0
                },
                Ok(raw) => match response::notes_of_response(raw, segments, job.segments.last().end_secs) {
                    Ok(_) => told.len() == 0,
                    Err(e) => {
                        &&& told.len() == (if skips && last {
                            2
                        } else {
                            1nat
                        })
                        &&& forall|i: int|
                            0 <= i < told.len() ==> e.is_suffix_of(#[trigger] told[i])
                    },
                },
            }
        }),
{
    match reply {
        Err(e) => {
            law_notices_give_the_reason(0, e);
            if let PhaseView::Chunk { index, seed, parts } = job.phase {
                law_notices_give_the_reason(index as nat, e);
            }
        },
        Ok(raw) => match response::notes_of_response(raw, segments, job.segments.last().end_secs) {
            Ok(_) => {},
            Err(e) => {
                law_notices_give_the_reason((job.request()->0).1 as nat, e);
                if let PhaseView::Chunk { index, seed, parts } = job.phase {
                    law_notices_give_the_reason(index as nat, e);
                }
            },
        },
    }
}

/// Where every chunk's first reply can be parsed, what is combined is the notes
/// of all the chunks, in the order of the chunks, however many there are.
pub proof fn law_all_parts_are_combined(
    job: JobView,
    replies: Seq<Seq<char>>,
    notes: Seq<wire::NotesView>,
    index: int,
    parts: Seq<wire::NotesView>,
)
    requires
        job.wf(),
        job.phase == (PhaseView::Chunk { index, seed: 0, parts }),
        replies.len() == notes.len() == job.chunks().len() - index,
        forall|i: int|
            0 <= i < replies.len() ==> response::notes_of_response(
                #[trigger] replies[i],
                job.segments.subrange(job.chunks()[index + i].0, job.chunks()[index + i].1),
                job.segments.last().end_secs,
            ) == Ok::<wire::NotesView, Seq<char>>(notes[i]),
    ensures
        run(
            job,
            Seq::new(replies.len(), |i: int| Ok::<Seq<char>, Seq<char>>(replies[i])),
        ).phase == (PhaseView::Reduce { seed: 0, parts: parts + notes }),
    decreases replies.len(),
{
    let all = Seq::new(replies.len(), |i: int| Ok::<Seq<char>, Seq<char>>(replies[i]));
    let rest = replies.drop_first();
    let later = notes.drop_first();
    assert(response::notes_of_response(
        replies[0],
        job.segments.subrange(job.chunks()[index + 0].0, job.chunks()[index + 0].1),
        job.segments.last().end_secs,
    ) == Ok::<wire::NotesView, Seq<char>>(notes[0]));
    law_part_joins_the_others(job, replies[0], index, 0, parts, notes[0]);
    law_reply_moves_on(job, Ok(replies[0]));
    let next = step(job, Ok(replies[0]));
    let after = Seq::new(rest.len(), |i: int| Ok::<Seq<char>, Seq<char>>(rest[i]));
    assert(all.drop_first() == after);
    if replies.len() == 1 {
        assert(run(next, after) == next);
        assert(parts.push(notes[0]) == parts + notes);
    } else {
        assert forall|i: int| 0 <= i < rest.len() implies response::notes_of_response(
            #[trigger] rest[i],
            next.segments.subrange(
                next.chunks()[index + 1 + i].0,
                next.chunks()[index + 1 + i].1,
            ),
            next.segments.last().end_secs,
        ) == Ok::<wire::NotesView, Seq<char>>(later[i]) by {
            assert(rest[i] == replies[i + 1]);
            assert(index + 1 + i == index + (i + 1));
        }
        law_all_parts_are_combined(next, rest, later, index + 1, parts.push(notes[0]));
        assert(parts.push(notes[0]) + later == parts + notes);
    }
}

/// The first reply to a short meeting's prompt that can be parsed is its notes,
/// as they are.
pub proof fn law_short_meeting_notes(job: JobView, raw: Seq<char>, notes: wire::NotesView)
    requires
        job.wf(),
        job.phase is Single,
        response::notes_of_response(raw, job.segments, job.segments.last().end_secs) == Ok::<
            wire::NotesView,
            Seq<char>,
        >(notes),
    ensures
        step(job, Ok(raw)).phase == PhaseView::Done(Ok(notes)),
{
}

/// Combining keeps what the model's last reply says: its summary and its billable
/// time, and of its decisions and action items only those go that have the same
/// text as one before them, white space and case aside.
pub proof fn law_combined_notes_keep_the_rest(
    job: JobView,
    raw: Seq<char>,
    notes: wire::NotesView,
    n: int,
)
    requires
        job.wf(),
        job.phase is Reduce,
        response::notes_of_response(raw, job.segments, job.segments.last().end_secs) == Ok::<
            wire::NotesView,
            Seq<char>,
        >(notes),
        n >= 0,
    ensures
        step(job, Ok(raw)).phase matches PhaseView::Done(Ok(last)) && {
            &&& last.summary == notes.summary
            &&& last.billable == notes.billable
            &&& n < notes.decisions.len() && !(exists|i: int|
                0 <= i < n && text::lowercase(
                    text::joined(text::words((#[trigger] notes.decisions[i]).text)),
                ) == text::lowercase(text::joined(text::words(notes.decisions[n].text))))
                ==> last.decisions.contains(notes.decisions[n])
            &&& n < notes.action_items.len() && !(exists|i: int|
                0 <= i < n && text::lowercase(
                    text::joined(text::words((#[trigger] notes.action_items[i]).text)),
                ) == text::lowercase(text::joined(text::words(notes.action_items[n].text))))
                ==> last.action_items.contains(notes.action_items[n])
            &&& n < last.decisions.len() ==> notes.decisions.contains(last.decisions[n])
            &&& n < last.action_items.len() ==> notes.action_items.contains(last.action_items[n])
        },
{
    lemma_deduped_member(notes.decisions, n);
    lemma_deduped_member(notes.action_items, n);
}

proof fn lemma_deduped_member(items: Seq<wire::ItemView>, n: int)
    requires
        n >= 0,
    ensures
        n < items.len() && !(exists|i: int|
            0 <= i < n && text::lowercase(text::joined(text::words((#[trigger] items[i]).text)))
                == text::lowercase(text::joined(text::words(items[n].text))))
            ==> response::deduped(items).contains(items[n]),
        n < response::deduped(items).len() ==> items.contains(response::deduped(items)[n]),
{
    let out = response::deduped(items);
    if n < items.len() && !(exists|i: int|
        0 <= i < n && text::lowercase(text::joined(text::words((#[trigger] items[i]).text)))
            == text::lowercase(text::joined(text::words(items[n].text)))) {
        response::law_item_stays_if_new(items, n);
        let k = response::deduped(items.take(n)).len() as int;
        let upto = response::deduped(items.take(n + 1));
        if n + 1 < items.len() {
            response::law_item_stays_if_new(items, n + 1);
        } else {
            assert(items.take(n + 1) == items);
        }
        assert(upto[k] == items[n]);
        assert(out[k] == items[n]);
    }
    lemma_deduped_from(items);
    if n < out.len() {
        assert(items.contains(out[n]));
    }
}

proof fn lemma_deduped_from(items: Seq<wire::ItemView>)
    ensures
        forall|k: int|
            0 <= k < response::deduped(items).len() ==> items.contains(
                #[trigger] response::deduped(items)[k],
            ),
    decreases items.len(),
{
    if items.len() > 0 {
        let front = items.drop_last();
        lemma_deduped_from(front);
        let out = response::deduped(items);
        let before = response::deduped(front);
        assert forall|k: int| 0 <= k < out.len() implies items.contains(#[trigger] out[k]) by {
            if k < before.len() {
                assert(front.contains(before[k]));
                let i = choose|i: int| 0 <= i < front.len() && front[i] == before[k];
                assert(items[i] == out[k]);
            } else {
                assert(items[items.len() - 1] == out[k]);
            }
        }
    }
}

/// A meeting whose lines fit is summarized in one pass, any other is chunked; a
/// job starts with its first attempt.
pub proof fn law_long_meetings_are_chunked(
    segments: Seq<wire::SegmentView>,
    scenario: RecordingScenario,
)
    ensures
        match first_phase(segments, scenario) {
            PhaseView::Single { seed } => seed == 0 && prompt::segment_lines(
                segments,
                scenario,
            ).len() <= 14_000,
            PhaseView::Chunk { index, seed, parts } => index == 0 && seed == 0 && parts.len() == 0
                && prompt::segment_lines(segments, scenario).len() > 14_000,
            _ => false,
        },
{
}

/// A status line about an attempt or a chunk counts it from one and ends with
/// the reason.
pub proof fn law_notices_give_the_reason(n: nat, message: Seq<char>)
    ensures
        message.is_suffix_of(attempt_notice(n as int, message)),
        message.is_suffix_of(skip_notice(n as int, message)),
        exists|start: Seq<char>, end: Seq<char>|
            attempt_notice(n as int, message) == #[trigger] (start + text::decimal(n + 1) + end),
        exists|start: Seq<char>, end: Seq<char>|
            skip_notice(n as int, message) == #[trigger] (start + text::decimal(n + 1) + end),
{
    let attempt = attempt_notice(n as int, message);
    let skip = skip_notice(n as int, message);
    assert(attempt == "attempt "@ + text::decimal(n + 1) + (" produced unparseable notes — "@
        + message));
    assert(skip == "skipping part "@ + text::decimal(n + 1) + (" — "@ + message));
}

/// A job starts on all that it is given: its transcript, its scenario and the
/// operator's context, which its first prompt repeats up to the ceiling. Whatever
/// the replies, the context of its later prompts is the same.
pub proof fn law_job_starts_with_what_it_is_given(
    segments: Seq<wire::SegmentView>,
    scenario: RecordingScenario,
    lead: Seq<char>,
    core: Seq<char>,
    tail: Seq<char>,
    replies: Seq<Result<Seq<char>, Seq<char>>>,
)
    requires
        segments.len() > 0,
        forall|i: int| 0 <= i < lead.len() ==> text::is_white_space(#[trigger] lead[i]),
        forall|i: int| 0 <= i < tail.len() ==> text::is_white_space(#[trigger] tail[i]),
        0 < core.len() <= 1_000,
        !text::is_white_space(core[0]),
        !text::is_white_space(core.last()),
    ensures
        ({
            let job = started(segments, Some(lead + core + tail), scenario);
            let later = run(job, replies);
            &&& job.wf()
            &&& job.segments == segments
            &&& job.scenario == scenario
            &&& later.segments == segments
            &&& later.scenario == scenario
            &&& later.request() matches Some(asked) ==> exists|start: Seq<char>, end: Seq<char>|
                asked.0 == #[trigger] (start + core + end)
        }),
{
    let job = started(segments, Some(lead + core + tail), scenario);
    prompt::law_context_used_up_to_the_ceiling(lead, core, tail);
    assert(job.wf()) by {
        chunk::law_chunks_cover(segments, 0);
    }
    lemma_run_keeps(job, replies);
    law_every_pass_is_told(run(job, replies), 0);
}

proof fn lemma_run_keeps(job: JobView, replies: Seq<Result<Seq<char>, Seq<char>>>)
    requires
        job.wf(),
    ensures
        run(job, replies).wf(),
        run(job, replies).segments == job.segments,
        run(job, replies).scenario == job.scenario,
        run(job, replies).context == job.context,
    decreases replies.len(),
{
    if replies.len() > 0 {
        law_reply_moves_on(job, replies[0]);
        lemma_run_keeps(step(job, replies[0]), replies.drop_first());
    }
}

} // verus!
