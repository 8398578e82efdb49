//! Notes jobs: prompts, chunks, retries and the sidecar protocol.

use std::path::PathBuf;

use scribe_engine::chunk::{chunk_ranges, rendered_len};
use scribe_engine::job::NotesJob;
use scribe_engine::notes::{sidecar_outcome, sidecar_request, WireTranscript};
use scribe_engine::prompt::{
    build_notes_prompt, build_reduce_prompt, clamped_context, format_part_notes, format_segments,
    gemma_turn, scenario_framing, NOTES_SCHEMA,
};
use scribe_engine::wire::{WireBillable, WireItem, WireNotes, WireSegment};
use scribe_engine::{
    Duration, EngineError, NoteItem, Notes, NotesGenerator, RecordingScenario,
    SidecarNotesGenerator, Speaker, Transcript, TranscriptSegment,
};

fn segment(at: u64, text: &str) -> WireSegment {
    WireSegment {
        speaker: "near".into(),
        start_secs: at,
        end_secs: at + 10,
        text: text.into(),
    }
}

fn from(speaker: &str, at: u64, text: &str) -> WireSegment {
    WireSegment { speaker: speaker.into(), ..segment(at, text) }
}

fn seg(speaker: Speaker, at: u64, text: &str) -> TranscriptSegment {
    TranscriptSegment {
        speaker,
        start: Duration::from_secs(at),
        end: Duration::from_secs(at + 15),
        text: text.to_string(),
    }
}

fn long_meeting() -> Vec<WireSegment> {
    let line = "x".repeat(100);
    (0..200).map(|i| segment(i as u64 * 10, &line)).collect()
}

const GOOD: &str = r#"{"summary": "We met.", "decisions": ["Go", "go", "Stop"],
    "billable_description": "Meeting"}"#;

#[test]
fn long_transcript_splits_into_overlapping_chunks() {
    // ~300 segments of ~100 chars each: well past one chunk.
    let line = "x".repeat(100);
    let segments: Vec<WireSegment> = (0..300).map(|i| segment(i as u64 * 10, &line)).collect();

    let ranges = chunk_ranges(&segments);
    assert!(ranges.len() > 1, "a long transcript should chunk");
    // Consecutive chunks overlap, and every segment is covered.
    assert_eq!(ranges[0].start, 0);
    assert_eq!(ranges.last().unwrap().end, segments.len());
    for pair in ranges.windows(2) {
        assert!(pair[1].start < pair[0].end, "chunks should overlap");
        assert!(pair[1].start > pair[0].start, "chunks must make progress");
    }
}

#[test]
fn short_transcript_is_a_single_chunk() {
    let segments = vec![segment(0, "hello"), segment(10, "goodbye")];
    let ranges = chunk_ranges(&segments);
    assert_eq!(ranges, vec![0..2]);
}

#[test]
fn chunks_repeat_two_segments() {
    // 116 rendered characters each: 95 segments reach the target.
    let ranges = chunk_ranges(&long_meeting());
    assert_eq!(ranges, vec![0..95, 93..188, 186..200]);
}

#[test]
fn oversized_segments_still_make_progress() {
    let big = "y".repeat(20_000);
    let segments = vec![segment(0, &big), segment(1, &big), segment(2, "end")];
    assert_eq!(chunk_ranges(&segments), vec![0..1, 1..2, 2..3]);
    assert_eq!(chunk_ranges(&[]), vec![]);
}

#[test]
fn rendered_length_counts_trimmed_characters() {
    assert_eq!(rendered_len(&segment(0, "  hello ")), 21);
    assert_eq!(rendered_len(&segment(0, "é")), 17);
    assert_eq!(rendered_len(&segment(0, " ")), 16);
}

#[test]
fn context_is_trimmed_and_clamped() {
    assert_eq!(clamped_context(&None), "");
    assert_eq!(clamped_context(&Some("  \n".into())), "");
    assert_eq!(clamped_context(&Some(" Acme call ".into())), "Acme call");
    let long = "é".repeat(1_001);
    assert_eq!(clamped_context(&Some(long)), "é".repeat(1_000));
}

#[test]
fn lines_are_labelled_only_in_a_virtual_meeting() {
    let segments = vec![from("near", 72, " hi "), from("far", 80, "yes")];
    assert_eq!(
        format_segments(&segments, RecordingScenario::VirtualMeeting),
        "[72s] Me: hi\n[80s] Other: yes\n"
    );
    for scenario in [RecordingScenario::SoloMemo, RecordingScenario::InPersonMeeting] {
        assert_eq!(format_segments(&segments, scenario), "[72s] hi\n[80s] yes\n");
    }
    assert_eq!(format_segments(&[], RecordingScenario::SoloMemo), "");
}

#[test]
fn single_microphone_lines_name_nobody() {
    let one = vec![from("near", 1, "a"), from("far", 2, "b")];
    let two = vec![from("far", 1, " a"), from("near", 2, "b ")];
    assert_eq!(
        format_segments(&one, RecordingScenario::InPersonMeeting),
        format_segments(&two, RecordingScenario::InPersonMeeting)
    );
}

#[test]
fn a_turn_leads_with_the_instructions() {
    assert_eq!(
        gemma_turn("be brief", "notes please"),
        "<start_of_turn>user\nbe brief\n\nnotes please<end_of_turn>\n<start_of_turn>model\n"
    );
}

#[test]
fn each_scenario_has_its_framing() {
    assert!(scenario_framing(RecordingScenario::SoloMemo).starts_with("This is a solo voice memo."));
    assert_eq!(
        scenario_framing(RecordingScenario::VirtualMeeting),
        "This is a transcript of a virtual meeting. \"Me\" is the professional; \
         \"Other\" is the client or counterparty."
    );
    assert!(scenario_framing(RecordingScenario::InPersonMeeting)
        .ends_with("so do not attribute any statement to a specific person."));
}

#[test]
fn a_notes_prompt_reads_as_written() {
    let segments = vec![from("far", 5, "ok")];
    let prompt =
        build_notes_prompt(&segments, "Acme", RecordingScenario::VirtualMeeting, Some((2, 3)));
    let user = format!(
        "Write notes for this transcript. {} This is part 2 of 3 of one longer recording; the \
         parts are in order. Write notes covering only this part. Its first lines may repeat the \
         end of the previous part for continuity. Background the operator gave for this \
         recording: Acme\n\nRecord only genuine decisions and concrete commitments, not every \
         statement. Each decision and action item must set \"at_seconds\" to the [Ns] timecode \
         of the line it came from. Use this exact JSON shape:\n{}\n\nTranscript:\n[5s] Other: ok\n",
        scenario_framing(RecordingScenario::VirtualMeeting),
        NOTES_SCHEMA
    );
    assert_eq!(
        prompt,
        gemma_turn(
            "You are a meeting-notes assistant for a busy professional. You read a timecoded \
             transcript and return concise, accurate notes. Reply with ONLY a single JSON object \
             and nothing else. No prose, no markdown fences.",
            &user
        )
    );
    let plain = build_notes_prompt(&segments, "", RecordingScenario::SoloMemo, None);
    assert!(!plain.contains("This is part"));
    assert!(!plain.contains("Background"));
}

#[test]
fn the_schema_is_valid_json() {
    let value = scribe_engine::json::parse_json(NOTES_SCHEMA).unwrap();
    for key in ["summary", "decisions", "action_items", "billable_description"] {
        assert!(value.get(key).is_some(), "{key}");
    }
}

#[test]
fn part_notes_are_listed_in_order() {
    let parts = vec![
        WireNotes {
            summary: " First. ".into(),
            decisions: vec![WireItem { text: "Go".into(), source_secs: Some(7) }],
            action_items: vec![WireItem { text: "Call".into(), source_secs: None }],
            billable: None,
        },
        WireNotes {
            summary: "Second.".into(),
            decisions: Vec::new(),
            action_items: Vec::new(),
            billable: None,
        },
    ];
    let text = "Part 1\nSummary: First.\nDecisions:\n- Go [7s]\nAction items:\n- Call [0s]\n\n\
                Part 2\nSummary: Second.\n\n";
    assert_eq!(format_part_notes(&parts), text);
    let prompt = build_reduce_prompt(&parts, "Acme");
    assert!(prompt.contains("Background the operator gave for this meeting: Acme\n\n"));
    assert!(prompt.ends_with(&format!(
        "Use this exact JSON shape:\n{NOTES_SCHEMA}\n\nPart notes:\n{text}<end_of_turn>\n\
         <start_of_turn>model\n"
    )));
}

#[test]
fn an_empty_transcript_starts_no_job() {
    let r = NotesJob::start(Vec::new(), None, RecordingScenario::SoloMemo);
    assert_eq!(r.unwrap_err(), "transcript is empty");
}

#[test]
fn a_short_meeting_takes_one_pass() {
    let segments = vec![segment(0, "hello"), segment(10, "goodbye")];
    let expected =
        build_notes_prompt(&segments, "Acme", RecordingScenario::VirtualMeeting, None);
    let job =
        NotesJob::start(segments, Some(" Acme ".into()), RecordingScenario::VirtualMeeting).unwrap();
    assert_eq!(job.request(), Some((expected, 0)));
    let progress = job.reply(Ok(GOOD.into()));
    assert!(progress.notices.is_empty());
    assert_eq!(progress.job.request(), None);
    let notes = progress.job.finish().unwrap().unwrap();
    // One pass keeps what the model said, duplicates and all.
    assert_eq!(notes.decisions.len(), 3);
    assert_eq!(notes.billable.unwrap().duration_secs, 20);
}

#[test]
fn a_single_pass_is_measured_in_characters() {
    // "[0s] " and the line break take six characters beside the text.
    let prompt = |len: usize| {
        let job = NotesJob::start(
            vec![segment(0, &"é".repeat(len))],
            None,
            RecordingScenario::SoloMemo,
        );
        job.unwrap().request().unwrap().0
    };
    assert!(!prompt(14_000 - 6).contains("This is part"));
    assert!(prompt(14_000 - 5).contains("This is part 1 of 1"));
}

#[test]
fn an_unfinished_job_has_no_outcome() {
    let job = NotesJob::start(vec![segment(0, "a")], None, RecordingScenario::SoloMemo).unwrap();
    assert!(job.finish().is_none());
}

#[test]
fn unparseable_notes_are_rolled_again() {
    let job = NotesJob::start(vec![segment(0, "a")], None, RecordingScenario::SoloMemo).unwrap();
    let first = job.reply(Ok("nothing".into()));
    assert_eq!(
        first.notices,
        ["attempt 1 produced unparseable notes — model response had no JSON object"]
    );
    assert_eq!(first.job.request().unwrap().1, 1);
    let second = first.job.reply(Ok("{}".into()));
    assert_eq!(
        second.notices,
        ["attempt 2 produced unparseable notes — model did not return usable notes"]
    );
    assert_eq!(second.job.request().unwrap().1, 2);
    let third = second.job.reply(Ok("{\"summary\"".into()));
    assert_eq!(
        third.job.finish().unwrap().unwrap_err(),
        "model response had no JSON object"
    );
}

#[test]
fn a_failed_run_is_not_retried() {
    let job = NotesJob::start(vec![segment(0, "a")], None, RecordingScenario::SoloMemo).unwrap();
    let progress = job.reply(Err("prompt decode failed: x".into()));
    assert!(progress.notices.is_empty());
    assert_eq!(progress.job.finish().unwrap().unwrap_err(), "prompt decode failed: x");
}

#[test]
fn a_long_meeting_is_chunked_and_combined() {
    let segments = long_meeting();
    let chunk_prompt = |range: std::ops::Range<usize>, n: usize| {
        build_notes_prompt(&segments[range], "", RecordingScenario::SoloMemo, Some((n, 3)))
    };
    let expected = [chunk_prompt(0..95, 1), chunk_prompt(93..188, 2), chunk_prompt(186..200, 3)];
    let mut job = NotesJob::start(long_meeting(), None, RecordingScenario::SoloMemo).unwrap();
    for (i, prompt) in expected.iter().enumerate() {
        assert_eq!(job.request(), Some((prompt.clone(), 0)));
        let progress = job.reply(match i {
            // The second chunk fails outright and is skipped.
            1 => Err("could not decode token: x".into()),
            _ => Ok(GOOD.into()),
        });
        if i == 1 {
            assert_eq!(progress.notices, ["skipping part 2 — could not decode token: x"]);
        } else {
            assert!(progress.notices.is_empty());
        }
        job = progress.job;
    }
    let (reduce, seed) = job.request().unwrap();
    assert!(reduce.contains("Part notes:\nPart 1\nSummary: We met.\nDecisions:\n- Go [0s]\n"));
    assert!(reduce.contains("Part 2\n"));
    assert!(!reduce.contains("Part 3\n"));
    assert_eq!(seed, 0);
    let notes = job.reply(Ok(GOOD.into())).job.finish().unwrap().unwrap();
    assert_eq!(notes.summary, "We met.");
    // Exact duplicates the model left are dropped.
    assert_eq!(notes.decisions.len(), 2);
    assert_eq!(notes.billable.unwrap().duration_secs, 2_000);
}

#[test]
fn a_part_keeps_its_citations_within_the_recording() {
    // The first chunk ends at second 950, the recording at second 2000.
    let mut job = NotesJob::start(long_meeting(), None, RecordingScenario::SoloMemo).unwrap();
    let part = r#"{"summary": "s", "decisions": [{"text": "Go", "at_seconds": 1500},
        {"text": "Stay", "at_seconds": 2001}]}"#;
    for _ in 0..3 {
        job = job.reply(Ok(part.into())).job;
    }
    let (reduce, _) = job.request().unwrap();
    assert!(reduce.contains("Part 1\nSummary: s\nDecisions:\n- Go [1500s]\n- Stay [0s]\n"));
    let notes = job.reply(Ok(part.into())).job.finish().unwrap().unwrap();
    assert_eq!(notes.decisions[0].source_secs, Some(1500));
    assert_eq!(notes.decisions[1].source_secs, None);
}

#[test]
fn a_line_fits_its_size_estimate() {
    for scenario in [RecordingScenario::VirtualMeeting, RecordingScenario::SoloMemo] {
        let line = from("far", 9_999, " ok ");
        let rendered = format_segments(&[from("far", 9_999, " ok ")], scenario);
        assert!(rendered.chars().count() <= rendered_len(&line));
    }
}

#[test]
fn a_chunk_is_skipped_after_three_attempts() {
    let mut job = NotesJob::start(long_meeting(), None, RecordingScenario::SoloMemo).unwrap();
    for attempt in 0..3 {
        assert_eq!(job.request().unwrap().1, attempt);
        let progress = job.reply(Ok("nothing".into()));
        if attempt == 2 {
            assert_eq!(
                progress.notices,
                [
                    "attempt 3 produced unparseable notes — model response had no JSON object",
                    "skipping part 1 — model response had no JSON object",
                ]
            );
        }
        job = progress.job;
    }
    assert!(job.request().unwrap().0.contains("This is part 2 of 3"));
}

#[test]
fn a_meeting_without_a_single_part_fails() {
    let mut job = NotesJob::start(long_meeting(), None, RecordingScenario::SoloMemo).unwrap();
    for _ in 0..3 {
        job = job.reply(Err("no".into())).job;
    }
    assert_eq!(
        job.finish().unwrap().unwrap_err(),
        "no part of the meeting could be summarized"
    );
}

#[test]
fn a_failed_combination_fails_the_job() {
    let mut job = NotesJob::start(long_meeting(), None, RecordingScenario::SoloMemo).unwrap();
    for _ in 0..3 {
        job = job.reply(Ok(GOOD.into())).job;
    }
    for _ in 0..3 {
        assert!(job.request().is_some());
        job = job.reply(Ok("{}".into())).job;
    }
    assert_eq!(job.finish().unwrap().unwrap_err(), "model did not return usable notes");
}

#[test]
fn a_job_ends_within_its_attempts() {
    // Three chunks and the combination, three attempts each, the last reply of
    // each good.
    let mut job = NotesJob::start(long_meeting(), None, RecordingScenario::SoloMemo).unwrap();
    let mut runs = 0;
    while let Some((_, seed)) = job.request() {
        runs += 1;
        job = job.reply(Ok(if seed == 2 { GOOD.into() } else { "?".into() })).job;
    }
    assert_eq!(runs, 12);
    assert!(job.finish().unwrap().is_ok());
}

#[test]
fn a_transcript_is_sent_in_whole_seconds() {
    let transcript = Transcript {
        segments: vec![
            TranscriptSegment {
                speaker: Speaker::Far,
                start: Duration::from_millis(1_999),
                end: Duration::from_millis(3_000),
                text: " as it is ".into(),
            },
            seg(Speaker::Near, 8, "yes"),
        ],
    };
    let wire = WireTranscript::new(&transcript, Some(" Acme "), RecordingScenario::SoloMemo);
    assert_eq!(wire.scenario, "solo_memo");
    assert_eq!(wire.context.as_deref(), Some("Acme"));
    assert_eq!(wire.segments.len(), 2);
    assert_eq!(wire.segments[0].speaker, "far");
    assert_eq!(wire.segments[0].start_secs, 1);
    assert_eq!(wire.segments[0].end_secs, 3);
    assert_eq!(wire.segments[0].text, " as it is ");
    assert_eq!(wire.segments[1].speaker, "near");
    assert_eq!(wire.segments[1].end_secs, 23);

    let wire = WireTranscript::new(&transcript, Some(" \n"), RecordingScenario::VirtualMeeting);
    assert_eq!(wire.scenario, "virtual_meeting");
    assert!(wire.context.is_none());
    let wire = WireTranscript::new(&transcript, None, RecordingScenario::InPersonMeeting);
    assert_eq!(wire.scenario, "in_person_meeting");
    assert!(wire.context.is_none());
}

#[test]
fn the_context_survives_the_protocol() {
    let transcript = Transcript { segments: vec![seg(Speaker::Near, 0, "a")] };
    let wire = WireTranscript::new(&transcript, Some("  Acme  "), RecordingScenario::SoloMemo);
    assert_eq!(clamped_context(&wire.context), clamped_context(&Some("  Acme  ".into())));
}

#[test]
fn an_empty_transcript_is_not_sent() {
    let r = sidecar_request(&Transcript::default(), None, RecordingScenario::default());
    assert!(matches!(r, Err(EngineError::Notes(m)) if m == "transcript is empty"));
    let transcript = Transcript { segments: vec![seg(Speaker::Near, 0, "a")] };
    let sent = sidecar_request(&transcript, None, RecordingScenario::default()).unwrap();
    assert_eq!(sent.scenario, "virtual_meeting");
    assert_eq!(sent.segments.len(), 1);
}

fn wire_notes() -> WireNotes {
    WireNotes {
        summary: "s".into(),
        decisions: vec![WireItem { text: "d".into(), source_secs: Some(72) }],
        action_items: vec![WireItem { text: "a".into(), source_secs: None }],
        billable: Some(WireBillable { duration_secs: 1_410, description: "b".into() }),
    }
}

#[test]
fn wire_notes_become_notes() {
    let notes = Notes::from(wire_notes());
    assert_eq!(notes.summary, "s");
    assert_eq!(notes.decisions[0].text, "d");
    assert_eq!(notes.decisions[0].source, Some(Duration::from_secs(72)));
    assert_eq!(notes.action_items[0].source, None);
    let billable = notes.billable.unwrap();
    assert_eq!(billable.duration, Duration::from_secs(1395 + 15));
    assert_eq!(billable.description, "b");
}

#[test]
fn a_sidecar_run_ends_in_notes_or_an_error() {
    let transcript = Transcript { segments: vec![seg(Speaker::Near, 1_395, "a")] };
    let ran = |success, status, parsed| sidecar_outcome(&transcript, success, status, parsed);
    let notes = ran(true, "exit status: 0", Ok(wire_notes())).unwrap();
    assert_eq!(notes.summary, "s");
    assert_eq!(notes.decisions[0].source, Some(Duration::from_secs(72)));
    let r = ran(false, "exit status: 1", Ok(wire_notes()));
    assert!(matches!(r, Err(EngineError::Notes(m)) if m == "notes sidecar exited with exit status: 1"));
    let r = ran(true, "exit status: 0", Err("EOF".into()));
    assert!(
        matches!(r, Err(EngineError::Notes(m)) if m == "could not parse notes sidecar output: EOF")
    );
}

#[test]
fn a_note_cites_no_moment_after_the_recording() {
    let cited = |transcript: &Transcript, secs: u64| {
        let wire = WireNotes {
            summary: "s".into(),
            decisions: vec![WireItem { text: "d".into(), source_secs: Some(secs) }],
            action_items: vec![WireItem { text: "a".into(), source_secs: Some(secs) }],
            billable: None,
        };
        let notes = sidecar_outcome(transcript, true, "", Ok(wire)).unwrap();
        // The line stays, whatever becomes of its source.
        assert_eq!(notes.decisions[0].text, "d");
        assert_eq!(notes.action_items[0].text, "a");
        assert_eq!(notes.decisions[0].source, notes.action_items[0].source);
        notes.decisions[0].source
    };
    let mut transcript = Transcript { segments: vec![seg(Speaker::Near, 0, "a")] };
    transcript.segments[0].end = Duration::from_millis(10_500);
    assert_eq!(cited(&transcript, 100), None);
    assert_eq!(cited(&transcript, 11), None);
    assert_eq!(cited(&transcript, 10), Some(Duration::from_secs(10)));
    assert_eq!(cited(&Transcript::default(), 1), None);
    assert_eq!(cited(&Transcript::default(), 0), Some(Duration::from_secs(0)));
}

#[test]
fn a_generator_remembers_its_paths() {
    let generator =
        SidecarNotesGenerator::new(PathBuf::from("/bin/sidecar"), PathBuf::from("/m.gguf"));
    assert_eq!(generator.sidecar, PathBuf::from("/bin/sidecar"));
    assert_eq!(generator.model, PathBuf::from("/m.gguf"));
}

struct Echo;

impl NotesGenerator for Echo {
    fn generate(
        &self,
        transcript: &Transcript,
        context: Option<&str>,
        _scenario: RecordingScenario,
    ) -> Result<Notes, EngineError> {
        Ok(Notes {
            summary: context.unwrap_or("").to_string(),
            decisions: vec![NoteItem {
                text: transcript.segments[0].text.clone(),
                source: Some(transcript.segments[0].start),
            }],
            ..Notes::default()
        })
    }
}

#[test]
fn backends_are_pluggable() {
    let backend: Box<dyn NotesGenerator> = Box::new(Echo);
    let transcript = Transcript { segments: vec![seg(Speaker::Near, 8, "hello")] };
    let notes =
        backend.generate(&transcript, Some("ctx"), RecordingScenario::VirtualMeeting).unwrap();
    assert_eq!(notes.summary, "ctx");
    assert_eq!(notes.decisions[0].source, Some(Duration::from_secs(8)));
    assert!(notes.billable.is_none());
}

/// A realistic professional-services call: a corporate-acquisition kickoff.
fn acme_transcript() -> Transcript {
    Transcript {
        segments: vec![
            seg(Speaker::Near, 8, "I want to use this first call to scope the engagement."),
            seg(Speaker::Far, 31, "We need the deal papered and closed before the end of the quarter."),
            seg(Speaker::Near, 72, "Understood. End of quarter is June 30."),
            seg(Speaker::Near, 570, "I will send a fee estimate with a not-to-exceed figure."),
            seg(Speaker::Far, 1360, "Who on your side is the day-to-day contact?"),
            seg(Speaker::Near, 1395, "Sarah Okafor, our senior associate, will run the day-to-day."),
        ],
    }
}

#[test]
fn notes_come_back_from_a_transcript() {
    let context = "Kickoff call for the Acme Corp acquisition; focus on the closing timeline.";
    let scenario = RecordingScenario::VirtualMeeting;
    let wire = sidecar_request(&acme_transcript(), Some(context), scenario).unwrap();
    let job = NotesJob::start(wire.segments, wire.context, scenario).unwrap();
    let (prompt, _) = job.request().unwrap();
    assert!(prompt.contains(context));
    assert!(prompt.contains("[31s] Other: We need the deal papered"));
    assert!(prompt.contains("[72s] Me: Understood."));

    let reply = r#"```json
        {"summary": "The parties scoped the Acme acquisition and its June 30 closing.",
         "decisions": [{"text": "Close by June 30 [72s]", "at_seconds": 72}],
         "action_items": [{"text": "Send a fee estimate", "at_seconds": "570"},],
         "billable_description": "Acquisition kickoff call"}
        ```"#;
    let outcome = job.reply(Ok(reply.into())).job.finish().unwrap();
    let notes = sidecar_outcome(&acme_transcript(), true, "exit status: 0", outcome).unwrap();

    assert!(notes.summary.len() > 20);
    assert_eq!(notes.decisions[0].text, "Close by June 30");
    assert_eq!(notes.action_items.len(), 1);
    let billable = notes.billable.expect("a billable draft");
    assert!(!billable.description.is_empty(), "empty billable description");
    // Duration is taken from the transcript, never the model.
    assert_eq!(billable.duration, Duration::from_secs(1395 + 15));
    for item in notes.decisions.iter().chain(&notes.action_items) {
        assert!(item.source.unwrap() <= Duration::from_secs(1395 + 15));
    }
}
