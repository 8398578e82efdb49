//! From what was heard to a transcript; errors, spans and text.

use std::path::Path;

use scribe_engine::error::io_message;
use scribe_engine::generation::{
    prompt_batches, Generation, CONTEXT_TOKENS, MAX_OUTPUT_TOKENS, PROMPT_BATCH,
};
use scribe_engine::text::{
    collapse_white_space, parse_u64, push_decimal, trim, white_space,
};
use scribe_engine::transcribe::{centiseconds, transcribe_channel, transcript_of, HeardSegment};
use scribe_engine::{
    Duration, EngineError, RecordingScenario, Speaker, Transcriber, Transcript,
};

fn heard(t0: i64, t1: i64, text: &str) -> HeardSegment {
    HeardSegment { text: text.into(), t0, t1 }
}

#[test]
fn centiseconds_are_hundredths() {
    assert_eq!(centiseconds(100), Duration::from_secs(1));
    assert_eq!(centiseconds(123), Duration::from_millis(1_230));
    assert_eq!(centiseconds(-5), Duration::from_secs(0));
}

#[test]
fn a_channel_is_attributed_and_trimmed() {
    let segments = transcribe_channel(
        &vec![heard(0, 150, " Hello "), heard(150, 200, " \u{a0}"), heard(-3, 300, "you.")],
        Speaker::Far,
    );
    assert_eq!(segments.len(), 2);
    assert_eq!(segments[0].text, "Hello");
    assert_eq!(segments[0].end, Duration::from_millis(1_500));
    assert_eq!(segments[1].text, "you.");
    assert_eq!(segments[1].start, Duration::from_secs(0));
    assert!(segments.iter().all(|s| s.speaker == Speaker::Far));
}

#[test]
fn a_blank_segment_may_have_any_time() {
    assert!(transcribe_channel(&vec![heard(i64::MAX, i64::MAX, " ")], Speaker::Near).is_empty());
}

fn said(transcript: &Transcript) -> Vec<(Speaker, u64, &str)> {
    transcript.segments.iter().map(|s| (s.speaker, s.start.as_secs(), s.text.as_str())).collect()
}

#[test]
fn two_channels_become_one_timeline() {
    let near = vec![heard(0, 100, "a"), heard(500, 600, "c"), heard(500, 700, "d")];
    let far = vec![heard(300, 400, "b"), heard(500, 550, "e"), heard(900, 950, "f")];
    let transcript = transcript_of(&near, &far, RecordingScenario::VirtualMeeting);
    // Equal starts keep their order, the near end first.
    assert_eq!(
        said(&transcript),
        [
            (Speaker::Near, 0, "a"),
            (Speaker::Far, 3, "b"),
            (Speaker::Near, 5, "c"),
            (Speaker::Near, 5, "d"),
            (Speaker::Far, 5, "e"),
            (Speaker::Far, 9, "f"),
        ]
    );
    let mut prev = Duration::from_secs(0);
    for segment in &transcript.segments {
        assert!(segment.start >= prev);
        assert!(segment.end >= segment.start);
        prev = segment.start;
    }
}

#[test]
fn a_channel_out_of_order_is_sorted() {
    let near = vec![heard(300, 400, "late"), heard(100, 200, "early")];
    let transcript = transcript_of(&near, &Vec::new(), RecordingScenario::SoloMemo);
    assert_eq!(said(&transcript), [(Speaker::Near, 1, "early"), (Speaker::Near, 3, "late")]);
}

#[test]
fn only_a_virtual_meeting_reads_the_far_channel() {
    let near = vec![heard(0, 100, "a")];
    let far = vec![heard(0, 100, "b")];
    for scenario in [RecordingScenario::SoloMemo, RecordingScenario::InPersonMeeting] {
        assert!(!scenario.captures_system_audio());
        let transcript = transcript_of(&near, &far, scenario);
        assert_eq!(said(&transcript), [(Speaker::Near, 0, "a")]);
    }
    assert!(RecordingScenario::VirtualMeeting.captures_system_audio());
    let transcript = transcript_of(&near, &far, RecordingScenario::VirtualMeeting);
    assert_eq!(said(&transcript), [(Speaker::Near, 0, "a"), (Speaker::Far, 0, "b")]);
}

struct Silent;

impl Transcriber for Silent {
    fn transcribe(
        &self,
        recording: &Path,
        _scenario: RecordingScenario,
    ) -> Result<Transcript, EngineError> {
        if recording == Path::new("missing.wav") {
            return Err(EngineError::Transcribe("could not open recording: missing".into()));
        }
        Ok(Transcript::default())
    }
}

#[test]
fn transcribers_are_pluggable() {
    let backend: Box<dyn Transcriber> = Box::new(Silent);
    let scenario = RecordingScenario::default();
    assert_eq!(scenario, RecordingScenario::VirtualMeeting);
    assert!(backend.transcribe(Path::new("a.wav"), scenario).unwrap().segments.is_empty());
    let error = backend.transcribe(Path::new("missing.wav"), scenario).unwrap_err();
    assert_eq!(error.message(), "transcription failed: could not open recording: missing");
}

#[test]
fn errors_say_which_subsystem_failed() {
    assert_eq!(EngineError::Capture("a".into()).message(), "audio capture failed: a");
    assert_eq!(EngineError::Transcribe("b".into()).message(), "transcription failed: b");
    assert_eq!(EngineError::Notes("c".into()).message(), "note generation failed: c");
    let io = std::io::Error::new(std::io::ErrorKind::Other, "disk full");
    assert_eq!(EngineError::from(io).message(), "i/o error: disk full");
    assert_eq!(io_message("gone"), "i/o error: gone");
}

#[test]
fn spans_are_ordered_by_length() {
    assert!(Duration::from_secs(1) < Duration::from_millis(1_001));
    assert!(Duration::from_secs(2) > Duration::from_millis(1_999));
    assert!(Duration::new(1, 500_000_000) >= Duration::from_millis(1_500));
    assert!(Duration::new(1, 1) > Duration::from_secs(1));
    assert_eq!(Duration::new(1, 2_500_000_000), Duration::from_millis(3_500));
    assert_eq!(Duration::from_millis(1_999).as_secs(), 1);
    assert_eq!(Duration::from_millis(1_999).subsec_nanos(), 999_000_000);
}

#[test]
fn white_space_is_what_unicode_says() {
    for code in 0..=0x10ffff_u32 {
        if let Some(c) = char::from_u32(code) {
            assert_eq!(white_space(c), c.is_whitespace(), "{code:x}");
        }
    }
}

#[test]
fn text_helpers_agree_with_std() {
    for s in ["", " ", " a b ", "\u{3000}x\u{85}", "a  b\tc\n", "\u{200b}x", "éa "] {
        assert_eq!(trim(s), s.trim());
        let words: Vec<&str> = s.split_whitespace().collect();
        assert_eq!(collapse_white_space(s), words.join(" "));
    }
    for s in ["0", "007", "+5", "-5", "", "+", " 5", "5 ", "1a", "18446744073709551615",
        "18446744073709551616", "99999999999999999999999", "٣"]
    {
        assert_eq!(parse_u64(s), s.parse::<u64>().ok(), "{s:?}");
    }
}

#[test]
fn decimals_read_back() {
    for n in [0, 7, 10, 999, 1_000_000, u64::MAX] {
        let mut out = String::from("n=");
        push_decimal(&mut out, n);
        assert_eq!(out, format!("n={n}"));
        assert_eq!(parse_u64(&out[2..]), Some(n));
    }
}

#[test]
fn a_prompt_is_fed_in_batches() {
    let tokens: Vec<u32> = (100..100 + 5_000).collect();
    let batches = prompt_batches(&tokens).unwrap();
    let sizes: Vec<usize> = batches.iter().map(Vec::len).collect();
    assert_eq!(sizes, [PROMPT_BATCH, PROMPT_BATCH, 5_000 - 2 * PROMPT_BATCH]);
    let fed: Vec<_> = batches.into_iter().flatten().collect();
    for (i, feed) in fed.iter().enumerate() {
        assert_eq!(feed.token, tokens[i]);
        assert_eq!(feed.position, i as i32);
        assert_eq!(feed.wanted, i == tokens.len() - 1);
    }
    assert_eq!(prompt_batches(&[1]).unwrap().len(), 1);
    assert_eq!(prompt_batches(&vec![0; PROMPT_BATCH]).unwrap().len(), 1);
    assert_eq!(prompt_batches(&vec![0; PROMPT_BATCH + 1]).unwrap().len(), 2);
}

#[test]
fn a_prompt_leaves_room_for_its_reply() {
    let room = CONTEXT_TOKENS - MAX_OUTPUT_TOKENS;
    assert!(prompt_batches(&vec![0; room - 1]).is_ok());
    assert_eq!(
        prompt_batches(&vec![0; room]).unwrap_err(),
        "a prompt is too long for the context window"
    );
}

#[test]
fn a_reply_grows_token_by_token() {
    let mut reply = Generation::start(7);
    // A character may be split over two tokens.
    for (i, piece) in [&b"na\xc3"[..], &b"\xafve"[..]].into_iter().enumerate() {
        assert!(reply.wants_token());
        let (next, position) = reply.accept(piece);
        assert_eq!(position, 7 + i as i32);
        reply = next;
    }
    let reply = reply.end();
    assert!(!reply.wants_token());
    assert_eq!(reply.into_text(), "naïve");
}

#[test]
fn a_reply_ends_at_its_limit() {
    let mut reply = Generation::start(CONTEXT_TOKENS - MAX_OUTPUT_TOKENS - 1);
    let mut last = 0;
    while reply.wants_token() {
        (reply, last) = reply.accept(b"x");
    }
    assert_eq!(last as usize, CONTEXT_TOKENS - 2);
    assert_eq!(reply.into_text().len(), MAX_OUTPUT_TOKENS);
}

#[test]
fn ill_formed_bytes_are_replaced() {
    let (reply, _) = Generation::start(1).accept(b"a\xffb");
    assert_eq!(reply.into_text(), "a\u{fffd}b");
}
