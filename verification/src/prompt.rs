//! The prompts put to the notes model.

use vstd::prelude::*;

use crate::model::RecordingScenario;
use crate::text;
use crate::text::{chars_of, push_decimal, string_of, trim};
use crate::wire;
use crate::wire::{WireItem, WireNotes, WireSegment};

verus! {

/// Hard ceiling on operator-supplied context, in characters.
pub const MAX_CONTEXT_CHARS: usize = 1_000;

/// The notes JSON shape, asked for by both the per-chunk and the final reduce
/// passes.
pub const NOTES_SCHEMA: &'static str = "{\n  \"summary\": \"two or three sentences describing the meeting\",\n  \"decisions\": [{\"text\": \"a decision that was made\", \"at_seconds\": 0}],\n  \"action_items\": [{\"text\": \"a task someone committed to\", \"at_seconds\": 0}],\n  \"billable_description\": \"one short line describing the work, for a time entry\"\n}";

/// The instructions of a notes pass.
pub const NOTES_SYSTEM: &'static str = "You are a meeting-notes assistant for a busy professional. You read a timecoded transcript and return concise, accurate notes. Reply with ONLY a single JSON object and nothing else. No prose, no markdown fences.";

/// What a notes pass is asked, up to the schema.
pub const NOTES_REQUEST: &'static str = "Record only genuine decisions and concrete commitments, not every statement. Each decision and action item must set \"at_seconds\" to the [Ns] timecode of the line it came from. Use this exact JSON shape:\n";

/// The instructions of the reduce pass.
pub const REDUCE_SYSTEM: &'static str = "You combine notes from consecutive parts of one meeting into one final set of notes. Merge duplicate and near-duplicate items. Reply with ONLY a single JSON object and nothing else. No prose, no markdown fences.";

/// What the reduce pass is asked, up to the background.
pub const REDUCE_REQUEST: &'static str = "Below are notes from consecutive parts of one meeting, in order. Produce the final combined notes for the whole meeting: one summary of three to five sentences, the key decisions, the action items, and a billable-time description. Merge items that repeat across parts, and keep an \"at_seconds\" timecode for each. ";

/// How to read the two sides of a virtual meeting.
pub const VIRTUAL_FRAMING: &'static str = "This is a transcript of a virtual meeting. \"Me\" is the professional; \"Other\" is the client or counterparty.";

/// How to read a memo.
pub const SOLO_FRAMING: &'static str = "This is a solo voice memo. The professional is speaking alone, with no one else present. Treat every line as the professional's own dictation: their notes, decisions, and reminders to themselves.";

/// How to read a room on one microphone.
pub const ROOM_FRAMING: &'static str = "This transcript was recorded on a single microphone, in a room or on a phone call on speaker. More than one person is speaking and the transcript does not identify who said what, so do not attribute any statement to a specific person.";

// --- context ---------------------------------------------------------

/// The operator's context as it is used: trimmed, and cut to the ceiling.
pub open spec fn clamped(context: Option<Seq<char>>) -> Seq<char> {
    match context {
        Some(c) => {
            let t = text::trimmed(c);
            if t.len() <= MAX_CONTEXT_CHARS {
                t
            } else {
                t.take(MAX_CONTEXT_CHARS as int)
            }
        },
        None => Seq::empty(),
    }
}

/// What an optional string says.
pub open spec fn optional_text(s: Option<String>) -> Option<Seq<char>> {
    match s {
        Some(t) => Some(t@),
        None => None,
    }
}

/// Renders the operator's optional context, trimmed and clamped.
pub fn clamped_context(context: &Option<String>) -> (out: String)
    ensures
        out@ == clamped(optional_text(*context)),
        out@.len() <= MAX_CONTEXT_CHARS,
{
    match context {
        Some(c) => {
            let chars = chars_of(trim(c.as_str()));
            let to = if chars.len() <= MAX_CONTEXT_CHARS {
                chars.len()
            } else {
                MAX_CONTEXT_CHARS
            };
            assert(chars@.subrange(0, to as int) == clamped(Some(c@)));
            string_of(&chars, 0, to)
        },
        None => String::new(),
    }
}

/// The operator's context is used from its beginning, without the white space
/// around it: the whole of it up to the ceiling, and just as much as the ceiling
/// allows beyond.
pub proof fn law_context_used_up_to_the_ceiling(
    lead: Seq<char>,
    core: Seq<char>,
    tail: Seq<char>,
)
    requires
        forall|i: int| 0 <= i < lead.len() ==> text::is_white_space(#[trigger] lead[i]),
        forall|i: int| 0 <= i < tail.len() ==> text::is_white_space(#[trigger] tail[i]),
        core.len() > 0 ==> !text::is_white_space(core[0]) && !text::is_white_space(core.last()),
    ensures
        clamped(Some(lead + core + tail)).is_prefix_of(core),
        core.len() <= 1_000 ==> clamped(Some(lead + core + tail)) == core,
        core.len() > 1_000 ==> clamped(Some(lead + core + tail)).len() == 1_000,
        clamped(None).len() == 0,
{
    text::law_trimmed_keeps_the_text(lead, core, tail);
}

// --- the transcript --------------------------------------------------

/// How a line names who speaks. Only a virtual meeting has a channel for each
/// side.
pub open spec fn speaker_label(segment: wire::SegmentView, scenario: RecordingScenario) -> Seq<
    char,
> {
    match scenario {
        RecordingScenario::VirtualMeeting => if segment.speaker == "near"@ {
            "Me: "@
        } else {
            "Other: "@
        },
        _ => Seq::empty(),
    }
}

/// One transcript line.
pub open spec fn segment_line(segment: wire::SegmentView, scenario: RecordingScenario) -> Seq<
    char,
> {
    "["@ + text::decimal(segment.start_secs as nat) + "s] "@ + speaker_label(segment, scenario)
        + text::trimmed(segment.text) + "\n"@
}

/// The transcript lines, in order.
pub open spec fn segment_lines(
    segments: Seq<wire::SegmentView>,
    scenario: RecordingScenario,
) -> Seq<char>
    decreases segments.len(),
{
    if segments.len() == 0 {
        Seq::empty()
    } else {
        segment_lines(segments.drop_last(), scenario) + segment_line(segments.last(), scenario)
    }
}

/// Renders segments as transcript lines. A virtual meeting has two channels,
/// so its lines carry a `Me:` / `Other:` speaker label; the single-microphone
/// scenarios have no reliable per-speaker channel, so their lines carry only a
/// timecode.
pub fn format_segments(segments: &[WireSegment], scenario: RecordingScenario) -> (out: String)
    ensures
        out@ == segment_lines(wire::segment_views(segments@), scenario),
{
    let ghost views = wire::segment_views(segments@);
    let near = "near".to_string();
    let mut out = String::new();
    let mut i: usize = 0;
    assert(views.take(0) == Seq::<wire::SegmentView>::empty());
    while i < segments.len()
        invariant
            i <= segments@.len(),
            views == wire::segment_views(segments@),
            near@ == "near"@,
            out@ == segment_lines(views.take(i as int), scenario),
        decreases segments@.len() - i,
    {
        let segment = &segments[i];
        let ghost before = out@;
        out.append("[");
        push_decimal(&mut out, segment.start_secs);
        out.append("s] ");
        if matches!(scenario, RecordingScenario::VirtualMeeting) {
            if segment.speaker == near {
                out.append("Me: ");
            } else {
                out.append("Other: ");
            }
        }
        out.append(trim(segment.text.as_str()));
        out.append("\n");
        proof {
            assert(views.take(i + 1).drop_last() == views.take(i as int));
            assert(views.take(i + 1).last() == segment@);
            assert(out@ == before + segment_line(segment@, scenario));
        }
        i += 1;
    }
    assert(views.take(i as int) == views);
    out
}

/// A line names the moment and says the whole text, without the white space
/// around it. In a virtual meeting it names the speaker's side: `Me` for the
/// near end, `Other` for any other.
pub proof fn law_line_says_it_all(
    segment: wire::SegmentView,
    scenario: RecordingScenario,
    lead: Seq<char>,
    core: Seq<char>,
    tail: Seq<char>,
)
    requires
        segment.text == lead + core + tail,
        forall|i: int| 0 <= i < lead.len() ==> text::is_white_space(#[trigger] lead[i]),
        forall|i: int| 0 <= i < tail.len() ==> text::is_white_space(#[trigger] tail[i]),
        core.len() > 0 ==> !text::is_white_space(core[0]) && !text::is_white_space(core.last()),
    ensures
        scenario == RecordingScenario::VirtualMeeting && segment.speaker == "near"@
            ==> segment_line(segment, scenario) == "["@ + text::decimal(segment.start_secs as nat)
            + "s] "@ + "Me: "@ + core + "\n"@,
        scenario == RecordingScenario::VirtualMeeting && segment.speaker != "near"@
            ==> segment_line(segment, scenario) == "["@ + text::decimal(segment.start_secs as nat)
            + "s] "@ + "Other: "@ + core + "\n"@,
        scenario != RecordingScenario::VirtualMeeting ==> segment_line(segment, scenario) == "["@
            + text::decimal(segment.start_secs as nat) + "s] "@ + core + "\n"@,
{
    text::law_trimmed_keeps_the_text(lead, core, tail);
    if scenario != RecordingScenario::VirtualMeeting {
        assert(segment_line(segment, scenario) == "["@ + text::decimal(segment.start_secs as nat)
            + "s] "@ + core + "\n"@);
    }
}

/// The lines of a transcript are those of its beginning and then those of its
/// rest, wherever it is cut: no segment is left out, and none changes its place.
pub proof fn law_lines_in_two(
    a: Seq<wire::SegmentView>,
    b: Seq<wire::SegmentView>,
    scenario: RecordingScenario,
)
    ensures
        segment_lines(a + b, scenario) == segment_lines(a, scenario) + segment_lines(b, scenario),
        b.len() == 1 ==> segment_lines(b, scenario) == segment_line(b[0], scenario),
    decreases b.len(),
{
    if b.len() == 0 {
        assert(a + b == a);
        assert(segment_lines(a, scenario) + segment_lines(b, scenario) == segment_lines(
            a,
            scenario,
        ));
    } else {
        law_lines_in_two(a, b.drop_last(), scenario);
        assert((a + b).drop_last() == a + b.drop_last());
        assert((a + b).last() == b.last());
        if b.len() == 1 {
            assert(segment_lines(b.drop_last(), scenario) == Seq::<char>::empty());
            assert(segment_lines(b, scenario) == segment_line(b[0], scenario));
        }
    }
}

/// Every segment of a transcript has its line among the lines.
pub proof fn law_every_segment_has_its_line(
    segments: Seq<wire::SegmentView>,
    scenario: RecordingScenario,
    i: int,
)
    requires
        0 <= i < segments.len(),
    ensures
        segment_lines(segments, scenario) == segment_lines(segments.take(i), scenario)
            + segment_line(segments[i], scenario) + segment_lines(segments.skip(i + 1), scenario),
{
    let one = seq![segments[i]];
    assert(segments == segments.take(i) + one + segments.skip(i + 1));
    law_lines_in_two(segments.take(i) + one, segments.skip(i + 1), scenario);
    law_lines_in_two(segments.take(i), one, scenario);
}

/// The lines of a recording with a single microphone do not depend on who is
/// said to speak.
pub proof fn law_single_microphone_names_nobody(
    one: Seq<wire::SegmentView>,
    two: Seq<wire::SegmentView>,
    scenario: RecordingScenario,
)
    requires
        scenario != RecordingScenario::VirtualMeeting,
        one.len() == two.len(),
        forall|i: int|
            0 <= i < one.len() ==> (#[trigger] one[i]).start_secs == two[i].start_secs
                && text::trimmed(one[i].text) == text::trimmed(two[i].text),
    ensures
        segment_lines(one, scenario) == segment_lines(two, scenario),
    decreases one.len(),
{
    if one.len() > 0 {
        assert forall|i: int| 0 <= i < one.drop_last().len() implies (#[trigger] one.drop_last()[i]).start_secs
            == two.drop_last()[i].start_secs && text::trimmed(one.drop_last()[i].text)
            == text::trimmed(two.drop_last()[i].text) by {
            assert(one[i].start_secs == two[i].start_secs);
        }
        law_single_microphone_names_nobody(one.drop_last(), two.drop_last(), scenario);
        assert(one[one.len() - 1].start_secs == two[two.len() - 1].start_secs);
    }
}

// --- the prompts -----------------------------------------------------

/// A system and a user message in Gemma's prompt format.
pub open spec fn turn(system: Seq<char>, user: Seq<char>) -> Seq<char> {
    "<start_of_turn>user\n"@ + system + "\n\n"@ + user
        + "<end_of_turn>\n<start_of_turn>model\n"@
}

/// Wraps a system and a user message in Gemma's prompt format. Gemma has no
/// system role, so the instructions lead the single user turn.
pub fn gemma_turn(system: &str, user: &str) -> (out: String)
    ensures
        out@ == turn(system@, user@),
{
    let mut out = "<start_of_turn>user\n".to_string();
    out.append(system);
    out.append("\n\n");
    out.append(user);
    out.append("<end_of_turn>\n<start_of_turn>model\n");
    out
}

/// The sentence that tells the model how to read the transcript.
pub open spec fn framing(scenario: RecordingScenario) -> Seq<char> {
    match scenario {
        RecordingScenario::VirtualMeeting => VIRTUAL_FRAMING@,
        RecordingScenario::SoloMemo => SOLO_FRAMING@,
        RecordingScenario::InPersonMeeting => ROOM_FRAMING@,
    }
}

/// How the notes model should read the transcript: one sentence of framing,
/// chosen by the recording scenario.
pub fn scenario_framing(scenario: RecordingScenario) -> (out: &'static str)
    ensures
        out@ == framing(scenario),
{
    match scenario {
        RecordingScenario::VirtualMeeting => VIRTUAL_FRAMING,
        RecordingScenario::SoloMemo => SOLO_FRAMING,
        RecordingScenario::InPersonMeeting => ROOM_FRAMING,
    }
}

/// The words about which part of a longer recording this is.
pub open spec fn scope(part: Option<(nat, nat)>) -> Seq<char> {
    match part {
        Some((n, total)) => "This is part "@ + text::decimal(n) + " of "@ + text::decimal(total)
            + " of one longer recording; the parts are in order. Write notes covering only this part. Its first lines may repeat the end of the previous part for continuity. "@,
        None => Seq::empty(),
    }
}

/// The words about the operator's context; none if there is no context.
pub open spec fn background(lead: Seq<char>, context: Seq<char>) -> Seq<char> {
    if context.len() == 0 {
        Seq::empty()
    } else {
        lead + context + "\n\n"@
    }
}

/// The user message of a notes pass.
pub open spec fn notes_message(
    segments: Seq<wire::SegmentView>,
    context: Seq<char>,
    scenario: RecordingScenario,
    part: Option<(nat, nat)>,
) -> Seq<char> {
    "Write notes for this transcript. "@ + framing(scenario) + " "@ + scope(part) + background(
        "Background the operator gave for this recording: "@,
        context,
    ) + NOTES_REQUEST@ + NOTES_SCHEMA@ + "\n\nTranscript:\n"@ + segment_lines(segments, scenario)
}

/// The prompt of a notes pass.
pub open spec fn notes_prompt(
    segments: Seq<wire::SegmentView>,
    context: Seq<char>,
    scenario: RecordingScenario,
    part: Option<(nat, nat)>,
) -> Seq<char> {
    turn(NOTES_SYSTEM@, notes_message(segments, context, scenario, part))
}

/// What a part number says.
pub open spec fn part_view(part: Option<(usize, usize)>) -> Option<(nat, nat)> {
    match part {
        Some((n, total)) => Some((n as nat, total as nat)),
        None => None,
    }
}

spec fn notes_opening() -> Seq<char> {
    "<start_of_turn>user\n"@ + NOTES_SYSTEM@ + "\n\n"@ + "Write notes for this transcript. "@
}

spec fn notes_told(context: Seq<char>) -> Seq<char> {
    background("Background the operator gave for this recording: "@, context)
}

proof fn lemma_notes_prompt(
    segments: Seq<wire::SegmentView>,
    context: Seq<char>,
    scenario: RecordingScenario,
    part: Option<(nat, nat)>,
)
    ensures
        notes_prompt(segments, context, scenario, part) == notes_opening() + framing(scenario)
            + " "@ + scope(part) + notes_told(context) + NOTES_REQUEST@ + NOTES_SCHEMA@
            + "\n\nTranscript:\n"@ + segment_lines(segments, scenario)
            + "<end_of_turn>\n<start_of_turn>model\n"@,
{
    let head = "<start_of_turn>user\n"@ + NOTES_SYSTEM@ + "\n\n"@;
    let w = "Write notes for this transcript. "@;
    let rest = framing(scenario);
    let body = w + rest + " "@ + scope(part) + notes_told(context) + NOTES_REQUEST@ + NOTES_SCHEMA@
        + "\n\nTranscript:\n"@ + segment_lines(segments, scenario);
    assert(notes_message(segments, context, scenario, part) == body);
    let a = notes_opening() + rest;
    assert(head + (w + rest) == a);
    lemma_prepend(head, w + rest, " "@);
    lemma_prepend(head, w + rest + " "@, scope(part));
    lemma_prepend(head, w + rest + " "@ + scope(part), notes_told(context));
    lemma_prepend(head, w + rest + " "@ + scope(part) + notes_told(context), NOTES_REQUEST@);
    lemma_prepend(
        head,
        w + rest + " "@ + scope(part) + notes_told(context) + NOTES_REQUEST@,
        NOTES_SCHEMA@,
    );
    lemma_prepend(
        head,
        w + rest + " "@ + scope(part) + notes_told(context) + NOTES_REQUEST@ + NOTES_SCHEMA@,
        "\n\nTranscript:\n"@,
    );
    lemma_prepend(
        head,
        w + rest + " "@ + scope(part) + notes_told(context) + NOTES_REQUEST@ + NOTES_SCHEMA@
            + "\n\nTranscript:\n"@,
        segment_lines(segments, scenario),
    );
}

proof fn lemma_prepend(a: Seq<char>, b: Seq<char>, c: Seq<char>)
    ensures
        a + (b + c) == (a + b) + c,
{
    assert(a + (b + c) == (a + b) + c);
}

/// A notes prompt tells the model how to read a recording of its scenario, and
/// ends with all the lines of the segments, rendered for that scenario.
pub proof fn law_prompt_reads_its_scenario(
    segments: Seq<wire::SegmentView>,
    context: Seq<char>,
    scenario: RecordingScenario,
    part: Option<(nat, nat)>,
)
    ensures
        framing(scenario) == (match scenario {
            RecordingScenario::VirtualMeeting => VIRTUAL_FRAMING@,
            RecordingScenario::SoloMemo => SOLO_FRAMING@,
            RecordingScenario::InPersonMeeting => ROOM_FRAMING@,
        }),
        exists|start: Seq<char>, middle: Seq<char>|
            notes_prompt(segments, context, scenario, part) == #[trigger] (start + framing(
                scenario,
            ) + middle + segment_lines(segments, scenario)
                + "<end_of_turn>\n<start_of_turn>model\n"@),
{
    lemma_notes_prompt(segments, context, scenario, part);
    let a = notes_opening() + framing(scenario);
    let middle = " "@ + scope(part) + notes_told(context) + NOTES_REQUEST@ + NOTES_SCHEMA@
        + "\n\nTranscript:\n"@;
    lemma_prepend(a, " "@, scope(part));
    lemma_prepend(a, " "@ + scope(part), notes_told(context));
    lemma_prepend(a, " "@ + scope(part) + notes_told(context), NOTES_REQUEST@);
    lemma_prepend(a, " "@ + scope(part) + notes_told(context) + NOTES_REQUEST@, NOTES_SCHEMA@);
    lemma_prepend(
        a,
        " "@ + scope(part) + notes_told(context) + NOTES_REQUEST@ + NOTES_SCHEMA@,
        "\n\nTranscript:\n"@,
    );
    assert(notes_prompt(segments, context, scenario, part) == notes_opening() + framing(scenario)
        + middle + segment_lines(segments, scenario) + "<end_of_turn>\n<start_of_turn>model\n"@);
}

/// A notes prompt holds the whole of the operator's context.
pub proof fn law_prompt_holds_the_context(
    segments: Seq<wire::SegmentView>,
    context: Seq<char>,
    scenario: RecordingScenario,
    part: Option<(nat, nat)>,
)
    requires
        context.len() > 0,
    ensures
        exists|start: Seq<char>, end: Seq<char>|
            notes_prompt(segments, context, scenario, part) == #[trigger] (start + context + end),
{
    lemma_notes_prompt(segments, context, scenario, part);
    let lead = "Background the operator gave for this recording: "@;
    let before = notes_opening() + framing(scenario) + " "@ + scope(part);
    let after = NOTES_REQUEST@ + NOTES_SCHEMA@ + "\n\nTranscript:\n"@ + segment_lines(
        segments,
        scenario,
    ) + "<end_of_turn>\n<start_of_turn>model\n"@;
    lemma_append_five(
        before + notes_told(context),
        NOTES_REQUEST@,
        NOTES_SCHEMA@,
        "\n\nTranscript:\n"@,
        segment_lines(segments, scenario),
        "<end_of_turn>\n<start_of_turn>model\n"@,
    );
    assert(before + (lead + context + "\n\n"@) + after == (before + lead) + context + ("\n\n"@
        + after));
}

proof fn lemma_append_five(
    a: Seq<char>,
    b: Seq<char>,
    c: Seq<char>,
    d: Seq<char>,
    e: Seq<char>,
    f: Seq<char>,
)
    ensures
        a + b + c + d + e + f == a + (b + c + d + e + f),
{
    lemma_prepend(a, b, c);
    lemma_prepend(a, b + c, d);
    lemma_prepend(a, b + c + d, e);
    lemma_prepend(a, b + c + d + e, f);
}

/// A prompt about a part of a recording says which part it is and of how many.
pub proof fn law_prompt_numbers_its_part(
    segments: Seq<wire::SegmentView>,
    context: Seq<char>,
    scenario: RecordingScenario,
    n: nat,
    total: nat,
)
    ensures
        exists|start: Seq<char>, end: Seq<char>|
            notes_prompt(segments, context, scenario, Some((n, total))) == #[trigger] (start
                + ("This is part "@ + text::decimal(n) + " of "@ + text::decimal(total)) + end),
{
    let part = Some((n, total));
    lemma_notes_prompt(segments, context, scenario, part);
    let tail = " of one longer recording; the parts are in order. Write notes covering only this part. Its first lines may repeat the end of the previous part for continuity. "@;
    let numbered = "This is part "@ + text::decimal(n) + " of "@ + text::decimal(total);
    let before = notes_opening() + framing(scenario) + " "@;
    let after = NOTES_REQUEST@ + NOTES_SCHEMA@ + "\n\nTranscript:\n"@ + segment_lines(
        segments,
        scenario,
    ) + "<end_of_turn>\n<start_of_turn>model\n"@;
    lemma_append_five(
        before + scope(part) + notes_told(context),
        NOTES_REQUEST@,
        NOTES_SCHEMA@,
        "\n\nTranscript:\n"@,
        segment_lines(segments, scenario),
        "<end_of_turn>\n<start_of_turn>model\n"@,
    );
    assert(scope(part) == numbered + tail);
    assert(before + (numbered + tail) + notes_told(context) + after == before + numbered + (tail
        + notes_told(context) + after));
}

/// A notes prompt shows the shape to answer in.
pub proof fn law_prompt_shows_the_shape(
    segments: Seq<wire::SegmentView>,
    context: Seq<char>,
    scenario: RecordingScenario,
    part: Option<(nat, nat)>,
)
    ensures
        exists|start: Seq<char>, end: Seq<char>|
            notes_prompt(segments, context, scenario, part) == #[trigger] (start + NOTES_SCHEMA@
                + end),
{
    lemma_notes_prompt(segments, context, scenario, part);
    let before = notes_opening() + framing(scenario) + " "@ + scope(part) + notes_told(context)
        + NOTES_REQUEST@;
    let lines = segment_lines(segments, scenario);
    let closing = "<end_of_turn>\n<start_of_turn>model\n"@;
    assert(before + NOTES_SCHEMA@ + "\n\nTranscript:\n"@ + lines + closing == before
        + NOTES_SCHEMA@ + ("\n\nTranscript:\n"@ + lines + closing));
}

fn append_background(out: &mut String, lead: &str, context: &str)
    ensures
        final(out)@ == old(out)@ + background(lead@, context@),
{
    if !context.is_empty() {
        out.append(lead);
        out.append(context);
        out.append("\n\n");
    }
    assert(out@ == old(out)@ + background(lead@, context@));
}

/// Builds the notes prompt for a whole short transcript (`part` is `None`) or
/// one chunk of a long one (`part` is `Some((n, total))`).
pub fn build_notes_prompt(
    segments: &[WireSegment],
    context: &str,
    scenario: RecordingScenario,
    part: Option<(usize, usize)>,
) -> (out: String)
    ensures
        out@ == notes_prompt(wire::segment_views(segments@), context@, scenario, part_view(part)),
{
    let mut user = "Write notes for this transcript. ".to_string();
    user.append(scenario_framing(scenario));
    user.append(" ");
    let ghost before = user@;
    if let Some((n, total)) = part {
        user.append("This is part ");
        push_decimal(&mut user, n as u64);
        user.append(" of ");
        push_decimal(&mut user, total as u64);
        user.append(
            " of one longer recording; the parts are in order. Write notes covering only this part. Its first lines may repeat the end of the previous part for continuity. ",
        );
    }
    assert(user@ == before + scope(part_view(part)));
    append_background(&mut user, "Background the operator gave for this recording: ", context);
    user.append(NOTES_REQUEST);
    user.append(NOTES_SCHEMA);
    user.append("\n\nTranscript:\n");
    let lines = format_segments(segments, scenario);
    user.append(lines.as_str());
    gemma_turn(NOTES_SYSTEM, user.as_str())
}

// --- combining parts -------------------------------------------------

/// One item of a part.
pub open spec fn item_line(item: wire::ItemView) -> Seq<char> {
    let secs = match item.source_secs {
        Some(n) => n as nat,
        None => 0nat,
    };
    "- "@ + item.text + " ["@ + text::decimal(secs) + "s]\n"@
}

/// The items of a part, one line each.
pub open spec fn item_lines(items: Seq<wire::ItemView>) -> Seq<char>
    decreases items.len(),
{
    if items.len() == 0 {
        Seq::empty()
    } else {
        item_lines(items.drop_last()) + item_line(items.last())
    }
}

/// A titled list of items; nothing if there are none.
pub open spec fn item_section(title: Seq<char>, items: Seq<wire::ItemView>) -> Seq<char> {
    if items.len() == 0 {
        Seq::empty()
    } else {
        title + item_lines(items)
    }
}

/// The notes of one part as text, the part counted from one.
pub open spec fn part_text(n: nat, part: wire::NotesView) -> Seq<char> {
    "Part "@ + text::decimal(n) + "\nSummary: "@ + text::trimmed(part.summary) + "\n"@
        + item_section("Decisions:\n"@, part.decisions) + item_section(
        "Action items:\n"@,
        part.action_items,
    ) + "\n"@
}

/// The notes of the parts, in order.
pub open spec fn parts_text(parts: Seq<wire::NotesView>) -> Seq<char>
    decreases parts.len(),
{
    if parts.len() == 0 {
        Seq::empty()
    } else {
        parts_text(parts.drop_last()) + part_text(parts.len(), parts.last())
    }
}

proof fn lemma_item_lines_at(items: Seq<wire::ItemView>, i: int) -> (around: (Seq<char>, Seq<char>))
    requires
        0 <= i < items.len(),
    ensures
        item_lines(items) == around.0 + item_line(items[i]) + around.1,
    decreases items.len(),
{
    let front = items.drop_last();
    if i < front.len() {
        let inner = lemma_item_lines_at(front, i);
        let after = inner.1 + item_line(items.last());
        assert(item_lines(items) == inner.0 + item_line(items[i]) + after);
        (inner.0, after)
    } else {
        let none = Seq::<char>::empty();
        assert(item_lines(items) == item_lines(front) + item_line(items[i]) + none);
        (item_lines(front), none)
    }
}

/// What is listed of a part holds its summary and a line for each of its
/// decisions and action items, with the whole text and the moment it cites.
pub proof fn law_part_lists_every_item(n: nat, part: wire::NotesView, i: int)
    requires
        i >= 0,
    ensures
        exists|start: Seq<char>, end: Seq<char>|
            part_text(n, part) == #[trigger] (start + ("Part "@ + text::decimal(n)
                + "\nSummary: "@ + text::trimmed(part.summary) + "\n"@) + end),
        i < part.decisions.len() && part.decisions[i].source_secs is Some ==> exists|
            start: Seq<char>,
            end: Seq<char>,
        |
            part_text(n, part) == #[trigger] (start + ("- "@ + part.decisions[i].text + " ["@
                + text::decimal(part.decisions[i].source_secs->0 as nat) + "s]\n"@) + end),
        i < part.action_items.len() && part.action_items[i].source_secs is Some ==> exists|
            start: Seq<char>,
            end: Seq<char>,
        |
            part_text(n, part) == #[trigger] (start + ("- "@ + part.action_items[i].text + " ["@
                + text::decimal(part.action_items[i].source_secs->0 as nat) + "s]\n"@) + end),
{
    let none = Seq::<char>::empty();
    let head = "Part "@ + text::decimal(n) + "\nSummary: "@ + text::trimmed(part.summary) + "\n"@;
    let decisions = item_section("Decisions:\n"@, part.decisions);
    let actions = item_section("Action items:\n"@, part.action_items);
    assert(part_text(n, part) == none + head + (decisions + actions + "\n"@));
    if i < part.decisions.len() && part.decisions[i].source_secs is Some {
        let line = item_line(part.decisions[i]);
        let around = lemma_item_lines_at(part.decisions, i);
        let start = head + "Decisions:\n"@ + around.0;
        let end = around.1 + actions + "\n"@;
        assert(part_text(n, part) == start + line + end);
    }
    if i < part.action_items.len() && part.action_items[i].source_secs is Some {
        let line = item_line(part.action_items[i]);
        let around = lemma_item_lines_at(part.action_items, i);
        let start = head + decisions + "Action items:\n"@ + around.0;
        let end = around.1 + "\n"@;
        assert(part_text(n, part) == start + line + end);
    }
}

proof fn lemma_parts_text_at(parts: Seq<wire::NotesView>, i: int) -> (around: (Seq<char>, Seq<char>))
    requires
        0 <= i < parts.len(),
    ensures
        parts_text(parts) == around.0 + part_text((i + 1) as nat, parts[i]) + around.1,
    decreases parts.len(),
{
    let front = parts.drop_last();
    if i < front.len() {
        let inner = lemma_parts_text_at(front, i);
        let after = inner.1 + part_text(parts.len(), parts.last());
        assert(parts_text(parts) == inner.0 + part_text((i + 1) as nat, parts[i]) + after);
        (inner.0, after)
    } else {
        let none = Seq::<char>::empty();
        assert(parts_text(parts) == parts_text(front) + part_text((i + 1) as nat, parts[i]) + none);
        (parts_text(front), none)
    }
}

fn append_section(out: &mut String, title: &str, items: &Vec<WireItem>)
    ensures
        final(out)@ == old(out)@ + item_section(title@, wire::item_views(items@)),
{
    let ghost views = wire::item_views(items@);
    let ghost before = out@;
    if items.len() > 0 {
        out.append(title);
        let mut i: usize = 0;
        assert(views.take(0) == Seq::<wire::ItemView>::empty());
        while i < items.len()
            invariant
                i <= items@.len(),
                views == wire::item_views(items@),
                out@ == before + title@ + item_lines(views.take(i as int)),
            decreases items@.len() - i,
        {
            let item = &items[i];
            let ghost so_far = out@;
            out.append("- ");
            out.append(item.text.as_str());
            out.append(" [");
            push_decimal(
                out,
                match item.source_secs {
                    Some(n) => n,
                    None => 0,
                },
            );
            out.append("s]\n");
            proof {
                assert(views.take(i + 1).drop_last() == views.take(i as int));
                assert(views.take(i + 1).last() == item@);
                assert(out@ == so_far + item_line(item@));
                assert(so_far + item_line(item@) == before + title@ + (item_lines(
                    views.take(i as int),
                ) + item_line(item@)));
            }
            i += 1;
        }
        assert(views.take(i as int) == views);
    }
    assert(out@ == before + item_section(title@, views));
}

fn append_part(out: &mut String, n: usize, part: &WireNotes)
    ensures
        final(out)@ == old(out)@ + part_text(n as nat, part@),
{
    let ghost before = out@;
    let mut summary = "Part ".to_string();
    push_decimal(&mut summary, n as u64);
    summary.append("\nSummary: ");
    summary.append(trim(part.summary.as_str()));
    summary.append("\n");
    let mut decisions = String::new();
    append_section(&mut decisions, "Decisions:\n", &part.decisions);
    let mut actions = String::new();
    append_section(&mut actions, "Action items:\n", &part.action_items);
    out.append(summary.as_str());
    out.append(decisions.as_str());
    out.append(actions.as_str());
    out.append("\n");
    proof {
        assert(decisions@ == item_section("Decisions:\n"@, part@.decisions));
        assert(actions@ == item_section("Action items:\n"@, part@.action_items));
        let text = summary@ + decisions@ + actions@ + "\n"@;
        assert(text == part_text(n as nat, part@));
        assert(out@ == before + text);
    }
}

/// Renders per-chunk notes as the text input to the reduce pass.
pub fn format_part_notes(parts: &Vec<WireNotes>) -> (out: String)
    ensures
        out@ == parts_text(wire::notes_views(parts@)),
{
    let ghost views = wire::notes_views(parts@);
    let mut out = String::new();
    let mut i: usize = 0;
    assert(views.take(0) == Seq::<wire::NotesView>::empty());
    while i < parts.len()
        invariant
            i <= parts@.len(),
            views == wire::notes_views(parts@),
            out@ == parts_text(views.take(i as int)),
        decreases parts@.len() - i,
    {
        append_part(&mut out, i + 1, &parts[i]);
        assert(views.take(i + 1).drop_last() == views.take(i as int));
        assert(views.take(i + 1).last() == parts@[i as int]@);
        i += 1;
    }
    assert(views.take(i as int) == views);
    out
}

/// The user message of the reduce pass.
pub open spec fn reduce_message(parts: Seq<wire::NotesView>, context: Seq<char>) -> Seq<char> {
    REDUCE_REQUEST@ + background("Background the operator gave for this meeting: "@, context)
        + "Use this exact JSON shape:\n"@ + NOTES_SCHEMA@ + "\n\nPart notes:\n"@ + parts_text(parts)
}

/// The prompt of the reduce pass.
pub open spec fn reduce_prompt(parts: Seq<wire::NotesView>, context: Seq<char>) -> Seq<char> {
    turn(REDUCE_SYSTEM@, reduce_message(parts, context))
}

/// Builds the prompt that consolidates per-chunk notes into the final notes
/// for the whole meeting.
pub fn build_reduce_prompt(parts: &Vec<WireNotes>, context: &str) -> (out: String)
    ensures
        out@ == reduce_prompt(wire::notes_views(parts@), context@),
{
    let mut user = REDUCE_REQUEST.to_string();
    append_background(&mut user, "Background the operator gave for this meeting: ", context);
    user.append("Use this exact JSON shape:\n");
    user.append(NOTES_SCHEMA);
    user.append("\n\nPart notes:\n");
    let notes = format_part_notes(parts);
    user.append(notes.as_str());
    gemma_turn(REDUCE_SYSTEM, user.as_str())
}

spec fn reduce_asked() -> Seq<char> {
    "Use this exact JSON shape:\n"@ + NOTES_SCHEMA@ + "\n\nPart notes:\n"@
}

spec fn reduce_opening() -> Seq<char> {
    "<start_of_turn>user\n"@ + REDUCE_SYSTEM@ + "\n\n"@ + REDUCE_REQUEST@
}

proof fn lemma_reduce_prompt(parts: Seq<wire::NotesView>, context: Seq<char>)
    ensures
        reduce_prompt(parts, context) == reduce_opening() + background(
            "Background the operator gave for this meeting: "@,
            context,
        ) + reduce_asked() + parts_text(parts) + "<end_of_turn>\n<start_of_turn>model\n"@,
{
    let head = "<start_of_turn>user\n"@ + REDUCE_SYSTEM@ + "\n\n"@;
    let told = background("Background the operator gave for this meeting: "@, context);
    let shape = "Use this exact JSON shape:\n"@;
    let end = "\n\nPart notes:\n"@;
    let a = REDUCE_REQUEST@ + told;
    lemma_prepend(a, shape, NOTES_SCHEMA@);
    lemma_prepend(a, shape + NOTES_SCHEMA@, end);
    assert(reduce_message(parts, context) == a + reduce_asked() + parts_text(parts));
    lemma_prepend(head, REDUCE_REQUEST@, told);
    lemma_prepend(head, a, reduce_asked());
    lemma_prepend(head, a + reduce_asked(), parts_text(parts));
}

/// The combining prompt lists every part, each under its own number.
pub proof fn law_reduce_prompt_lists_every_part(
    parts: Seq<wire::NotesView>,
    context: Seq<char>,
    i: int,
)
    requires
        0 <= i < parts.len(),
    ensures
        exists|start: Seq<char>, end: Seq<char>|
            reduce_prompt(parts, context) == #[trigger] (start + part_text(
                (i + 1) as nat,
                parts[i],
            ) + end),
{
    lemma_reduce_prompt(parts, context);
    let around = lemma_parts_text_at(parts, i);
    let before = reduce_opening() + background(
        "Background the operator gave for this meeting: "@,
        context,
    ) + reduce_asked();
    let closing = "<end_of_turn>\n<start_of_turn>model\n"@;
    let part = part_text((i + 1) as nat, parts[i]);
    assert(before + (around.0 + part + around.1) + closing == (before + around.0) + part + (around.1
        + closing));
}

/// The combining prompt holds the whole of the operator's context.
pub proof fn law_reduce_prompt_holds_the_context(parts: Seq<wire::NotesView>, context: Seq<char>)
    requires
        context.len() > 0,
    ensures
        exists|start: Seq<char>, end: Seq<char>|
            reduce_prompt(parts, context) == #[trigger] (start + context + end),
{
    lemma_reduce_prompt(parts, context);
    let lead = "Background the operator gave for this meeting: "@;
    let tail = reduce_asked() + parts_text(parts) + "<end_of_turn>\n<start_of_turn>model\n"@;
    let a = reduce_opening() + (lead + context + "\n\n"@);
    lemma_prepend(a, reduce_asked(), parts_text(parts));
    lemma_prepend(
        a,
        reduce_asked() + parts_text(parts),
        "<end_of_turn>\n<start_of_turn>model\n"@,
    );
    assert(a + tail == (reduce_opening() + lead) + context + ("\n\n"@ + tail));
}

// --- what every prompt has -------------------------------------------

/// A turn opens with the instructions, holds the whole message after them, and
/// leaves the reply to the model.
pub proof fn law_turn_holds_both(system: Seq<char>, user: Seq<char>)
    ensures
        ("<start_of_turn>user\n"@ + system).is_prefix_of(turn(system, user)),
        (user + "<end_of_turn>\n<start_of_turn>model\n"@).is_suffix_of(turn(system, user)),
{
    let opening = "<start_of_turn>user\n"@ + system;
    let closing = user + "<end_of_turn>\n<start_of_turn>model\n"@;
    assert(turn(system, user) == opening + "\n\n"@ + closing);
}

/// A notes prompt opens with what the model is to be, and says what to record.
pub proof fn law_prompt_gives_its_instructions(
    segments: Seq<wire::SegmentView>,
    context: Seq<char>,
    scenario: RecordingScenario,
    part: Option<(nat, nat)>,
)
    ensures
        ("<start_of_turn>user\n"@ + NOTES_SYSTEM@).is_prefix_of(
            notes_prompt(segments, context, scenario, part),
        ),
        exists|start: Seq<char>, end: Seq<char>|
            notes_prompt(segments, context, scenario, part) == #[trigger] (start + NOTES_REQUEST@
                + end),
{
    law_turn_holds_both(NOTES_SYSTEM@, notes_message(segments, context, scenario, part));
    lemma_notes_prompt(segments, context, scenario, part);
    let before = notes_opening() + framing(scenario) + " "@ + scope(part) + notes_told(context)
        + NOTES_REQUEST@;
    let transcript = "\n\nTranscript:\n"@;
    let lines = segment_lines(segments, scenario);
    lemma_prepend(before, NOTES_SCHEMA@, transcript);
    lemma_prepend(before, NOTES_SCHEMA@ + transcript, lines);
    lemma_prepend(
        before,
        NOTES_SCHEMA@ + transcript + lines,
        "<end_of_turn>\n<start_of_turn>model\n"@,
    );
}

/// The combining prompt opens with what the model is to be and asks for the final
/// notes in the same shape.
pub proof fn law_reduce_prompt_gives_its_instructions(
    parts: Seq<wire::NotesView>,
    context: Seq<char>,
)
    ensures
        ("<start_of_turn>user\n"@ + REDUCE_SYSTEM@).is_prefix_of(reduce_prompt(parts, context)),
        exists|start: Seq<char>, end: Seq<char>|
            reduce_prompt(parts, context) == #[trigger] (start + REDUCE_REQUEST@ + end),
        exists|start: Seq<char>, end: Seq<char>|
            reduce_prompt(parts, context) == #[trigger] (start + NOTES_SCHEMA@ + end),
{
    law_turn_holds_both(REDUCE_SYSTEM@, reduce_message(parts, context));
    lemma_reduce_prompt(parts, context);
    let told = background("Background the operator gave for this meeting: "@, context);
    let shape = "Use this exact JSON shape:\n"@;
    let close = "<end_of_turn>\n<start_of_turn>model\n"@;
    lemma_prepend(reduce_opening(), told, reduce_asked());
    lemma_prepend(reduce_opening(), told + reduce_asked(), parts_text(parts));
    lemma_prepend(reduce_opening(), told + reduce_asked() + parts_text(parts), close);
    let a = reduce_opening() + told + shape + NOTES_SCHEMA@;
    let b = "\n\nPart notes:\n"@;
    lemma_prepend(reduce_opening() + told, shape, NOTES_SCHEMA@);
    lemma_prepend(reduce_opening() + told, shape + NOTES_SCHEMA@, b);
    assert(reduce_opening() + told + reduce_asked() == a + b);
    lemma_prepend(a, b, parts_text(parts));
    lemma_prepend(a, b + parts_text(parts), close);
}

/// The operator's context is all that it adds to a notes prompt: without one the
/// prompt has the same words and says nothing in its place.
pub proof fn law_context_is_all_that_is_added(
    segments: Seq<wire::SegmentView>,
    context: Seq<char>,
    scenario: RecordingScenario,
    part: Option<(nat, nat)>,
) -> (around: (Seq<char>, Seq<char>))
    requires
        context.len() > 0,
    ensures
        notes_prompt(segments, context, scenario, part) == around.0 + (
        "Background the operator gave for this recording: "@ + context + "\n\n"@) + around.1,
        notes_prompt(segments, Seq::empty(), scenario, part) == around.0 + around.1,
{
    let none = Seq::<char>::empty();
    lemma_notes_prompt(segments, context, scenario, part);
    lemma_notes_prompt(segments, none, scenario, part);
    let before = notes_opening() + framing(scenario) + " "@ + scope(part);
    let after = NOTES_REQUEST@ + NOTES_SCHEMA@ + "\n\nTranscript:\n"@ + segment_lines(
        segments,
        scenario,
    ) + "<end_of_turn>\n<start_of_turn>model\n"@;
    assert(before + none == before);
    lemma_append_five(
        before + notes_told(context),
        NOTES_REQUEST@,
        NOTES_SCHEMA@,
        "\n\nTranscript:\n"@,
        segment_lines(segments, scenario),
        "<end_of_turn>\n<start_of_turn>model\n"@,
    );
    lemma_append_five(
        before,
        NOTES_REQUEST@,
        NOTES_SCHEMA@,
        "\n\nTranscript:\n"@,
        segment_lines(segments, scenario),
        "<end_of_turn>\n<start_of_turn>model\n"@,
    );
    (before, after)
}

/// The prompt for a part of a recording is the prompt for the same segments as a
/// whole, with some words about the part.
pub proof fn law_part_is_all_that_is_added(
    segments: Seq<wire::SegmentView>,
    context: Seq<char>,
    scenario: RecordingScenario,
    n: nat,
    total: nat,
) -> (around: (Seq<char>, Seq<char>, Seq<char>))
    ensures
        notes_prompt(segments, context, scenario, Some((n, total))) == around.0 + around.1
            + around.2,
        ("This is part "@ + text::decimal(n) + " of "@ + text::decimal(total)).is_prefix_of(
            around.1,
        ),
        notes_prompt(segments, context, scenario, None) == around.0 + around.2,
{
    let part = Some((n, total));
    lemma_notes_prompt(segments, context, scenario, part);
    lemma_notes_prompt(segments, context, scenario, None);
    let tail = " of one longer recording; the parts are in order. Write notes covering only this part. Its first lines may repeat the end of the previous part for continuity. "@;
    let numbered = "This is part "@ + text::decimal(n) + " of "@ + text::decimal(total);
    assert(scope(part) == numbered + tail);
    let before = notes_opening() + framing(scenario) + " "@;
    assert(before + scope(None) == before);
    let after = NOTES_REQUEST@ + NOTES_SCHEMA@ + "\n\nTranscript:\n"@ + segment_lines(
        segments,
        scenario,
    ) + "<end_of_turn>\n<start_of_turn>model\n"@;
    lemma_append_five(
        before + scope(part) + notes_told(context),
        NOTES_REQUEST@,
        NOTES_SCHEMA@,
        "\n\nTranscript:\n"@,
        segment_lines(segments, scenario),
        "<end_of_turn>\n<start_of_turn>model\n"@,
    );
    lemma_append_five(
        before + notes_told(context),
        NOTES_REQUEST@,
        NOTES_SCHEMA@,
        "\n\nTranscript:\n"@,
        segment_lines(segments, scenario),
        "<end_of_turn>\n<start_of_turn>model\n"@,
    );
    lemma_prepend(before + scope(part), notes_told(context), after);
    lemma_prepend(before, notes_told(context), after);
    (before, scope(part), notes_told(context) + after)
}

/// The text of the parts is theirs alone, in order: a part that comes last adds
/// its own text to that of the others, and no parts have no text.
pub proof fn law_parts_one_after_another(parts: Seq<wire::NotesView>, part: wire::NotesView)
    ensures
        parts_text(Seq::empty()) == Seq::<char>::empty(),
        parts_text(parts.push(part)) == parts_text(parts) + part_text(parts.len() + 1, part),
{
    assert(parts.push(part).drop_last() == parts);
}

} // verus!
