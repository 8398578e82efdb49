//! Reading the notes model's responses.

use scribe_engine::json::{parse_json, Json};
use scribe_engine::response::{
    dedupe, dedupe_by_keys, non_empty_item, notes_from_value, parse_items, parse_json_object,
    parse_notes, parse_part, parse_seconds, string_field, strip_trailing_timecodes,
};
use scribe_engine::scan::{extract_json_object, strip_trailing_commas};
use scribe_engine::wire::{WireItem, WireSegment};

fn segment(at: u64, text: &str) -> WireSegment {
    WireSegment {
        speaker: "near".into(),
        start_secs: at,
        end_secs: at + 10,
        text: text.into(),
    }
}

fn item(text: &str, source_secs: Option<u64>) -> WireItem {
    WireItem { text: text.into(), source_secs }
}

fn texts(items: &[WireItem]) -> Vec<&str> {
    items.iter().map(|i| i.text.as_str()).collect()
}

#[test]
fn extracts_json_amid_prose_and_fences() {
    let raw = "Sure! ```json\n{\"summary\": \"a {nested} brace\"}\n``` done";
    assert_eq!(
        extract_json_object(raw).unwrap(),
        "{\"summary\": \"a {nested} brace\"}"
    );
}

#[test]
fn extracts_the_first_balanced_block() {
    assert_eq!(extract_json_object("{\"a\":{\"b\":{}}} {\"c\":1}"), Some("{\"a\":{\"b\":{}}}"));
    assert_eq!(extract_json_object("{}"), Some("{}"));
    assert_eq!(extract_json_object("é{\"k\":\"ü}\"}é"), Some("{\"k\":\"ü}\"}"));
}

#[test]
fn escaped_quotes_do_not_end_a_string() {
    let raw = "{\"a\": \"quote \\\" and } brace\", \"b\": \"back\\\\\"} tail";
    assert_eq!(
        extract_json_object(raw),
        Some("{\"a\": \"quote \\\" and } brace\", \"b\": \"back\\\\\"}")
    );
}

#[test]
fn no_block_without_braces_or_balance() {
    assert_eq!(extract_json_object(""), None);
    assert_eq!(extract_json_object("no object here }"), None);
    assert_eq!(extract_json_object("{\"a\": {"), None);
    assert_eq!(extract_json_object("{\"a\": \"unterminated }"), None);
}

#[test]
fn parses_object_and_string_items() {
    let objects = parse_json(
        r#"[
            {"text": "Close by June 30", "at_seconds": 72},
            {"text": "  ", "at_seconds": 5},
            {"text": "Send the estimate", "at_seconds": "570"}
        ]"#,
    )
    .unwrap();
    let items = parse_items(Some(&objects));
    assert_eq!(items.len(), 2);
    assert_eq!(items[0].source_secs, Some(72));
    assert_eq!(items[1].source_secs, Some(570));

    let strings = parse_json(r#"["First", "Second"]"#).unwrap();
    let items = parse_items(Some(&strings));
    assert_eq!(items.len(), 2);
    assert!(items[0].source_secs.is_none());
}

#[test]
fn items_are_read_only_from_arrays() {
    assert!(parse_items(None).is_empty());
    assert!(parse_items(Some(&Json::Text("Close".into()))).is_empty());
    assert!(parse_items(Some(&Json::Null)).is_empty());
    let mixed = parse_json(r#"[1, null, {"at_seconds": 3}, {"text": 4}, ["x"], "kept [9s]"]"#);
    let items = parse_items(Some(&mixed.unwrap()));
    assert_eq!(texts(&items), ["kept"]);
}

#[test]
fn seconds_come_as_numbers_or_strings() {
    let read = |text: &str| parse_seconds(Some(&parse_json(text).unwrap()));
    assert_eq!(read("72"), Some(72));
    assert_eq!(read("72.9"), Some(72));
    assert_eq!(read("-3"), Some(0));
    assert_eq!(read("1e30"), Some(u64::MAX));
    assert_eq!(read("18446744073709551615"), Some(u64::MAX));
    assert_eq!(read("\" 570 \""), Some(570));
    assert_eq!(read("\"+570\""), Some(570));
    assert_eq!(read("\"570s\""), None);
    assert_eq!(read("\"\""), None);
    assert_eq!(read("\"18446744073709551616\""), None);
    assert_eq!(read("null"), None);
    assert_eq!(read("true"), None);
    assert_eq!(parse_seconds(None), None);
}

#[test]
fn string_fields_are_trimmed() {
    let value = parse_json(r#"{"summary": "  We met.\n", "other": 5}"#).unwrap();
    assert_eq!(string_field(&value, "summary"), "We met.");
    assert_eq!(string_field(&value, "other"), "");
    assert_eq!(string_field(&value, "missing"), "");
    assert_eq!(string_field(&Json::Bool(true), "summary"), "");
}

#[test]
fn the_last_of_repeated_fields_counts() {
    let value = parse_json(r#"{"summary": "first", "summary": "last"}"#).unwrap();
    assert_eq!(string_field(&value, "summary"), "last");
}

#[test]
fn strips_trailing_timecode_tags() {
    assert_eq!(
        strip_trailing_timecodes("Prepare the filing now. [2577s]"),
        "Prepare the filing now."
    );
    assert_eq!(
        strip_trailing_timecodes("Flag nexus issues. [2241s] / [3321s]"),
        "Flag nexus issues."
    );
    assert_eq!(strip_trailing_timecodes("No tag here."), "No tag here.");
    assert_eq!(
        strip_trailing_timecodes("Keep [bracketed] words"),
        "Keep [bracketed] words"
    );
}

#[test]
fn only_whole_timecode_tags_are_stripped() {
    assert_eq!(strip_trailing_timecodes("Keep [s]"), "Keep [s]");
    assert_eq!(strip_trailing_timecodes("Keep [12]"), "Keep [12]");
    assert_eq!(strip_trailing_timecodes("Keep [1 2s]"), "Keep [1 2s]");
    assert_eq!(strip_trailing_timecodes("Keep 12s]"), "Keep 12s]");
    assert_eq!(strip_trailing_timecodes("Keep [٣s]"), "Keep [٣s]");
    assert_eq!(strip_trailing_timecodes("[12s]"), "");
    assert_eq!(strip_trailing_timecodes(" a, [1s], / [2s] "), "a");
    assert_eq!(strip_trailing_timecodes("a\t[1s]"), "a");
    assert_eq!(strip_trailing_timecodes("x [keep] [5s]"), "x [keep]");
}

#[test]
fn stripped_text_ends_in_no_timecode() {
    for text in ["a [1s] [2s]", "[1s][2s]", "a [b] [3s]", "plain", ""] {
        let once = strip_trailing_timecodes(text);
        assert_eq!(strip_trailing_timecodes(&once), once);
    }
}

#[test]
fn an_item_without_text_is_none() {
    assert!(non_empty_item("   ", Some(3)).is_none());
    assert!(non_empty_item(" [30s]", None).is_none());
    let kept = non_empty_item(" File it. [30s]", Some(3)).unwrap();
    assert_eq!(kept.text, "File it.");
    assert_eq!(kept.source_secs, Some(3));
}

#[test]
fn strips_trailing_commas_outside_strings() {
    assert_eq!(strip_trailing_commas(r#"{"a":1,}"#), r#"{"a":1}"#);
    assert_eq!(strip_trailing_commas(r#"{"a":[1,2, ],}"#), r#"{"a":[1,2 ]}"#);
    // A comma inside a string value is left alone.
    assert_eq!(strip_trailing_commas(r#"{"a":"x, y"}"#), r#"{"a":"x, y"}"#);
}

#[test]
fn repair_leaves_strict_text_and_strings_alone() {
    let strict = r#"{"a": [1, 2], "b": ",]", "c": "\",}"}"#;
    assert_eq!(strip_trailing_commas(strict), strict);
    assert_eq!(strip_trailing_commas("[1,\u{a0}]"), "[1\u{a0}]");
    assert_eq!(strip_trailing_commas("1,"), "1,");
    // Of two commas before a bracket only the last goes.
    assert_eq!(strip_trailing_commas("[1,,]"), "[1,]");
}

#[test]
fn dedupe_drops_normalized_duplicates() {
    let items = vec![
        WireItem { text: "Send the report".into(), source_secs: Some(1) },
        WireItem { text: "send  the   report".into(), source_secs: Some(2) },
        WireItem { text: "File the motion".into(), source_secs: Some(3) },
    ];
    assert_eq!(dedupe(items).len(), 2);
}

#[test]
fn dedupe_keeps_the_first_of_each_key() {
    let items = vec![
        item("ÄRGER melden", Some(1)),
        item(" ärger\tMELDEN ", Some(2)),
        item("b", None),
        item("B", Some(4)),
        item("c", None),
    ];
    let once = dedupe(items);
    assert_eq!(texts(&once), ["ÄRGER melden", "b", "c"]);
    assert_eq!(once[0].source_secs, Some(1));
    let again = dedupe(once);
    assert_eq!(texts(&again), ["ÄRGER melden", "b", "c"]);
    assert!(dedupe(Vec::new()).is_empty());
}

#[test]
fn a_response_is_read_amid_prose() {
    let raw = "Here you go:\n{\"summary\": \" We met. \", \"decisions\": [\"Go [5s]\",], \
               \"action_items\": [], \"billable_description\": \"Call\"} Bye.";
    let notes = parse_notes(raw, &[segment(0, "a"), segment(30, "b")]).unwrap();
    assert_eq!(notes.summary, "We met.");
    assert_eq!(texts(&notes.decisions), ["Go"]);
    assert!(notes.action_items.is_empty());
    let billable = notes.billable.unwrap();
    assert_eq!(billable.description, "Call");
    // The billable time is the recording's, never the model's.
    assert_eq!(billable.duration_secs, 40);
}

#[test]
fn billable_time_needs_a_description() {
    let notes = parse_notes(r#"{"summary": "s", "billable_description": " "}"#, &[]).unwrap();
    assert!(notes.billable.is_none());
    let notes = parse_notes(r#"{"summary": "s", "billable_description": "d"}"#, &[]).unwrap();
    assert_eq!(notes.billable.unwrap().duration_secs, 0);
}

#[test]
fn a_response_without_notes_is_refused() {
    let err = |raw: &str| parse_notes(raw, &[segment(0, "a")]).unwrap_err();
    assert_eq!(err("no object"), "model response had no JSON object");
    assert_eq!(err(r#"{"billable_description": "d"}"#), "model did not return usable notes");
    assert_eq!(err("{}"), "model did not return usable notes");
    assert!(parse_notes(r#"{"action_items": ["Call"]}"#, &[]).is_ok());
    assert!(parse_notes(r#"{"decisions": ["Go"]}"#, &[]).is_ok());
}

#[test]
fn a_syntax_error_is_reported_without_the_text() {
    let message = parse_json_object(r#"{"summary": secret words}"#).unwrap_err();
    assert!(message.starts_with("model response was not valid JSON: "));
    assert!(!message.contains("secret"));
    assert!(message.contains("line 1"));
}

#[test]
fn notes_are_read_from_a_built_value() {
    let value = Json::Object(vec![
        ("summary".to_string(), Json::Text("s".to_string())),
        (
            "decisions".to_string(),
            Json::Array(vec![Json::Object(vec![
                ("text".to_string(), Json::Text("Go".to_string())),
                ("at_seconds".to_string(), Json::Number { unsigned: None, truncated: Some(7) }),
            ])]),
        ),
    ]);
    let notes = notes_from_value(&value, &[segment(5, "a")], 15).unwrap();
    assert_eq!(notes.summary, "s");
    assert_eq!(notes.decisions[0].source_secs, Some(7));
    assert_eq!(
        notes_from_value(&Json::Null, &[], 0).unwrap_err(),
        "model did not return usable notes"
    );
}

#[test]
fn json_values_come_out_whole() {
    let value = parse_json(r#"{"n": [null, false, -1, 2.5, 3], "s": "é\n"}"#).unwrap();
    assert!(matches!(value.get("s"), Some(Json::Text(s)) if s == "é\n"));
    let Some(Json::Array(items)) = value.get("n") else {
        panic!("an array");
    };
    assert!(matches!(items[0], Json::Null));
    assert!(matches!(items[1], Json::Bool(false)));
    assert!(matches!(items[2], Json::Number { unsigned: None, truncated: Some(0) }));
    assert!(matches!(items[3], Json::Number { unsigned: None, truncated: Some(2) }));
    assert!(matches!(items[4], Json::Number { unsigned: Some(3), truncated: Some(3) }));
    assert!(value.get("missing").is_none());
    assert!(parse_json("{} {}").is_err());
}

#[test]
fn cited_moments_come_from_the_response() {
    let raw = r#"{"decisions": [{"text": "Go", "at_seconds": 12}],
        "action_items": [{"text": "Call", "at_seconds": "9"}, "Write"]}"#;
    let notes = parse_notes(raw, &[segment(5, "a")]).unwrap();
    assert_eq!(notes.decisions[0].source_secs, Some(12));
    assert_eq!(notes.action_items[0].source_secs, Some(9));
    assert_eq!(notes.action_items[1].source_secs, None);
}

#[test]
fn moments_after_the_recording_are_not_cited() {
    let raw = r#"{"decisions": [{"text": "Go", "at_seconds": 100}, {"text": "Stay", "at_seconds": 15}],
        "action_items": [{"text": "Call", "at_seconds": "16"}]}"#;
    let notes = parse_notes(raw, &[segment(5, "a")]).unwrap();
    assert_eq!(texts(&notes.decisions), ["Go", "Stay"]);
    assert_eq!(notes.decisions[0].source_secs, None);
    assert_eq!(notes.decisions[1].source_secs, Some(15));
    assert_eq!(texts(&notes.action_items), ["Call"]);
    assert_eq!(notes.action_items[0].source_secs, None);
}

#[test]
fn items_are_told_apart_by_their_keys() {
    let items = vec![item("a", Some(1)), item("b", None), item("c", None), item("d", Some(4))];
    let keys: Vec<String> = ["x", "y", "x", "z"].iter().map(|k| k.to_string()).collect();
    let kept = dedupe_by_keys(items, &keys);
    assert_eq!(texts(&kept), ["a", "b", "d"]);
    assert_eq!(kept[2].source_secs, Some(4));
    assert!(dedupe_by_keys(Vec::new(), &Vec::new()).is_empty());
}

#[test]
fn a_part_may_cite_beyond_its_own_segments() {
    let raw = r#"{"decisions": [{"text": "Go", "at_seconds": 120}, {"text": "Stay", "at_seconds": 201}],
        "billable_description": "d"}"#;
    let notes = parse_part(raw, &[segment(90, "a")], 200).unwrap();
    assert_eq!(notes.decisions[0].source_secs, Some(120));
    assert_eq!(notes.decisions[1].source_secs, None);
    // The billable time is the part's own.
    assert_eq!(notes.billable.unwrap().duration_secs, 100);
}
