//! The plain values that cross between the engine and the notes sidecar.
//! Durations cross as whole seconds.

use vstd::prelude::*;

verus! {

/// The message when there is nothing to summarize.
pub const EMPTY_TRANSCRIPT: &'static str = "transcript is empty";

/// One timecoded line of a transcript.
#[derive(Debug)]
pub struct WireSegment {
    /// `near` for the operator, anything else for the other side.
    pub speaker: String,
    pub start_secs: u64,
    pub end_secs: u64,
    pub text: String,
}

/// What a [`WireSegment`] says.
pub struct SegmentView {
    pub speaker: Seq<char>,
    pub start_secs: u64,
    pub end_secs: u64,
    pub text: Seq<char>,
}

impl View for WireSegment {
    type V = SegmentView;

    open spec fn view(&self) -> SegmentView {
        SegmentView {
            speaker: self.speaker@,
            start_secs: self.start_secs,
            end_secs: self.end_secs,
            text: self.text@,
        }
    }
}

/// What a row of segments says.
pub open spec fn segment_views(segments: Seq<WireSegment>) -> Seq<SegmentView> {
    Seq::new(segments.len(), |i: int| segments[i]@)
}

/// One decision or action item, with the second of the recording it came from.
#[derive(Debug)]
pub struct WireItem {
    pub text: String,
    pub source_secs: Option<u64>,
}

/// What a [`WireItem`] says.
pub struct ItemView {
    pub text: Seq<char>,
    pub source_secs: Option<u64>,
}

impl View for WireItem {
    type V = ItemView;

    open spec fn view(&self) -> ItemView {
        ItemView { text: self.text@, source_secs: self.source_secs }
    }
}

/// What a row of items says.
pub open spec fn item_views(items: Seq<WireItem>) -> Seq<ItemView> {
    Seq::new(items.len(), |i: int| items[i]@)
}

/// A draft time entry.
#[derive(Debug)]
pub struct WireBillable {
    pub duration_secs: u64,
    pub description: String,
}

/// What a [`WireBillable`] says.
pub struct BillableView {
    pub duration_secs: u64,
    pub description: Seq<char>,
}

impl View for WireBillable {
    type V = BillableView;

    open spec fn view(&self) -> BillableView {
        BillableView { duration_secs: self.duration_secs, description: self.description@ }
    }
}

/// The notes of one recording, or of one part of it.
#[derive(Debug)]
pub struct WireNotes {
    pub summary: String,
    pub decisions: Vec<WireItem>,
    pub action_items: Vec<WireItem>,
    pub billable: Option<WireBillable>,
}

/// What [`WireNotes`] say.
pub struct NotesView {
    pub summary: Seq<char>,
    pub decisions: Seq<ItemView>,
    pub action_items: Seq<ItemView>,
    pub billable: Option<BillableView>,
}

impl View for WireNotes {
    type V = NotesView;

    open spec fn view(&self) -> NotesView {
        NotesView {
            summary: self.summary@,
            decisions: item_views(self.decisions@),
            action_items: item_views(self.action_items@),
            billable: match self.billable {
                Some(b) => Some(b@),
                None => None,
            },
        }
    }
}

/// What a row of notes says.
pub open spec fn notes_views(notes: Seq<WireNotes>) -> Seq<NotesView> {
    Seq::new(notes.len(), |i: int| notes[i]@)
}

// --- citations -------------------------------------------------------

/// The moment that an item may cite: one that lies within a recording of `end`
/// seconds.
pub open spec fn cited(source: Option<u64>, end: u64) -> Option<u64> {
    match source {
        Some(secs) => if secs <= end {
            Some(secs)
        } else {
            None
        },
        None => None,
    }
}

/// The items, citing only moments within the recording. An item that cites a
/// later one stays and loses its citation.
pub open spec fn cited_items(items: Seq<ItemView>, end: u64) -> Seq<ItemView> {
    Seq::new(
        items.len(),
        |i: int| ItemView { text: items[i].text, source_secs: cited(items[i].source_secs, end) },
    )
}

/// The notes, citing only moments within the recording.
pub open spec fn cited_notes(notes: NotesView, end: u64) -> NotesView {
    NotesView {
        decisions: cited_items(notes.decisions, end),
        action_items: cited_items(notes.action_items, end),
        ..notes
    }
}

/// Whether no item cites a moment after `end`.
pub open spec fn items_within(items: Seq<ItemView>, end: u64) -> bool {
    forall|i: int|
        0 <= i < items.len() ==> ((#[trigger] items[i]).source_secs matches Some(secs) ==> secs
            <= end)
}

/// Drops the citations of moments after `end`; every item stays.
pub fn cite_within(items: Vec<WireItem>, end: u64) -> (out: Vec<WireItem>)
    ensures
        item_views(out@) == cited_items(item_views(items@), end),
        items_within(item_views(out@), end),
{
    let ghost wanted = cited_items(item_views(items@), end);
    let mut out: Vec<WireItem> = Vec::new();
    for item in it: items
        invariant
            it.seq() == items@,
            wanted == cited_items(item_views(items@), end),
            item_views(out@) == wanted.take(it.index() as int),
    {
        let ghost before = out@;
        let source_secs = match item.source_secs {
            Some(secs) => if secs <= end {
                Some(secs)
            } else {
                None
            },
            None => None,
        };
        let kept = WireItem { text: item.text, source_secs };
        out.push(kept);
        proof {
            assert(item_views(out@) == item_views(before).push(kept@));
            assert(kept@ == wanted[it.index() as int]);
            assert(wanted.take(it.index() + 1) == wanted.take(it.index() as int).push(kept@));
        }
    }
    assert(wanted.take(items@.len() as int) == wanted);
    out
}

/// Dropping citations drops nothing else: every item stays in its place with its
/// text, and keeps its citation just where that lies within the recording.
pub proof fn law_only_late_citations_go(notes: NotesView, end: u64, i: int)
    requires
        i >= 0,
    ensures
        cited_notes(notes, end).summary == notes.summary,
        cited_notes(notes, end).billable == notes.billable,
        cited_notes(notes, end).decisions.len() == notes.decisions.len(),
        cited_notes(notes, end).action_items.len() == notes.action_items.len(),
        i < notes.decisions.len() ==> ({
            let (kept, item) = (cited_notes(notes, end).decisions[i], notes.decisions[i]);
            &&& kept.text == item.text
            &&& kept.source_secs is Some ==> kept.source_secs == item.source_secs
            &&& kept.source_secs is Some <==> item.source_secs is Some && item.source_secs->0 <= end
        }),
        i < notes.action_items.len() ==> ({
            let (kept, item) = (cited_notes(notes, end).action_items[i], notes.action_items[i]);
            &&& kept.text == item.text
            &&& kept.source_secs is Some ==> kept.source_secs == item.source_secs
            &&& kept.source_secs is Some <==> item.source_secs is Some && item.source_secs->0 <= end
        }),
{
}

} // verus!
