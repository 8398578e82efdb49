//! Reading the notes model's response, defensively.

use vstd::prelude::*;

use crate::json;
use crate::json::{parse_json, Json};
use crate::scan;
use crate::scan::{extract_json_object, strip_trailing_commas};
use crate::text;
use crate::text::{ascii_digit, chars_of, collapse_white_space, parse_u64, string_of, to_lowercase,
    trim, white_space};
use crate::wire;
use crate::wire::{cite_within, WireBillable, WireItem, WireNotes, WireSegment};

verus! {

// --- timecode tags ---------------------------------------------------

/// What stands between the brackets of a timecode tag: digits, then `s`.
pub open spec fn is_timecode(inner: Seq<char>) -> bool {
    inner.len() >= 2 && inner.last() == 's' && text::all_digits(inner.drop_last())
}

/// The position of the last opening bracket, or -1.
pub open spec fn last_bracket(s: Seq<char>) -> int
    decreases s.len(),
{
    if s.len() == 0 {
        -1
    } else if s.last() == '[' {
        s.len() - 1
    } else {
        last_bracket(s.drop_last())
    }
}

/// Whether a text ends in a timecode tag such as `[123s]`.
pub open spec fn ends_in_timecode(s: Seq<char>) -> bool {
    &&& s.len() > 0
    &&& s.last() == ']'
    &&& last_bracket(s) >= 0
    &&& is_timecode(s.subrange(last_bracket(s) + 1, s.len() - 1))
}

/// A character that can stand between two tags.
pub open spec fn is_separator(c: char) -> bool {
    c == ' ' || c == '/' || c == ','
}

/// `s` without its trailing separators.
pub open spec fn trim_separators(s: Seq<char>) -> Seq<char>
    decreases s.len(),
{
    if s.len() > 0 && is_separator(s.last()) {
        trim_separators(s.drop_last())
    } else {
        s
    }
}

/// The text before a trailing tag, without what separates the two.
pub open spec fn before_tag(s: Seq<char>) -> Seq<char> {
    text::trim_end(trim_separators(s.take(last_bracket(s))))
}

proof fn lemma_last_bracket(s: Seq<char>)
    ensures
        -1 <= last_bracket(s) < s.len(),
        last_bracket(s) >= 0 ==> s[last_bracket(s)] == '[',
    decreases s.len(),
{
    if s.len() > 0 && s.last() != '[' {
        lemma_last_bracket(s.drop_last());
    }
}

proof fn lemma_trim_separators(s: Seq<char>)
    ensures
        trim_separators(s).len() <= s.len(),
        trim_separators(s) == s.take(trim_separators(s).len() as int),
    decreases s.len(),
{
    if s.len() > 0 && is_separator(s.last()) {
        lemma_trim_separators(s.drop_last());
        let n = trim_separators(s).len() as int;
        assert(s.drop_last().take(n) == s.take(n));
    } else {
        assert(s.take(s.len() as int) == s);
    }
}

/// The text before a tag is a shorter beginning of the text.
pub proof fn lemma_before_tag(s: Seq<char>)
    requires
        ends_in_timecode(s),
    ensures
        before_tag(s).len() < s.len(),
        before_tag(s) == s.take(before_tag(s).len() as int),
{
    lemma_last_bracket(s);
    let cut = s.take(last_bracket(s));
    lemma_trim_separators(cut);
    text::lemma_trim_end(trim_separators(cut));
    let n = before_tag(s).len() as int;
    assert(cut.take(trim_separators(cut).len() as int).take(n) == s.take(n));
}

/// The text without the timecode tags at its end.
pub open spec fn untagged(s: Seq<char>) -> Seq<char>
    decreases s.len(),
{
    if ends_in_timecode(s) {
        proof {
            lemma_before_tag(s);
        }
        untagged(before_tag(s))
    } else {
        s
    }
}

/// Removes trailing `[123s]` timecode tags that the reduce pass can echo into
/// an item's text from its input formatting.
pub fn strip_trailing_timecodes(text: &str) -> (out: String)
    ensures
        out@ == untagged(text::trimmed(text@)),
{
    let chars = chars_of(trim(text));
    let mut end: usize = chars.len();
    let ghost all = chars@;
    assert(all.take(end as int) == all);
    while end > 0 && chars[end - 1] == ']'
        invariant_except_break
            untagged(all.take(end as int)) == untagged(all),
        invariant
            all == chars@,
            end <= all.len(),
        ensures
            untagged(all) == all.take(end as int),
        decreases end,
    {
        let ghost s = all.take(end as int);
        let mut open: usize = end;
        assert(s.take(open as int) == s);
        while open > 0 && chars[open - 1] != '['
            invariant
                all == chars@,
                open <= end <= all.len(),
                s == all.take(end as int),
                last_bracket(s.take(open as int)) == last_bracket(s),
            decreases open,
        {
            assert(s.take(open as int).drop_last() == s.take(open - 1));
            open -= 1;
        }
        if open == 0 {
            break;
        }
        let bracket: usize = open - 1;
        proof {
            assert(s.take(open as int).last() == '[');
            assert(last_bracket(s) == bracket);
            assert(s.last() == ']');
        }
        if !timecode_between(&chars, open, end - 1) {
            assert(s.subrange(bracket + 1, s.len() - 1) == all.subrange(open as int, end - 1));
            break;
        }
        assert(s.subrange(bracket + 1, s.len() - 1) == all.subrange(open as int, end - 1));
        let mut cut: usize = bracket;
        assert(s.take(bracket as int) == all.take(cut as int));
        while cut > 0 && (chars[cut - 1] == ' ' || chars[cut - 1] == '/' || chars[cut - 1] == ',')
            invariant
                all == chars@,
                cut <= bracket < end <= all.len(),
                trim_separators(all.take(cut as int)) == trim_separators(
                    all.take(bracket as int),
                ),
            decreases cut,
        {
            assert(all.take(cut as int).drop_last() == all.take(cut - 1));
            cut -= 1;
        }
        let ghost separated = all.take(cut as int);
        while cut > 0 && white_space(chars[cut - 1])
            invariant
                all == chars@,
                cut <= bracket < end <= all.len(),
                text::trim_end(all.take(cut as int)) == text::trim_end(separated),
            decreases cut,
        {
            assert(all.take(cut as int).drop_last() == all.take(cut - 1));
            cut -= 1;
        }
        assert(before_tag(s) == all.take(cut as int));
        end = cut;
    }
    string_of(&chars, 0, end)
}

/// Whether `chars[from..to]` reads as the inside of a timecode tag.
fn timecode_between(chars: &Vec<char>, from: usize, to: usize) -> (r: bool)
    requires
        from <= to <= chars@.len(),
    ensures
        r == is_timecode(chars@.subrange(from as int, to as int)),
{
    let ghost inner = chars@.subrange(from as int, to as int);
    if to - from < 2 || chars[to - 1] != 's' {
        return false;
    }
    let mut i: usize = from;
    while i < to - 1
        invariant
            from <= i <= to - 1,
            to <= chars@.len(),
            inner == chars@.subrange(from as int, to as int),
            forall|k: int| 0 <= k < i - from ==> text::is_digit(#[trigger] inner.drop_last()[k]),
        decreases to - i,
    {
        assert(inner.drop_last()[i - from] == chars@[i as int]);
        if !ascii_digit(chars[i]) {
            return false;
        }
        i += 1;
    }
    true
}

proof fn lemma_untagged(s: Seq<char>)
    ensures
        !ends_in_timecode(untagged(s)),
        untagged(s).len() <= s.len(),
        untagged(s) == s.take(untagged(s).len() as int),
        text::trim_end(s) == s ==> text::trim_end(untagged(s)) == untagged(s),
    decreases s.len(),
{
    if ends_in_timecode(s) {
        lemma_before_tag(s);
        lemma_untagged(before_tag(s));
        text::lemma_trim_end(trim_separators(s.take(last_bracket(s))));
        let n = untagged(s).len() as int;
        assert(before_tag(s).take(n) == s.take(n));
    } else {
        assert(s.take(s.len() as int) == s);
    }
}

/// Stripping leaves no timecode tag at the end, keeps a beginning of the
/// trimmed text, and changes nothing when it is done again.
pub proof fn law_timecodes_stripped(s: Seq<char>)
    ensures
        !ends_in_timecode(untagged(text::trimmed(s))),
        untagged(text::trimmed(s)).is_prefix_of(text::trimmed(s)),
        untagged(text::trimmed(untagged(text::trimmed(s)))) == untagged(text::trimmed(s)),
{
    let t = text::trimmed(s);
    let u = untagged(t);
    text::lemma_trimmed(s);
    text::lemma_trim_end(text::trim_start(s));
    lemma_untagged(t);
    if u.len() > 0 {
        assert(u[0] == t[0]);
    }
    assert(text::trim_start(u) == u);
}

proof fn lemma_last_bracket_at(x: Seq<char>, y: Seq<char>)
    requires
        forall|i: int| 0 <= i < y.len() ==> #[trigger] y[i] != '[',
    ensures
        last_bracket(x.push('[') + y) == x.len(),
    decreases y.len(),
{
    let s = x.push('[') + y;
    if y.len() == 0 {
        assert(s == x.push('['));
    } else {
        assert(s.last() == y[y.len() - 1]);
        assert(s.drop_last() == x.push('[') + y.drop_last());
        lemma_last_bracket_at(x, y.drop_last());
    }
}

proof fn lemma_separators_go(p: Seq<char>, separators: Seq<char>)
    requires
        p.len() > 0 ==> !is_separator(p.last()),
        forall|i: int| 0 <= i < separators.len() ==> is_separator(#[trigger] separators[i]),
    ensures
        trim_separators(p + separators) == p,
    decreases separators.len(),
{
    if separators.len() == 0 {
        assert(p + separators == p);
    } else {
        assert((p + separators).last() == separators[separators.len() - 1]);
        assert((p + separators).drop_last() == p + separators.drop_last());
        lemma_separators_go(p, separators.drop_last());
    }
}

/// A timecode tag at the end of a text goes, with the spaces, slashes and commas
/// before it, and all the rest stays.
pub proof fn law_tag_goes_and_text_stays(
    body: Seq<char>,
    separators: Seq<char>,
    digits: Seq<char>,
)
    requires
        body.len() > 0 ==> !text::is_white_space(body.last()) && body.last() != '/' && body.last()
            != ',',
        forall|i: int|
            0 <= i < separators.len() ==> #[trigger] separators[i] == ' ' || separators[i] == '/'
                || separators[i] == ',',
        digits.len() > 0,
        forall|i: int| 0 <= i < digits.len() ==> '0' <= #[trigger] digits[i] <= '9',
    ensures
        untagged(body + separators + seq!['['] + digits + seq!['s', ']']) == untagged(body),
        body.len() > 0 ==> body.last() != ']' ==> untagged(
            body + separators + seq!['['] + digits + seq!['s', ']'],
        ) == body,
{
    let x = body + separators;
    let y = digits + seq!['s', ']'];
    let s = body + separators + seq!['['] + digits + seq!['s', ']'];
    assert(s == x.push('[') + y);
    assert forall|i: int| 0 <= i < y.len() implies #[trigger] y[i] != '[' by {
        if i < digits.len() {
            assert(y[i] == digits[i]);
        }
    }
    lemma_last_bracket_at(x, y);
    let inner = s.subrange(x.len() as int + 1, s.len() - 1);
    assert(inner == digits.push('s'));
    assert(inner.drop_last() == digits);
    assert forall|i: int| 0 <= i < digits.len() implies text::is_digit(#[trigger] digits[i]) by {
        assert('0' <= digits[i] <= '9');
    }
    assert(ends_in_timecode(s));
    assert(s.take(x.len() as int) == x);
    assert forall|i: int| 0 <= i < separators.len() implies is_separator(
        #[trigger] separators[i],
    ) by {
        assert(separators[i] == ' ' || separators[i] == '/' || separators[i] == ',');
    }
    if body.len() > 0 {
        assert(body.last() != ' ');
    }
    lemma_separators_go(body, separators);
    assert(before_tag(s) == body);
}

/// A text that ends in no bracket, or whose last bracket holds anything but
/// digits before its last character, is left as it is.
pub proof fn law_other_text_stays(body: Seq<char>, inner: Seq<char>, k: int)
    requires
        0 <= k < inner.len() - 1,
        !text::is_digit(inner[k]),
        forall|i: int| 0 <= i < inner.len() ==> #[trigger] inner[i] != '[',
    ensures
        untagged(body.push('[') + inner.push(']')) == body.push('[') + inner.push(']'),
        body.len() == 0 || body.last() != ']' ==> untagged(body) == body,
{
    let y = inner.push(']');
    let s = body.push('[') + y;
    assert forall|i: int| 0 <= i < y.len() implies #[trigger] y[i] != '[' by {
        if i < inner.len() {
            assert(y[i] == inner[i]);
        }
    }
    lemma_last_bracket_at(body, y);
    assert(s.subrange(body.len() as int + 1, s.len() - 1) == inner);
    assert(inner.drop_last()[k] == inner[k]);
    assert(!text::is_digit(inner.drop_last()[k]));
    assert(!text::all_digits(inner.drop_last()));
}

/// A bracket at the end of a text that holds no number of seconds is left as it
/// is: one that is empty, that holds a single character, or whose last character
/// is no `s`.
pub proof fn law_only_timecodes_are_tags(body: Seq<char>, inner: Seq<char>)
    requires
        inner.len() < 2 || inner.last() != 's',
        forall|i: int| 0 <= i < inner.len() ==> #[trigger] inner[i] != '[',
    ensures
        untagged(body.push('[') + inner.push(']')) == body.push('[') + inner.push(']'),
{
    let y = inner.push(']');
    let s = body.push('[') + y;
    assert forall|i: int| 0 <= i < y.len() implies #[trigger] y[i] != '[' by {
        if i < inner.len() {
            assert(y[i] == inner[i]);
        }
    }
    lemma_last_bracket_at(body, y);
    assert(s.subrange(body.len() as int + 1, s.len() - 1) == inner);
}

// --- items -----------------------------------------------------------

/// The item that a text makes once its tags are gone; none if nothing is left.
pub open spec fn item_of_text(text: Seq<char>, source_secs: Option<u64>) -> Option<wire::ItemView> {
    let clean = untagged(text::trimmed(text));
    if clean.len() > 0 {
        Some(wire::ItemView { text: clean, source_secs })
    } else {
        None
    }
}

/// The item that a text makes once its tags are gone; none if nothing is left.
pub fn non_empty_item(text: &str, source_secs: Option<u64>) -> (item: Option<WireItem>)
    ensures
        match item {
            Some(i) => item_of_text(text@, source_secs) == Some(i@),
            None => item_of_text(text@, source_secs) is None,
        },
{
    let text = strip_trailing_timecodes(text);
    if text.as_str().is_empty() {
        None
    } else {
        Some(WireItem { text, source_secs })
    }
}

/// The text of a JSON string; empty for any other value.
pub open spec fn text_of(value: Option<json::JsonTree>) -> Seq<char> {
    match value {
        Some(json::JsonTree::Text(t)) => t,
        _ => Seq::empty(),
    }
}

/// A field that holds a string, trimmed; empty if it is missing or of another
/// kind.
pub fn string_field(value: &Json, key: &str) -> (out: String)
    ensures
        out@ == text::trimmed(text_of(value@.field(key@))),
{
    match value.get(key) {
        Some(Json::Text(t)) => trim(t.as_str()).to_string(),
        _ => {
            assert(text::trimmed(Seq::<char>::empty()) == Seq::<char>::empty());
            String::new()
        },
    }
}

/// The seconds that a value stands for: a number as an integer if it is
/// written as one, else cut to one; or a string that holds a number.
pub open spec fn seconds_of(value: Option<json::JsonTree>) -> Option<u64> {
    match value {
        Some(json::JsonTree::Number { unsigned, truncated }) => if unsigned is Some {
            unsigned
        } else {
            truncated
        },
        Some(json::JsonTree::Text(t)) => text::parsed_u64(text::trimmed(t)),
        _ => None,
    }
}

/// What an optional value holds.
pub open spec fn optional_tree(value: Option<&Json>) -> Option<json::JsonTree> {
    match value {
        Some(v) => Some(v@),
        None => None,
    }
}

/// Reads `at_seconds` whether the model emitted a number or a string.
pub fn parse_seconds(value: Option<&Json>) -> (secs: Option<u64>)
    ensures
        secs == seconds_of(optional_tree(value)),
{
    match value {
        Some(Json::Number { unsigned, truncated }) => match unsigned {
            Some(n) => Some(*n),
            None => *truncated,
        },
        Some(Json::Text(t)) => parse_u64(trim(t.as_str())),
        _ => None,
    }
}

/// The item of one array entry: a string, or an object with `text` and
/// `at_seconds`.
pub open spec fn item_of(entry: json::JsonTree) -> Option<wire::ItemView> {
    match entry {
        json::JsonTree::Text(t) => item_of_text(t, None),
        _ => item_of_text(text_of(entry.field("text"@)), seconds_of(entry.field("at_seconds"@))),
    }
}

/// The items of the entries, those that make none left out.
pub open spec fn items_of_entries(entries: Seq<json::JsonTree>) -> Seq<wire::ItemView>
    decreases entries.len(),
{
    if entries.len() == 0 {
        Seq::empty()
    } else {
        let before = items_of_entries(entries.drop_last());
        match item_of(entries.last()) {
            Some(item) => before.push(item),
            None => before,
        }
    }
}

/// The items of an array; none for any other value.
pub open spec fn items_of(value: Option<json::JsonTree>) -> Seq<wire::ItemView> {
    match value {
        Some(json::JsonTree::Array(entries)) => items_of_entries(entries),
        _ => Seq::empty(),
    }
}

/// An entry that says something is an item with the whole of what it says, be it
/// a string or an object with a `text`; one that says nothing is none. Only an
/// object cites a moment.
pub proof fn law_entry_read_whole(
    entry: json::JsonTree,
    lead: Seq<char>,
    core: Seq<char>,
    tail: Seq<char>,
)
    requires
        forall|i: int| 0 <= i < lead.len() ==> text::is_white_space(#[trigger] lead[i]),
        forall|i: int| 0 <= i < tail.len() ==> text::is_white_space(#[trigger] tail[i]),
        core.len() > 0 ==> !text::is_white_space(core[0]) && !text::is_white_space(core.last())
            && core.last() != ']',
    ensures
        item_of(json::JsonTree::Text(lead + core + tail)) == (if core.len() == 0 {
            None
        } else {
            Some(wire::ItemView { text: core, source_secs: None })
        }),
        !(entry is Text) && entry.field("text"@) == Some(
            json::JsonTree::Text(lead + core + tail),
        ) ==> item_of(entry) == (if core.len() == 0 {
            None
        } else {
            Some(
                wire::ItemView {
                    text: core,
                    source_secs: seconds_of(entry.field("at_seconds"@)),
                },
            )
        }),
{
    text::law_trimmed_keeps_the_text(lead, core, tail);
}

/// A moment is read whether it is written as a number or as a string.
pub proof fn law_seconds_read(
    n: u64,
    truncated: Option<u64>,
    lead: Seq<char>,
    tail: Seq<char>,
)
    requires
        forall|i: int| 0 <= i < lead.len() ==> text::is_white_space(#[trigger] lead[i]),
        forall|i: int| 0 <= i < tail.len() ==> text::is_white_space(#[trigger] tail[i]),
    ensures
        seconds_of(Some(json::JsonTree::Number { unsigned: Some(n), truncated })) == Some(n),
        seconds_of(Some(json::JsonTree::Number { unsigned: None, truncated })) == truncated,
        seconds_of(Some(json::JsonTree::Text(lead + text::decimal(n as nat) + tail))) == Some(n),
        seconds_of(None) is None,
{
    let core = text::decimal(n as nat);
    text::lemma_decimal_digits(n as nat);
    assert(text::is_digit(core[0]) && text::is_digit(core[core.len() - 1]));
    text::law_trimmed_keeps_the_text(lead, core, tail);
    text::law_decimal_reads_back(n);
}

/// The items of an array are those of its beginning and then those of its rest,
/// wherever it is cut: no entry is lost, and none changes its place.
pub proof fn law_items_keep_their_order(a: Seq<json::JsonTree>, b: Seq<json::JsonTree>)
    ensures
        items_of(Some(json::JsonTree::Array(a + b))) == items_of(Some(json::JsonTree::Array(a)))
            + items_of(Some(json::JsonTree::Array(b))),
    decreases b.len(),
{
    if b.len() == 0 {
        assert(a + b == a);
        assert(items_of_entries(a) + items_of_entries(b) == items_of_entries(a));
    } else {
        law_items_keep_their_order(a, b.drop_last());
        assert((a + b).drop_last() == a + b.drop_last());
        assert((a + b).last() == b.last());
        if let Some(item) = item_of(b.last()) {
            assert((items_of_entries(a) + items_of_entries(b.drop_last())).push(item)
                == items_of_entries(a) + items_of_entries(b.drop_last()).push(item));
        }
    }
}

/// An array whose every entry makes an item has as many items as entries, each
/// the item of the entry at its place.
pub proof fn law_every_entry_has_its_item(entries: Seq<json::JsonTree>)
    requires
        forall|i: int| 0 <= i < entries.len() ==> item_of(#[trigger] entries[i]) is Some,
    ensures
        items_of(Some(json::JsonTree::Array(entries))).len() == entries.len(),
        forall|i: int|
            0 <= i < entries.len() ==> item_of(#[trigger] entries[i]) == Some(
                items_of(Some(json::JsonTree::Array(entries)))[i],
            ),
    decreases entries.len(),
{
    if entries.len() > 0 {
        let front = entries.drop_last();
        assert forall|i: int| 0 <= i < front.len() implies item_of(
            #[trigger] front[i],
        ) is Some by {
            assert(front[i] == entries[i]);
        }
        law_every_entry_has_its_item(front);
        assert(item_of(entries[entries.len() - 1]) is Some);
        assert forall|i: int| 0 <= i < entries.len() implies item_of(#[trigger] entries[i]) == Some(
            items_of_entries(entries)[i],
        ) by {
            if i < front.len() {
                assert(item_of(front[i]) == Some(items_of_entries(front)[i]));
            }
        }
    }
}

/// An array of strings, none of them blank or ending in a bracket, reads as
/// items that say just those strings, one for each and in their order, however
/// many there are and however long they are.
pub proof fn law_strings_read_as_items(
    lead: Seq<Seq<char>>,
    core: Seq<Seq<char>>,
    tail: Seq<Seq<char>>,
    entries: Seq<json::JsonTree>,
)
    requires
        lead.len() == core.len() == tail.len() == entries.len(),
        forall|i: int|
            0 <= i < core.len() ==> (#[trigger] core[i]).len() > 0 && !text::is_white_space(
                core[i][0],
            ) && !text::is_white_space(core[i].last()) && core[i].last() != ']',
        forall|i: int, k: int|
            0 <= i < lead.len() && 0 <= k < lead[i].len() ==> text::is_white_space(
                #[trigger] lead[i][k],
            ),
        forall|i: int, k: int|
            0 <= i < tail.len() && 0 <= k < tail[i].len() ==> text::is_white_space(
                #[trigger] tail[i][k],
            ),
        forall|i: int|
            0 <= i < entries.len() ==> #[trigger] entries[i] == json::JsonTree::Text(
                lead[i] + core[i] + tail[i],
            ),
    ensures
        items_of(Some(json::JsonTree::Array(entries))) == Seq::new(
            core.len(),
            |i: int| wire::ItemView { text: core[i], source_secs: None },
        ),
{
    assert forall|i: int| 0 <= i < entries.len() implies item_of(#[trigger] entries[i]) == Some(
        wire::ItemView { text: core[i], source_secs: None },
    ) by {
        assert(core[i].len() > 0);
        assert forall|k: int| 0 <= k < lead[i].len() implies text::is_white_space(
            #[trigger] lead[i][k],
        ) by {}
        assert forall|k: int| 0 <= k < tail[i].len() implies text::is_white_space(
            #[trigger] tail[i][k],
        ) by {}
        law_entry_read_whole(entries[i], lead[i], core[i], tail[i]);
    }
    law_every_entry_has_its_item(entries);
    let items = items_of_entries(entries);
    assert forall|i: int| 0 <= i < items.len() implies #[trigger] items[i] == (wire::ItemView {
        text: core[i],
        source_secs: None,
    }) by {
        assert(item_of(entries[i]) == Some(items[i]));
    }
}

fn parse_item(entry: &Json) -> (item: Option<WireItem>)
    ensures
        match item {
            Some(i) => item_of(entry@) == Some(i@),
            None => item_of(entry@) is None,
        },
{
    if let Json::Text(t) = entry {
        return non_empty_item(t.as_str(), None);
    }
    let secs = parse_seconds(entry.get("at_seconds"));
    match entry.get("text") {
        Some(Json::Text(t)) => non_empty_item(t.as_str(), secs),
        _ => {
            let none = String::new();
            non_empty_item(none.as_str(), secs)
        },
    }
}

/// Parses a `decisions` / `action_items` array. Tolerates both an array of
/// strings and an array of `{text, at_seconds}` objects.
pub fn parse_items(value: Option<&Json>) -> (items: Vec<WireItem>)
    ensures
        wire::item_views(items@) == items_of(optional_tree(value)),
{
    let mut items: Vec<WireItem> = Vec::new();
    if let Some(Json::Array(entries)) = value {
        let ghost trees = Json::Array(*entries)@->Array_0;
        assert(trees == Seq::new(entries@.len(), |i: int| entries@[i]@));
        assert(trees.take(0) == Seq::<json::JsonTree>::empty());
        let mut i: usize = 0;
        while i < entries.len()
            invariant
                i <= entries@.len(),
                trees == Seq::new(entries@.len(), |i: int| entries@[i]@),
                wire::item_views(items@) == items_of_entries(trees.take(i as int)),
            decreases entries@.len() - i,
        {
            assert(trees.take(i + 1).drop_last() == trees.take(i as int));
            let ghost before = items@;
            if let Some(item) = parse_item(&entries[i]) {
                items.push(item);
                assert(wire::item_views(items@) == wire::item_views(before).push(item@));
            }
            i += 1;
        }
        assert(trees.take(i as int) == trees);
    }
    items
}

// --- the whole response ----------------------------------------------

/// The message when a response holds no object.
pub const NO_OBJECT: &'static str = "model response had no JSON object";

/// The message when the object is not valid JSON, before the parser's own.
pub const NOT_JSON: &'static str = "model response was not valid JSON: ";

/// The message when the object holds neither a summary nor an item.
pub const NOT_USABLE: &'static str = "model did not return usable notes";

/// What a response says: its first balanced block, repaired and read.
pub open spec fn response_value(raw: Seq<char>) -> Result<json::JsonTree, Seq<char>> {
    match scan::json_block(raw) {
        None => Err(NO_OBJECT@),
        Some(block) => match json::json_text(scan::repaired(block)) {
            Ok(tree) => Ok(tree),
            Err(message) => Err(NOT_JSON@ + message),
        },
    }
}

/// Extracts and parses the first JSON object from a model response. The
/// messages carry no text of the response.
pub fn parse_json_object(raw: &str) -> (r: Result<Json, String>)
    ensures
        match r {
            Ok(value) => response_value(raw@) == Ok::<json::JsonTree, Seq<char>>(value@),
            Err(message) => response_value(raw@) == Err::<json::JsonTree, Seq<char>>(message@),
        },
{
    match extract_json_object(raw) {
        None => Err(NO_OBJECT.to_string()),
        Some(block) => {
            let repaired = strip_trailing_commas(block);
            match parse_json(repaired.as_str()) {
                Ok(value) => Ok(value),
                Err(message) => {
                    let mut out = NOT_JSON.to_string();
                    out.append(message.as_str());
                    Err(out)
                },
            }
        },
    }
}

/// When the recording of these segments ends, in seconds.
pub open spec fn recording_end(segments: Seq<wire::SegmentView>) -> u64 {
    if segments.len() == 0 {
        0
    } else {
        segments.last().end_secs
    }
}

/// The notes that a response value about these segments holds, `end` being when
/// the whole recording ends. The billable duration is taken from the segments,
/// never from the response, and a moment after the recording is not cited.
pub open spec fn notes_of_value(
    value: json::JsonTree,
    segments: Seq<wire::SegmentView>,
    end: u64,
) -> Result<wire::NotesView, Seq<char>> {
    let summary = text::trimmed(text_of(value.field("summary"@)));
    let decisions = wire::cited_items(items_of(value.field("decisions"@)), end);
    let action_items = wire::cited_items(items_of(value.field("action_items"@)), end);
    let description = text::trimmed(text_of(value.field("billable_description"@)));
    if summary.len() == 0 && decisions.len() == 0 && action_items.len() == 0 {
        Err(NOT_USABLE@)
    } else {
        Ok(
            wire::NotesView {
                summary,
                decisions,
                action_items,
                billable: if description.len() > 0 {
                    Some(
                        wire::BillableView { duration_secs: recording_end(segments), description },
                    )
                } else {
                    None
                },
            },
        )
    }
}

/// What a result of notes or a message says.
pub open spec fn outcome_view(r: Result<WireNotes, String>) -> Result<wire::NotesView, Seq<char>> {
    match r {
        Ok(notes) => Ok(notes@),
        Err(message) => Err(message@),
    }
}

fn end_of(segments: &[WireSegment]) -> (end: u64)
    ensures
        end == recording_end(wire::segment_views(segments@)),
{
    if segments.len() > 0 {
        segments[segments.len() - 1].end_secs
    } else {
        0
    }
}

/// Turns a response value into notes. `segments` supplies the billable
/// duration; `end` is when the whole recording ends.
pub fn notes_from_value(value: &Json, segments: &[WireSegment], end: u64) -> (r: Result<
    WireNotes,
    String,
>)
    ensures
        outcome_view(r) == notes_of_value(value@, wire::segment_views(segments@), end),
{
    let summary = string_field(value, "summary");
    let decisions = cite_within(parse_items(value.get("decisions")), end);
    let action_items = cite_within(parse_items(value.get("action_items")), end);
    let description = string_field(value, "billable_description");
    assert(wire::item_views(decisions@).len() == decisions@.len());
    assert(wire::item_views(action_items@).len() == action_items@.len());

    if summary.as_str().is_empty() && decisions.len() == 0 && action_items.len() == 0 {
        return Err(NOT_USABLE.to_string());
    }
    let billable = if description.as_str().is_empty() {
        None
    } else {
        Some(WireBillable { duration_secs: end_of(segments), description })
    };
    Ok(WireNotes { summary, decisions, action_items, billable })
}

/// The notes that a response about these segments holds, or why it holds none;
/// `end` is when the whole recording ends.
pub open spec fn notes_of_response(
    raw: Seq<char>,
    segments: Seq<wire::SegmentView>,
    end: u64,
) -> Result<wire::NotesView, Seq<char>> {
    match response_value(raw) {
        Ok(value) => notes_of_value(value, segments, end),
        Err(message) => Err(message),
    }
}

/// Parses a notes response about part of a recording that ends at `end`
/// seconds. `segments` supplies the billable duration. A part may cite a moment
/// outside its own segments, as long as it lies within the recording.
pub fn parse_part(raw: &str, segments: &[WireSegment], end: u64) -> (r: Result<WireNotes, String>)
    ensures
        outcome_view(r) == notes_of_response(raw@, wire::segment_views(segments@), end),
{
    match parse_json_object(raw) {
        Ok(value) => notes_from_value(&value, segments, end),
        Err(message) => Err(message),
    }
}

/// Parses a notes response, defensively. `segments` supplies the billable
/// duration and the end of the recording.
pub fn parse_notes(raw: &str, segments: &[WireSegment]) -> (r: Result<WireNotes, String>)
    ensures
        outcome_view(r) == notes_of_response(
            raw@,
            wire::segment_views(segments@),
            recording_end(wire::segment_views(segments@)),
        ),
{
    parse_part(raw, segments, end_of(segments))
}

/// Items that say something, none of them ending in a timecode tag.
pub open spec fn clean_items(items: Seq<wire::ItemView>) -> bool {
    forall|i: int|
        0 <= i < items.len() ==> (#[trigger] items[i]).text.len() > 0 && !ends_in_timecode(
            items[i].text,
        )
}

proof fn lemma_items_clean(entries: Seq<json::JsonTree>)
    ensures
        clean_items(items_of_entries(entries)),
    decreases entries.len(),
{
    if entries.len() > 0 {
        lemma_items_clean(entries.drop_last());
        let last = entries.last();
        let text = match last {
            json::JsonTree::Text(t) => t,
            _ => text_of(last.field("text"@)),
        };
        law_timecodes_stripped(text);
    }
}

proof fn lemma_cited_clean(items: Seq<wire::ItemView>, end: u64)
    requires
        clean_items(items),
    ensures
        clean_items(wire::cited_items(items, end)),
{
    let out = wire::cited_items(items, end);
    assert forall|i: int| 0 <= i < out.len() implies (#[trigger] out[i]).text.len() > 0
        && !ends_in_timecode(out[i].text) by {
        assert(items[i].text == out[i].text);
    }
}

/// Whatever a response says, the notes read from it say something: a summary
/// or an item, no item empty or ending in a timecode tag. Their billable time
/// is taken from the segments, and no item cites a moment after the recording.
pub proof fn law_notes_usable(raw: Seq<char>, segments: Seq<wire::SegmentView>, end: u64)
    ensures
        notes_of_response(raw, segments, end) matches Ok(notes) ==> {
            &&& notes.summary.len() > 0 || notes.decisions.len() > 0 || notes.action_items.len()
                > 0
            &&& clean_items(notes.decisions)
            &&& clean_items(notes.action_items)
            &&& wire::items_within(notes.decisions, end)
            &&& wire::items_within(notes.action_items, end)
            &&& notes.billable matches Some(b) ==> b.duration_secs == recording_end(segments)
                && b.description.len() > 0
        },
{
    if let Ok(value) = response_value(raw) {
        if let Some(json::JsonTree::Array(entries)) = value.field("decisions"@) {
            lemma_items_clean(entries);
            lemma_cited_clean(items_of_entries(entries), end);
        }
        if let Some(json::JsonTree::Array(entries)) = value.field("action_items"@) {
            lemma_items_clean(entries);
            lemma_cited_clean(items_of_entries(entries), end);
        }
    }
}

/// Notes hold what the response says, field by field: its summary and its
/// description trimmed, and of each item list every item with its own text, in
/// the same order. There are notes just where a summary or an item is said.
pub proof fn law_notes_hold_what_was_said(
    value: json::JsonTree,
    segments: Seq<wire::SegmentView>,
    end: u64,
    summary: Seq<char>,
    description: Seq<char>,
)
    requires
        value.field("summary"@) == Some(json::JsonTree::Text(summary)),
        value.field("billable_description"@) == Some(json::JsonTree::Text(description)),
    ensures
        ({
            let decisions = items_of(value.field("decisions"@));
            let action_items = items_of(value.field("action_items"@));
            match notes_of_value(value, segments, end) {
                Ok(notes) => {
                    &&& text::trimmed(summary).len() > 0 || decisions.len() > 0
                        || action_items.len() > 0
                    &&& notes.summary == text::trimmed(summary)
                    &&& notes.decisions.len() == decisions.len()
                    &&& forall|i: int|
                        0 <= i < decisions.len() ==> (#[trigger] notes.decisions[i]).text
                            == decisions[i].text
                    &&& notes.action_items.len() == action_items.len()
                    &&& forall|i: int|
                        0 <= i < action_items.len() ==> (#[trigger] notes.action_items[i]).text
                            == action_items[i].text
                    &&& match notes.billable {
                        Some(b) => text::trimmed(description).len() > 0 && b.description
                            == text::trimmed(description) && b.duration_secs == (if segments.len()
                            > 0 {
                            segments[segments.len() - 1].end_secs
                        } else {
                            0
                        }),
                        None => text::trimmed(description).len() == 0,
                    }
                },
                Err(_) => text::trimmed(summary).len() == 0 && decisions.len() == 0
                    && action_items.len() == 0,
            }
        }),
{
}

/// An item keeps its citation just where it lies within the recording.
pub proof fn law_citations_kept_one_by_one(
    value: json::JsonTree,
    segments: Seq<wire::SegmentView>,
    end: u64,
    i: int,
)
    requires
        notes_of_value(value, segments, end) is Ok,
        i >= 0,
    ensures
        i < items_of(value.field("decisions"@)).len() ==> ({
            let said = items_of(value.field("decisions"@))[i].source_secs;
            let noted = notes_of_value(value, segments, end)->Ok_0.decisions[i].source_secs;
            &&& noted is Some ==> noted == said && noted->0 <= end
            &&& said is Some && said->0 <= end ==> noted == said
        }),
        i < items_of(value.field("action_items"@)).len() ==> ({
            let said = items_of(value.field("action_items"@))[i].source_secs;
            let noted = notes_of_value(value, segments, end)->Ok_0.action_items[i].source_secs;
            &&& noted is Some ==> noted == said && noted->0 <= end
            &&& said is Some && said->0 <= end ==> noted == said
        }),
{
}

/// What surrounds the object in a response does not matter, as long as no brace
/// comes before it.
pub proof fn law_prose_changes_nothing(
    before: Seq<char>,
    block: Seq<char>,
    after: Seq<char>,
    segments: Seq<wire::SegmentView>,
    end: u64,
)
    requires
        !before.contains('{'),
        scan::is_block(block),
    ensures
        notes_of_response(before + block + after, segments, end) == notes_of_response(
            block,
            segments,
            end,
        ),
{
    let none = Seq::<char>::empty();
    scan::law_block_found_amid_prose(before, block, after);
    scan::law_block_found_amid_prose(none, block, none);
    assert(none + block + none == block);
}

/// An object without trailing commas is read just as it is written.
pub proof fn law_strict_object_read_as_written(block: Seq<char>)
    requires
        scan::is_block(block),
        forall|i: int| 0 <= i < block.len() ==> !#[trigger] scan::is_trailing_comma(block, i),
    ensures
        response_value(block) == match json::json_text(block) {
            Ok(tree) => Ok::<json::JsonTree, Seq<char>>(tree),
            Err(message) => Err::<json::JsonTree, Seq<char>>(NOT_JSON@ + message),
        },
{
    let none = Seq::<char>::empty();
    scan::law_block_found_amid_prose(none, block, none);
    assert(none + block + none == block);
    scan::law_repair_leaves_strict_text(block);
}

/// Whatever the response cites, a note cites only moments within the recording;
/// and it cites all that the response does where those lie within, be they
/// inside or outside the segments that the response is about.
pub proof fn law_timecodes_within_recording(
    value: json::JsonTree,
    segments: Seq<wire::SegmentView>,
    end: u64,
)
    ensures
        notes_of_value(value, segments, end) matches Ok(notes) ==> {
            let decisions = items_of(value.field("decisions"@));
            let action_items = items_of(value.field("action_items"@));
            &&& wire::items_within(notes.decisions, end)
            &&& wire::items_within(notes.action_items, end)
            &&& wire::items_within(decisions, end) ==> notes.decisions == decisions
            &&& wire::items_within(action_items, end) ==> notes.action_items == action_items
        },
{
    let decisions = items_of(value.field("decisions"@));
    let action_items = items_of(value.field("action_items"@));
    if wire::items_within(decisions, end) {
        assert(wire::cited_items(decisions, end) == decisions);
    }
    if wire::items_within(action_items, end) {
        assert(wire::cited_items(action_items, end) == action_items);
    }
}

/// What is said of a response that holds no notes repeats nothing of it: it is
/// one of two fixed sentences, or what the parser says of a syntax error.
pub proof fn law_errors_repeat_no_response(
    raw: Seq<char>,
    segments: Seq<wire::SegmentView>,
    end: u64,
)
    ensures
        notes_of_response(raw, segments, end) matches Err(message) ==> {
            ||| message == NO_OBJECT@
            ||| message == NOT_USABLE@
            ||| exists|block: Seq<char>, e: Seq<char>|
                scan::json_block(raw) == Some(block) && #[trigger] json::json_text(
                    scan::repaired(block),
                ) == Err::<json::JsonTree, Seq<char>>(e) && #[trigger] (NOT_JSON@ + e) == message
        },
{
}

// --- duplicates ------------------------------------------------------

/// What two items have in common when they are duplicates: the text in lower
/// case, white space collapsed.
pub open spec fn item_key(item: wire::ItemView) -> Seq<char> {
    text::lowercase(text::joined(text::words(item.text)))
}

/// Whether one of the items has this key.
pub open spec fn has_key(items: Seq<wire::ItemView>, key: Seq<char>) -> bool {
    exists|i: int| 0 <= i < items.len() && #[trigger] item_key(items[i]) == key
}

/// The items, each key once, at its first place.
pub open spec fn deduped(items: Seq<wire::ItemView>) -> Seq<wire::ItemView>
    decreases items.len(),
{
    if items.len() == 0 {
        Seq::empty()
    } else {
        let before = deduped(items.drop_last());
        if has_key(items.drop_last(), item_key(items.last())) {
            before
        } else {
            before.push(items.last())
        }
    }
}

fn key_of(item: &WireItem) -> (key: String)
    ensures
        key@ == item_key(item@),
{
    to_lowercase(collapse_white_space(item.text.as_str()).as_str())
}

/// The keys of the items.
pub open spec fn item_keys(items: Seq<wire::ItemView>) -> Seq<Seq<char>> {
    Seq::new(items.len(), |i: int| item_key(items[i]))
}

/// The items, each of the given keys once, at its first place.
pub open spec fn deduped_by(items: Seq<wire::ItemView>, keys: Seq<Seq<char>>) -> Seq<wire::ItemView>
    decreases items.len(),
{
    if items.len() == 0 {
        Seq::empty()
    } else {
        let before = deduped_by(items.drop_last(), keys.drop_last());
        if keys.drop_last().contains(keys.last()) {
            before
        } else {
            before.push(items.last())
        }
    }
}

/// What a row of keys says.
pub open spec fn key_views(keys: Seq<String>) -> Seq<Seq<char>> {
    Seq::new(keys.len(), |i: int| keys[i]@)
}

proof fn lemma_deduped_by_item_keys(items: Seq<wire::ItemView>)
    ensures
        deduped_by(items, item_keys(items)) == deduped(items),
    decreases items.len(),
{
    if items.len() > 0 {
        let front = items.drop_last();
        let key = item_key(items.last());
        lemma_deduped_by_item_keys(front);
        assert(item_keys(items).drop_last() == item_keys(front));
        assert(item_keys(front).contains(key) == has_key(front, key)) by {
            if has_key(front, key) {
                let i = choose|i: int| 0 <= i < front.len() && #[trigger] item_key(front[i]) == key;
                assert(item_keys(front)[i] == key);
            }
            if item_keys(front).contains(key) {
                let i = choose|i: int| 0 <= i < front.len() && item_keys(front)[i] == key;
                assert(item_key(front[i]) == key);
            }
        }
    }
}

/// Drops the items whose key came before; `keys` holds the key of each item.
pub fn dedupe_by_keys(items: Vec<WireItem>, keys: &Vec<String>) -> (out: Vec<WireItem>)
    requires
        keys@.len() == items@.len(),
    ensures
        wire::item_views(out@) == deduped_by(wire::item_views(items@), key_views(keys@)),
{
    let ghost views = wire::item_views(items@);
    let ghost names = key_views(keys@);
    let total = keys.len();
    let mut out: Vec<WireItem> = Vec::new();
    let mut n: usize = 0;
    assert(views.take(0) == Seq::<wire::ItemView>::empty());
    for item in it: items
        invariant
            it.seq() == items@,
            total == keys@.len(),
            total == items@.len(),
            views == wire::item_views(items@),
            names == key_views(keys@),
            n == it.index(),
            wire::item_views(out@) == deduped_by(views.take(n as int), names.take(n as int)),
    {
        let ghost before = out@;
        let mut known = false;
        let mut k: usize = 0;
        while k < n
            invariant
                k <= n < keys@.len(),
                names == key_views(keys@),
                known == names.take(k as int).contains(names[n as int]),
            decreases n - k,
        {
            let ghost so_far = names.take(k as int);
            assert(names.take(k + 1) == so_far.push(names[k as int]));
            if keys[k] == keys[n] {
                known = true;
                assert(so_far.push(names[k as int])[k as int] == names[n as int]);
            }
            proof {
                if so_far.contains(names[n as int]) {
                    let j = choose|j: int| 0 <= j < k && so_far[j] == names[n as int];
                    assert(so_far.push(names[k as int])[j] == names[n as int]);
                }
            }
            k += 1;
        }
        if !known {
            out.push(item);
            assert(wire::item_views(out@) == wire::item_views(before).push(item@));
        }
        proof {
            assert(views.take(n + 1).drop_last() == views.take(n as int));
            assert(names.take(n + 1).drop_last() == names.take(n as int));
            assert(views.take(n + 1).last() == item@);
            assert(names.take(n + 1).last() == names[n as int]);
        }
        n += 1;
    }
    assert(views.take(n as int) == views);
    assert(names.take(n as int) == names);
    out
}

/// Drops items whose text is a duplicate (case- and whitespace-normalized).
/// The first of each stays.
pub fn dedupe(items: Vec<WireItem>) -> (out: Vec<WireItem>)
    ensures
        wire::item_views(out@) == deduped(wire::item_views(items@)),
{
    let ghost views = wire::item_views(items@);
    let mut keys: Vec<String> = Vec::new();
    let mut i: usize = 0;
    while i < items.len()
        invariant
            i <= items@.len(),
            views == wire::item_views(items@),
            key_views(keys@) == item_keys(views).take(i as int),
        decreases items@.len() - i,
    {
        let key = key_of(&items[i]);
        let ghost before = keys@;
        keys.push(key);
        proof {
            assert(key_views(keys@) == key_views(before).push(key@));
            assert(item_keys(views).take(i + 1) == item_keys(views).take(i as int).push(key@));
        }
        i += 1;
    }
    proof {
        assert(item_keys(views).take(i as int) == item_keys(views));
        assert(key_views(keys@).len() == keys@.len());
        lemma_deduped_by_item_keys(views);
    }
    dedupe_by_keys(items, &keys)
}

proof fn lemma_deduped_keys(items: Seq<wire::ItemView>)
    ensures
        forall|key: Seq<char>| #[trigger] has_key(deduped(items), key) == has_key(items, key),
    decreases items.len(),
{
    if items.len() > 0 {
        let front = items.drop_last();
        let last = items.last();
        lemma_deduped_keys(front);
        assert forall|key: Seq<char>| #[trigger] has_key(deduped(items), key) == has_key(
            items,
            key,
        ) by {
            lemma_has_key_push(front, last, key);
            lemma_has_key_push(deduped(front), last, key);
            assert(front.push(last) == items);
            assert(has_key(deduped(front), key) == has_key(front, key));
        }
    }
}

proof fn lemma_has_key_push(items: Seq<wire::ItemView>, item: wire::ItemView, key: Seq<char>)
    ensures
        has_key(items.push(item), key) == (has_key(items, key) || item_key(item) == key),
{
    let all = items.push(item);
    assert(item_key(all[items.len() as int]) == item_key(item));
    if has_key(items, key) {
        let i = choose|i: int| 0 <= i < items.len() && #[trigger] item_key(items[i]) == key;
        assert(item_key(all[i]) == key);
    }
    if has_key(all, key) {
        let i = choose|i: int| 0 <= i < all.len() && #[trigger] item_key(all[i]) == key;
        if i < items.len() {
            assert(item_key(items[i]) == key);
        }
    }
}

/// After deduplication no two items are duplicates of each other, and every
/// item of the input has its like in the output.
pub proof fn law_deduped_keys_once(items: Seq<wire::ItemView>)
    ensures
        forall|i: int, j: int|
            0 <= i < j < deduped(items).len() ==> item_key(deduped(items)[i]) != item_key(
                deduped(items)[j],
            ),
        forall|i: int|
            0 <= i < items.len() ==> has_key(deduped(items), #[trigger] item_key(items[i])),
    decreases items.len(),
{
    lemma_deduped_keys(items);
    if items.len() > 0 {
        let front = items.drop_last();
        law_deduped_keys_once(front);
        lemma_deduped_keys(front);
        let out = deduped(items);
        assert forall|i: int, j: int| 0 <= i < j < out.len() implies item_key(out[i]) != item_key(
            out[j],
        ) by {
            let old_out = deduped(front);
            if j == old_out.len() {
                assert(!has_key(old_out, item_key(items.last())));
                assert(item_key(old_out[i]) == item_key(out[i]));
            } else {
                assert(old_out[i] == out[i] && old_out[j] == out[j]);
            }
        }
    }
}

proof fn lemma_deduped_distinct(items: Seq<wire::ItemView>)
    requires
        forall|i: int, j: int|
            0 <= i < j < items.len() ==> item_key(items[i]) != item_key(items[j]),
    ensures
        deduped(items) == items,
    decreases items.len(),
{
    if items.len() > 0 {
        let front = items.drop_last();
        assert forall|i: int, j: int| 0 <= i < j < front.len() implies item_key(front[i])
            != item_key(front[j]) by {
            assert(front[i] == items[i] && front[j] == items[j]);
        }
        lemma_deduped_distinct(front);
        if has_key(front, item_key(items.last())) {
            let i = choose|i: int|
                0 <= i < front.len() && #[trigger] item_key(front[i]) == item_key(items.last());
            assert(item_key(items[i]) != item_key(items[items.len() - 1]));
        }
        assert(front.push(items.last()) == items);
    }
}

/// Deduplicating again changes nothing, and items without duplicates stay as
/// they are.
pub proof fn law_dedupe_idempotent(items: Seq<wire::ItemView>)
    ensures
        deduped(deduped(items)) == deduped(items),
        (forall|i: int, j: int|
            0 <= i < j < items.len() ==> item_key(items[i]) != item_key(items[j])) ==> deduped(
            items,
        ) == items,
{
    law_deduped_keys_once(items);
    lemma_deduped_distinct(deduped(items));
    if forall|i: int, j: int|
        0 <= i < j < items.len() ==> item_key(items[i]) != item_key(items[j]) {
        lemma_deduped_distinct(items);
    }
}

/// Two items are duplicates just where their whole texts are the same once white
/// space is collapsed and both are lower-cased; of two that differ anywhere both
/// stay.
pub proof fn law_duplicates_have_the_same_text(a: wire::ItemView, b: wire::ItemView)
    ensures
        deduped(seq![a, b]) == (if text::lowercase(text::joined(text::words(a.text)))
            == text::lowercase(text::joined(text::words(b.text))) {
            seq![a]
        } else {
            seq![a, b]
        }),
{
    let one = seq![a];
    let two = seq![a, b];
    let none = Seq::<wire::ItemView>::empty();
    assert(one.drop_last() == none);
    assert(two.drop_last() == one);
    assert(!has_key(none, item_key(a)));
    assert(deduped(none) == none);
    assert(deduped(one) == one);
    lemma_has_key_push(none, a, item_key(b));
    assert(none.push(a) == one);
    assert(one.push(b) == two);
}

/// An item stays just where no item before it has the same text, white space and
/// case aside. What stays keeps its order and its citation.
pub proof fn law_item_stays_if_new(items: Seq<wire::ItemView>, n: int)
    requires
        0 <= n < items.len(),
    ensures
        deduped(items.take(n + 1)) == (if exists|i: int|
            0 <= i < n && text::lowercase(text::joined(text::words((#[trigger] items[i]).text)))
                == text::lowercase(text::joined(text::words(items[n].text))) {
            deduped(items.take(n))
        } else {
            deduped(items.take(n)).push(items[n])
        }),
        deduped(items.take(n)).is_prefix_of(deduped(items)),
    decreases items.len() - n,
{
    let now = items.take(n + 1);
    let before = items.take(n);
    let key = item_key(items[n]);
    assert(now.drop_last() == before);
    assert(now.last() == items[n]);
    if has_key(before, key) {
        let i = choose|i: int| 0 <= i < before.len() && #[trigger] item_key(before[i]) == key;
        assert(before[i] == items[i]);
    }
    if exists|i: int|
        0 <= i < n && text::lowercase(text::joined(text::words((#[trigger] items[i]).text)))
            == text::lowercase(text::joined(text::words(items[n].text))) {
        let i = choose|i: int|
            0 <= i < n && text::lowercase(text::joined(text::words((#[trigger] items[i]).text)))
                == text::lowercase(text::joined(text::words(items[n].text)));
        assert(before[i] == items[i]);
        assert(item_key(before[i]) == key);
    }
    if n + 1 < items.len() {
        law_item_stays_if_new(items, n + 1);
    } else {
        assert(now == items);
    }
}

/// Given keys instead of texts, an item stays just where its key is new.
pub proof fn law_item_stays_if_key_is_new(
    items: Seq<wire::ItemView>,
    keys: Seq<Seq<char>>,
    n: int,
)
    requires
        items.len() == keys.len(),
        0 <= n < items.len(),
    ensures
        deduped_by(items.take(n + 1), keys.take(n + 1)) == (if exists|i: int|
            0 <= i < n && #[trigger] keys[i] == keys[n] {
            deduped_by(items.take(n), keys.take(n))
        } else {
            deduped_by(items.take(n), keys.take(n)).push(items[n])
        }),
{
    let before = keys.take(n);
    assert(items.take(n + 1).drop_last() == items.take(n));
    assert(keys.take(n + 1).drop_last() == before);
    assert(items.take(n + 1).last() == items[n]);
    assert(keys.take(n + 1).last() == keys[n]);
    if before.contains(keys[n]) {
        let i = choose|i: int| 0 <= i < n && before[i] == keys[n];
        assert(keys[i] == keys[n]);
    }
    if exists|i: int| 0 <= i < n && #[trigger] keys[i] == keys[n] {
        let i = choose|i: int| 0 <= i < n && #[trigger] keys[i] == keys[n];
        assert(before[i] == keys[n]);
    }
}

/// Deduplicating keeps items clean.
pub proof fn lemma_deduped_clean(items: Seq<wire::ItemView>)
    requires
        clean_items(items),
    ensures
        clean_items(deduped(items)),
        items.len() > 0 ==> deduped(items).len() > 0,
    decreases items.len(),
{
    if items.len() > 0 {
        let front = items.drop_last();
        assert forall|i: int| 0 <= i < front.len() implies (#[trigger] front[i]).text.len() > 0
            && !ends_in_timecode(front[i].text) by {
            assert(front[i] == items[i]);
        }
        lemma_deduped_clean(front);
        assert(items.last() == items[items.len() - 1]);
        if front.len() == 0 {
            assert(!has_key(front, item_key(items.last())));
        }
    }
}

/// Deduplicating adds no citation.
pub proof fn lemma_deduped_within(items: Seq<wire::ItemView>, end: u64)
    requires
        wire::items_within(items, end),
    ensures
        wire::items_within(deduped(items), end),
    decreases items.len(),
{
    if items.len() > 0 {
        let front = items.drop_last();
        assert forall|i: int| 0 <= i < front.len() implies ((
        #[trigger] front[i]).source_secs matches Some(secs) ==> secs <= end) by {
            assert(front[i] == items[i]);
        }
        lemma_deduped_within(front, end);
        assert(items.last() == items[items.len() - 1]);
    }
}

} // verus!
