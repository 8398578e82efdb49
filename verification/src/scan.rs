//! JSON as a language model writes it: finding the object in a chatty
//! response and repairing trailing commas.

use vstd::prelude::*;

use crate::text;
use crate::text::{chars_of, white_space};

verus! {

// --- strings inside JSON ---------------------------------------------

/// Where a reader stands with respect to JSON strings.
pub struct StringState {
    pub in_string: bool,
    pub escaped: bool,
}

/// The state after one more character: a quote opens a string, an unescaped
/// quote closes it, and inside a string a backslash escapes one character.
pub open spec fn after_char(state: StringState, c: char) -> StringState {
    if state.in_string {
        if state.escaped {
            StringState { in_string: true, escaped: false }
        } else if c == '\\' {
            StringState { in_string: true, escaped: true }
        } else {
            StringState { in_string: c != '"', escaped: false }
        }
    } else {
        StringState { in_string: c == '"', escaped: false }
    }
}

/// The state after a whole text.
pub open spec fn string_state(s: Seq<char>) -> StringState
    decreases s.len(),
{
    if s.len() == 0 {
        StringState { in_string: false, escaped: false }
    } else {
        after_char(string_state(s.drop_last()), s.last())
    }
}

// --- trailing commas -------------------------------------------------

/// Whether the first character of `s` that is not white space closes an
/// object or an array.
pub open spec fn closes_next(s: Seq<char>) -> bool {
    let rest = text::trim_start(s);
    rest.len() > 0 && (rest[0] == '}' || rest[0] == ']')
}

/// Whether the character at `i` is a trailing comma: one outside strings that
/// a closing brace or bracket follows.
pub open spec fn is_trailing_comma(s: Seq<char>, i: int) -> bool {
    &&& s[i] == ','
    &&& !string_state(s.take(i)).in_string
    &&& closes_next(s.skip(i + 1))
}

/// The first `n` characters without the trailing commas among them.
pub open spec fn repaired_prefix(s: Seq<char>, n: int) -> Seq<char>
    decreases n,
{
    if n <= 0 {
        Seq::empty()
    } else if is_trailing_comma(s, n - 1) {
        repaired_prefix(s, n - 1)
    } else {
        repaired_prefix(s, n - 1).push(s[n - 1])
    }
}

/// The text without its trailing commas.
pub open spec fn repaired(s: Seq<char>) -> Seq<char> {
    repaired_prefix(s, s.len() as int)
}

/// Whether a closing brace or bracket comes next, from `from` on.
fn closes_from(chars: &Vec<char>, from: usize) -> (r: bool)
    requires
        from <= chars@.len(),
    ensures
        r == closes_next(chars@.skip(from as int)),
{
    let mut j: usize = from;
    while j < chars.len() && white_space(chars[j])
        invariant
            from <= j <= chars@.len(),
            text::trim_start(chars@.skip(j as int)) == text::trim_start(chars@.skip(from as int)),
        decreases chars@.len() - j,
    {
        assert(chars@.skip(j as int).drop_first() == chars@.skip(j + 1));
        j += 1;
    }
    assert(j < chars@.len() ==> chars@.skip(j as int)[0] == chars@[j as int]);
    j < chars.len() && (chars[j] == '}' || chars[j] == ']')
}

/// Drops trailing commas (`,` before `}` or `]`), the most common way a small
/// model's JSON fails strict parsing. String contents are left untouched.
pub fn strip_trailing_commas(json: &str) -> (out: String)
    ensures
        out@ == repaired(json@),
{
    let chars = chars_of(json);
    let mut out = String::new();
    let mut in_string = false;
    let mut escaped = false;
    let mut i: usize = 0;
    assert(chars@.take(0) == Seq::<char>::empty());
    while i < chars.len()
        invariant
            i <= chars@.len(),
            out@ == repaired_prefix(chars@, i as int),
            string_state(chars@.take(i as int)) == (StringState { in_string, escaped }),
        decreases chars@.len() - i,
    {
        let c = chars[i];
        proof {
            assert(chars@.take(i + 1).drop_last() == chars@.take(i as int));
            assert(chars@.take(i + 1).last() == c);
        }
        if in_string {
            out.push(c);
            if escaped {
                escaped = false;
            } else if c == '\\' {
                escaped = true;
            } else if c == '"' {
                in_string = false;
            }
        } else if c == '"' {
            in_string = true;
            out.push(c);
        } else if !(c == ',' && closes_from(&chars, i + 1)) {
            out.push(c);
        }
        i += 1;
    }
    out
}

/// A text that has no trailing comma comes out of the repair unchanged.
pub proof fn law_repair_leaves_strict_text(s: Seq<char>)
    requires
        forall|i: int| 0 <= i < s.len() ==> !#[trigger] is_trailing_comma(s, i),
    ensures
        repaired(s) == s,
{
    lemma_repair_strict_prefix(s, s.len() as int);
    assert(s.take(s.len() as int) == s);
}

proof fn lemma_repair_strict_prefix(s: Seq<char>, n: int)
    requires
        0 <= n <= s.len(),
        forall|i: int| 0 <= i < s.len() ==> !#[trigger] is_trailing_comma(s, i),
    ensures
        repaired_prefix(s, n) == s.take(n),
    decreases n,
{
    if n > 0 {
        lemma_repair_strict_prefix(s, n - 1);
        assert(!is_trailing_comma(s, n - 1));
        assert(s.take(n) == s.take(n - 1).push(s[n - 1]));
    }
}

/// The repair removes commas and nothing else: every other character stays,
/// in its order.
pub proof fn law_repair_removes_only_commas(s: Seq<char>)
    ensures
        repaired(s).filter(|c: char| c != ',') == s.filter(|c: char| c != ','),
{
    lemma_repair_prefix_commas(s, s.len() as int);
    assert(s.take(s.len() as int) == s);
}

proof fn lemma_repair_prefix_commas(s: Seq<char>, n: int)
    requires
        0 <= n <= s.len(),
    ensures
        repaired_prefix(s, n).filter(|c: char| c != ',') == s.take(n).filter(|c: char| c != ','),
    decreases n,
{
    let other = |c: char| c != ',';
    reveal(Seq::filter);
    if n > 0 {
        lemma_repair_prefix_commas(s, n - 1);
        assert(s.take(n).drop_last() == s.take(n - 1));
        assert(s.take(n).last() == s[n - 1]);
        if !is_trailing_comma(s, n - 1) {
            assert(repaired_prefix(s, n).drop_last() == repaired_prefix(s, n - 1));
        }
    } else {
        assert(s.take(0) == Seq::<char>::empty());
    }
}

/// The characters of a text that stand inside its JSON strings, each with the
/// quote that closes it.
pub open spec fn string_contents(s: Seq<char>) -> Seq<char>
    decreases s.len(),
{
    if s.len() == 0 {
        Seq::empty()
    } else if string_state(s.drop_last()).in_string {
        string_contents(s.drop_last()).push(s.last())
    } else {
        string_contents(s.drop_last())
    }
}

/// The repair leaves the contents of strings untouched.
pub proof fn law_repair_keeps_strings(s: Seq<char>)
    ensures
        string_contents(repaired(s)) == string_contents(s),
{
    lemma_repair_prefix_strings(s, s.len() as int);
    assert(s.take(s.len() as int) == s);
}

proof fn lemma_outside_unescaped(s: Seq<char>)
    ensures
        !string_state(s).in_string ==> !string_state(s).escaped,
{
}

proof fn lemma_repair_prefix_strings(s: Seq<char>, n: int)
    requires
        0 <= n <= s.len(),
    ensures
        string_state(repaired_prefix(s, n)) == string_state(s.take(n)),
        string_contents(repaired_prefix(s, n)) == string_contents(s.take(n)),
    decreases n,
{
    if n > 0 {
        lemma_repair_prefix_strings(s, n - 1);
        lemma_outside_unescaped(s.take(n - 1));
        assert(s.take(n).drop_last() == s.take(n - 1));
        assert(s.take(n).last() == s[n - 1]);
        if !is_trailing_comma(s, n - 1) {
            assert(repaired_prefix(s, n).drop_last() == repaired_prefix(s, n - 1));
            assert(repaired_prefix(s, n).last() == s[n - 1]);
        }
    } else {
        assert(s.take(0) == Seq::<char>::empty());
    }
}

proof fn lemma_string_state_push(s: Seq<char>, c: char)
    ensures
        string_state(s.push(c)) == after_char(string_state(s), c),
{
    assert(s.push(c).drop_last() == s);
}

/// Text without quotes leaves the reader outside strings.
pub proof fn law_plain_text_opens_no_string(a: Seq<char>, body: Seq<char>)
    requires
        !string_state(a).in_string,
        forall|i: int| 0 <= i < body.len() ==> #[trigger] body[i] != '"',
    ensures
        !string_state(a + body).in_string,
    decreases body.len(),
{
    if body.len() == 0 {
        assert(a + body == a);
    } else {
        let front = body.drop_last();
        law_plain_text_opens_no_string(a, front);
        assert(a + body == (a + front).push(body[body.len() - 1]));
        lemma_string_state_push(a + front, body[body.len() - 1]);
    }
}

/// A quote opens a string, and the next quote closes it; what stands between,
/// without quotes and backslashes, is inside.
pub proof fn law_quotes_open_and_close(a: Seq<char>, body: Seq<char>)
    requires
        !string_state(a).in_string,
        forall|i: int| 0 <= i < body.len() ==> #[trigger] body[i] != '"' && body[i] != '\\',
    ensures
        string_state(a.push('"') + body) == (StringState { in_string: true, escaped: false }),
        string_state((a.push('"') + body).push('"')) == (StringState {
            in_string: false,
            escaped: false,
        }),
    decreases body.len(),
{
    lemma_outside_unescaped(a);
    if body.len() == 0 {
        assert(a.push('"') + body == a.push('"'));
        lemma_string_state_push(a, '"');
    } else {
        let front = body.drop_last();
        law_quotes_open_and_close(a, front);
        assert(a.push('"') + body == (a.push('"') + front).push(body[body.len() - 1]));
        lemma_string_state_push(a.push('"') + front, body[body.len() - 1]);
    }
    lemma_string_state_push(a.push('"') + body, '"');
}

/// Inside a string a backslash takes the next character with it, a quote or
/// another backslash too.
pub proof fn law_backslash_escapes(s: Seq<char>, c: char)
    requires
        string_state(s) == (StringState { in_string: true, escaped: false }),
    ensures
        string_state(s.push('\\').push(c)) == string_state(s),
{
    lemma_string_state_push(s, '\\');
    lemma_string_state_push(s.push('\\'), c);
}

proof fn lemma_trim_start_at(w: Seq<char>, c: char, b: Seq<char>)
    requires
        forall|i: int| 0 <= i < w.len() ==> text::is_white_space(#[trigger] w[i]),
        !text::is_white_space(c),
    ensures
        text::trim_start(w.push(c) + b) == seq![c] + b,
    decreases w.len(),
{
    let s = w.push(c) + b;
    if w.len() == 0 {
        assert(s == seq![c] + b);
        assert(s[0] == c);
    } else {
        assert(s[0] == w[0]);
        assert(s.drop_first() == w.drop_first().push(c) + b);
        lemma_trim_start_at(w.drop_first(), c, b);
    }
}

/// A comma is a trailing comma just where it stands outside strings and the next
/// character that is not white space is a closing brace or bracket.
pub proof fn law_trailing_comma_told(a: Seq<char>, w: Seq<char>, c: char, b: Seq<char>)
    requires
        forall|i: int| 0 <= i < w.len() ==> text::is_white_space(#[trigger] w[i]),
        !text::is_white_space(c),
    ensures
        is_trailing_comma(a.push(',') + (w.push(c) + b), a.len() as int) == (!string_state(
            a,
        ).in_string && (c == '}' || c == ']')),
        !is_trailing_comma(a.push(',') + w, a.len() as int),
{
    let s = a.push(',') + (w.push(c) + b);
    let n = a.len() as int;
    assert(s.take(n) == a);
    assert(s.skip(n + 1) == w.push(c) + b);
    lemma_trim_start_at(w, c, b);
    let t = a.push(',') + w;
    assert(t.skip(n + 1) == w);
    lemma_all_white(w);
}

proof fn lemma_all_white(w: Seq<char>)
    requires
        forall|i: int| 0 <= i < w.len() ==> text::is_white_space(#[trigger] w[i]),
    ensures
        text::trim_start(w).len() == 0,
    decreases w.len(),
{
    if w.len() > 0 {
        assert(text::is_white_space(w[0]));
        lemma_all_white(w.drop_first());
    }
}

proof fn lemma_kept_positions(s: Seq<char>, n: int) -> (kept: Seq<int>)
    requires
        0 <= n <= s.len(),
    ensures
        repaired_prefix(s, n).len() == kept.len(),
        forall|j: int| 0 <= j < kept.len() ==> 0 <= #[trigger] kept[j] < n,
        forall|j: int| 0 <= j < kept.len() ==> repaired_prefix(s, n)[j] == s[#[trigger] kept[j]],
        forall|j: int, k: int| 0 <= j < k < kept.len() ==> #[trigger] kept[j] < #[trigger] kept[k],
        forall|i: int| 0 <= i < n ==> (#[trigger] kept.contains(i) == !is_trailing_comma(s, i)),
    decreases n,
{
    if n == 0 {
        Seq::empty()
    } else {
        let before = lemma_kept_positions(s, n - 1);
        if is_trailing_comma(s, n - 1) {
            if before.contains(n - 1) {
                let j = choose|j: int| 0 <= j < before.len() && before[j] == n - 1;
                assert(before[j] < n - 1);
            }
            before
        } else {
            let kept = before.push(n - 1);
            assert forall|i: int| 0 <= i < n implies (#[trigger] kept.contains(i)
                == !is_trailing_comma(s, i)) by {
                if i == n - 1 {
                    assert(kept[before.len() as int] == i);
                } else {
                    assert(before.contains(i) == !is_trailing_comma(s, i));
                    if before.contains(i) {
                        let j = choose|j: int| 0 <= j < before.len() && before[j] == i;
                        assert(kept[j] == i);
                    }
                    if kept.contains(i) {
                        let j = choose|j: int| 0 <= j < kept.len() && kept[j] == i;
                        assert(before[j] == i);
                    }
                }
            }
            kept
        }
    }
}

/// The repair keeps just the characters that are no trailing commas, each once
/// and in its order, however long the text is. The positions it keeps are
/// returned.
pub proof fn law_repair_drops_every_trailing_comma(s: Seq<char>) -> (kept: Seq<int>)
    ensures
        repaired(s).len() == kept.len(),
        forall|j: int| 0 <= j < kept.len() ==> 0 <= #[trigger] kept[j] < s.len(),
        forall|j: int| 0 <= j < kept.len() ==> repaired(s)[j] == s[#[trigger] kept[j]],
        forall|j: int, k: int| 0 <= j < k < kept.len() ==> #[trigger] kept[j] < #[trigger] kept[k],
        forall|i: int|
            0 <= i < s.len() ==> (#[trigger] kept.contains(i) == !is_trailing_comma(s, i)),
{
    lemma_kept_positions(s, s.len() as int)
}

// --- the object in a response ----------------------------------------

/// Where a reader stands in a block of braces.
pub struct BlockState {
    pub depth: int,
    pub string: StringState,
}

/// The state after a whole text: how many braces are open, counting only
/// those outside strings.
pub open spec fn block_state(s: Seq<char>) -> BlockState
    decreases s.len(),
{
    if s.len() == 0 {
        BlockState { depth: 0, string: StringState { in_string: false, escaped: false } }
    } else {
        let before = block_state(s.drop_last());
        let c = s.last();
        BlockState {
            depth: if before.string.in_string {
                before.depth
            } else if c == '{' {
                before.depth + 1
            } else if c == '}' {
                before.depth - 1
            } else {
                before.depth
            },
            string: after_char(before.string, c),
        }
    }
}

/// A balanced block: it opens with a brace, and its last character is the one
/// that closes that brace.
pub open spec fn is_block(s: Seq<char>) -> bool {
    &&& s.len() > 0
    &&& s[0] == '{'
    &&& block_state(s).depth == 0
    &&& forall|n: int| 0 < n < s.len() ==> #[trigger] block_state(s.take(n)).depth > 0
}

/// The text from its first opening brace on; empty if it has none.
pub open spec fn from_brace(s: Seq<char>) -> Seq<char>
    decreases s.len(),
{
    if s.len() == 0 || s[0] == '{' {
        s
    } else {
        from_brace(s.drop_first())
    }
}

/// Whether the first `n` characters from the first brace on are a block.
pub open spec fn block_ends(s: Seq<char>, n: int) -> bool {
    0 < n <= from_brace(s).len() && is_block(from_brace(s).take(n))
}

/// The first balanced block of a text, braces in strings not counted.
pub open spec fn json_block(s: Seq<char>) -> Option<Seq<char>> {
    if exists|n: int| block_ends(s, n) {
        Some(from_brace(s).take(choose|n: int| block_ends(s, n)))
    } else {
        None
    }
}

proof fn lemma_block_end_unique(s: Seq<char>, n: int, m: int)
    requires
        block_ends(s, n),
        block_ends(s, m),
    ensures
        n == m,
{
    let t = from_brace(s);
    if n < m {
        assert(t.take(m).take(n) == t.take(n));
    } else if m < n {
        assert(t.take(n).take(m) == t.take(m));
    }
}

proof fn lemma_json_block(s: Seq<char>, n: int)
    requires
        block_ends(s, n),
    ensures
        json_block(s) == Some(from_brace(s).take(n)),
{
    let k = choose|k: int| block_ends(s, k);
    lemma_block_end_unique(s, n, k);
}

/// Extracts the first balanced `{...}` block, ignoring braces in strings.
pub fn extract_json_object(text: &str) -> (block: Option<&str>)
    ensures
        match block {
            Some(b) => json_block(text@) == Some(b@),
            None => json_block(text@) is None,
        },
{
    let chars = chars_of(text);
    let mut start: usize = 0;
    assert(chars@.skip(0) == chars@);
    while start < chars.len() && chars[start] != '{'
        invariant
            start <= chars@.len(),
            from_brace(chars@) == from_brace(chars@.skip(start as int)),
        decreases chars@.len() - start,
    {
        assert(chars@.skip(start as int).drop_first() == chars@.skip(start + 1));
        start += 1;
    }
    let ghost t = chars@.skip(start as int);
    assert(from_brace(chars@) == t);
    let mut depth: usize = 0;
    let mut in_string = false;
    let mut escaped = false;
    let mut i: usize = start;
    assert(t.take(0) == Seq::<char>::empty());
    while i < chars.len()
        invariant
            start <= i <= chars@.len(),
            t == chars@.skip(start as int),
            t == from_brace(text@),
            chars@ == text@,
            t.len() > 0 ==> t[0] == '{',
            block_state(t.take(i - start)) == (BlockState {
                depth: depth as int,
                string: StringState { in_string, escaped },
            }),
            depth <= i - start,
            i > start ==> depth > 0,
            forall|n: int| 0 < n <= i - start ==> #[trigger] block_state(t.take(n)).depth > 0,
        decreases chars@.len() - i,
    {
        let c = chars[i];
        proof {
            assert(t.take(i - start + 1).drop_last() == t.take(i - start));
            assert(t.take(i - start + 1).last() == c);
            assert(i == start ==> c == '{');
        }
        if in_string {
            if escaped {
                escaped = false;
            } else if c == '\\' {
                escaped = true;
            } else if c == '"' {
                in_string = false;
            }
        } else if c == '"' {
            in_string = true;
        } else if c == '{' {
            depth += 1;
        } else if c == '}' {
            depth -= 1;
            if depth == 0 {
                proof {
                    let b = t.take(i - start + 1);
                    assert forall|n: int| 0 < n < b.len() implies #[trigger] block_state(
                        b.take(n),
                    ).depth > 0 by {
                        assert(b.take(n) == t.take(n));
                    }
                    assert(block_ends(text@, i - start + 1));
                    lemma_json_block(text@, i - start + 1);
                    assert(t.take(i - start + 1) == text@.subrange(start as int, i + 1));
                }
                return Some(text.substring_char(start, i + 1));
            }
        }
        i += 1;
    }
    proof {
        assert forall|n: int| !block_ends(text@, n) by {
            if 0 < n <= t.len() {
                assert(block_state(t.take(n)).depth > 0);
            }
        }
    }
    None
}

proof fn lemma_from_brace_prose(prose: Seq<char>, s: Seq<char>)
    requires
        !prose.contains('{'),
        s.len() > 0,
        s[0] == '{',
    ensures
        from_brace(prose + s) == s,
    decreases prose.len(),
{
    if prose.len() == 0 {
        assert(prose + s == s);
    } else {
        assert(prose.contains(prose[0]));
        assert forall|c: char| prose.drop_first().contains(c) implies prose.contains(c) by {
            let k = choose|k: int| 0 <= k < prose.len() - 1 && prose.drop_first()[k] == c;
            assert(prose[k + 1] == c);
        }
        assert((prose + s).drop_first() == prose.drop_first() + s);
        lemma_from_brace_prose(prose.drop_first(), s);
    }
}

/// A block is found whatever surrounds it, as long as no brace comes before
/// it: prose and code fences around the object do not matter.
pub proof fn law_block_found_amid_prose(before: Seq<char>, block: Seq<char>, after: Seq<char>)
    requires
        !before.contains('{'),
        is_block(block),
    ensures
        json_block(before + block + after) == Some(block),
{
    let s = before + block + after;
    assert(s == before + (block + after));
    lemma_from_brace_prose(before, block + after);
    assert((block + after).take(block.len() as int) == block);
    assert(block_ends(s, block.len() as int));
    lemma_json_block(s, block.len() as int);
}

proof fn lemma_from_brace_suffix(s: Seq<char>)
    ensures
        from_brace(s).len() <= s.len(),
        from_brace(s) == s.skip(s.len() - from_brace(s).len()),
        forall|i: int| 0 <= i < s.len() - from_brace(s).len() ==> #[trigger] s[i] != '{',
    decreases s.len(),
{
    if s.len() == 0 || s[0] == '{' {
        assert(s.skip(0) == s);
    } else {
        lemma_from_brace_suffix(s.drop_first());
        let n = from_brace(s).len();
        assert(s.drop_first().skip(s.len() - 1 - n) == s.skip(s.len() - n));
        assert forall|i: int| 0 <= i < s.len() - n implies #[trigger] s[i] != '{' by {
            if i > 0 {
                assert(s.drop_first()[i - 1] == s[i]);
            }
        }
    }
}

/// What is extracted is a balanced block of the text, with no opening brace
/// before it, and extracting from it again gives it back.
pub proof fn law_extracted_block(s: Seq<char>)
    requires
        json_block(s) is Some,
    ensures
        is_block(json_block(s)->0),
        exists|before: Seq<char>, after: Seq<char>|
            s == #[trigger] (before + json_block(s)->0 + after) && !before.contains('{'),
        json_block(json_block(s)->0) == json_block(s),
{
    let n = choose|n: int| block_ends(s, n);
    let t = from_brace(s);
    let b = t.take(n);
    lemma_from_brace_suffix(s);
    let before = s.take(s.len() - t.len());
    let after = t.skip(n);
    assert(s == before + b + after);
    assert(from_brace(b) == b);
    assert(b.take(n) == b);
    assert(block_ends(b, n));
    lemma_json_block(b, n);
}

proof fn lemma_block_state_push(s: Seq<char>, c: char)
    ensures
        block_state(s.push(c)) == (BlockState {
            depth: if block_state(s).string.in_string {
                block_state(s).depth
            } else if c == '{' {
                block_state(s).depth + 1
            } else if c == '}' {
                block_state(s).depth - 1
            } else {
                block_state(s).depth
            },
            string: after_char(block_state(s).string, c),
        }),
{
    assert(s.push(c).drop_last() == s);
}

proof fn lemma_block_string(s: Seq<char>)
    ensures
        block_state(s).string == string_state(s),
    decreases s.len(),
{
    if s.len() > 0 {
        lemma_block_string(s.drop_last());
    }
}

/// Outside strings the braces of two texts add up, whatever the texts are.
pub proof fn law_braces_add_up(a: Seq<char>, b: Seq<char>)
    requires
        !string_state(a).in_string,
    ensures
        block_state(a + b).depth == block_state(a).depth + block_state(b).depth,
        block_state(a + b).string == string_state(b),
    decreases b.len(),
{
    lemma_block_string(a);
    lemma_block_string(b);
    lemma_outside_unescaped(a);
    if b.len() == 0 {
        assert(a + b == a);
    } else {
        let front = b.drop_last();
        let c = b.last();
        law_braces_add_up(a, front);
        lemma_block_string(front);
        assert(a + b == (a + front).push(c));
        assert(front.push(c) == b);
        lemma_block_state_push(a + front, c);
        lemma_block_state_push(front, c);
    }
}

/// Braces count one each, and no other text counts: neither text without braces
/// and quotes, nor a whole string, whatever braces stand in it.
pub proof fn law_only_braces_count(plain: Seq<char>, inside: Seq<char>)
    requires
        forall|i: int|
            0 <= i < plain.len() ==> #[trigger] plain[i] != '{' && plain[i] != '}' && plain[i]
                != '"',
        forall|i: int|
            0 <= i < inside.len() ==> #[trigger] inside[i] != '"' && inside[i] != '\\',
    ensures
        block_state(seq!['{']).depth == 1,
        block_state(seq!['}']).depth == -1,
        block_state(plain).depth == 0,
        !string_state(plain).in_string,
        block_state((seq!['"'] + inside).push('"')).depth == 0,
        !string_state((seq!['"'] + inside).push('"')).in_string,
{
    let none = Seq::<char>::empty();
    lemma_block_state_push(none, '{');
    lemma_block_state_push(none, '}');
    assert(none.push('{') == seq!['{']);
    assert(none.push('}') == seq!['}']);
    lemma_plain(plain);
    lemma_inside(inside);
    let open = seq!['"'] + inside;
    assert(none.push('"') + inside == open);
    law_quotes_open_and_close(none, inside);
    lemma_block_state_push(open, '"');
}

proof fn lemma_plain(plain: Seq<char>)
    requires
        forall|i: int|
            0 <= i < plain.len() ==> #[trigger] plain[i] != '{' && plain[i] != '}' && plain[i]
                != '"',
    ensures
        block_state(plain).depth == 0,
        !string_state(plain).in_string,
    decreases plain.len(),
{
    if plain.len() > 0 {
        let front = plain.drop_last();
        let c = plain[plain.len() - 1];
        lemma_plain(front);
        lemma_block_string(front);
        assert(front.push(c) == plain);
        lemma_block_state_push(front, c);
        lemma_string_state_push(front, c);
    }
}

proof fn lemma_inside(inside: Seq<char>)
    requires
        forall|i: int|
            0 <= i < inside.len() ==> #[trigger] inside[i] != '"' && inside[i] != '\\',
    ensures
        block_state(seq!['"'] + inside).depth == 0,
    decreases inside.len(),
{
    let none = Seq::<char>::empty();
    let s = seq!['"'] + inside;
    if inside.len() == 0 {
        assert(s == none.push('"'));
        lemma_block_state_push(none, '"');
    } else {
        let front = inside.drop_last();
        lemma_inside(front);
        law_quotes_open_and_close(none, front);
        assert(none.push('"') + front == seq!['"'] + front);
        lemma_block_string(seq!['"'] + front);
        assert(s == (seq!['"'] + front).push(inside.last()));
        lemma_block_state_push(seq!['"'] + front, inside.last());
    }
}

/// Braces around any text whose own braces match make a block, however long the
/// text is and however deep its braces go; and that block is found.
pub proof fn law_matched_braces_are_a_block(
    before: Seq<char>,
    inner: Seq<char>,
    after: Seq<char>,
)
    requires
        !before.contains('{'),
        !string_state(inner).in_string,
        block_state(inner).depth == 0,
        forall|n: int|
            0 <= n <= inner.len() ==> #[trigger] block_state(inner.take(n)).depth >= 0,
    ensures
        is_block((seq!['{'] + inner).push('}')),
        json_block(before + (seq!['{'] + inner).push('}') + after) == Some(
            (seq!['{'] + inner).push('}'),
        ),
{
    let none = Seq::<char>::empty();
    let open = seq!['{'];
    let s = (open + inner).push('}');
    assert(none.push('{') == open);
    lemma_string_state_push(none, '{');
    lemma_block_state_push(none, '{');
    law_braces_add_up(open, inner);
    lemma_block_state_push(open + inner, '}');
    assert(s[0] == '{');
    assert forall|n: int| 0 < n < s.len() implies #[trigger] block_state(s.take(n)).depth > 0 by {
        assert(s.take(n) == open + inner.take(n - 1));
        law_braces_add_up(open, inner.take(n - 1));
        assert(block_state(inner.take(n - 1)).depth >= 0);
    }
    law_block_found_amid_prose(before, s, after);
}

/// A text without an opening brace holds no object.
pub proof fn law_no_brace_no_object(s: Seq<char>)
    requires
        !s.contains('{'),
    ensures
        json_block(s) is None,
{
    lemma_from_brace_suffix(s);
    let t = from_brace(s);
    assert forall|n: int| !block_ends(s, n) by {
        if block_ends(s, n) {
            assert(t.take(n)[0] == '{');
            assert(s[s.len() - t.len()] == '{');
        }
    }
}

} // verus!
