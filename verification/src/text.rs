//! Text primitives: white space, trimming, word splitting and decimal
//! numbers, each stated over the characters of a string.

use vstd::prelude::*;

verus! {

/// `String::push` appends one character to the end of the string.
pub assume_specification[ String::push ](s: &mut String, c: char)
    ensures
        final(s)@ == old(s)@.push(c),
;

/// What `str::to_lowercase` gives for a text: its lowercase equivalent under
/// the Unicode case mapping, which depends on the text alone.
pub uninterp spec fn lowercase(s: Seq<char>) -> Seq<char>;

/// Calls `str::to_lowercase`. Its result is named by [`lowercase`]; nothing
/// more is claimed of the Unicode case mapping.
#[verifier::external_body]
pub(crate) fn to_lowercase(s: &str) -> (lower: String)
    ensures
        lower@ == lowercase(s@),
{
    s.to_lowercase()
}

/// The characters with the Unicode `White_Space` property.
pub open spec fn is_white_space(c: char) -> bool {
    ||| 0x9 <= c as u32 <= 0xd
    ||| c as u32 == 0x20
    ||| c as u32 == 0x85
    ||| c as u32 == 0xa0
    ||| c as u32 == 0x1680
    ||| 0x2000 <= c as u32 <= 0x200a
    ||| c as u32 == 0x2028
    ||| c as u32 == 0x2029
    ||| c as u32 == 0x202f
    ||| c as u32 == 0x205f
    ||| c as u32 == 0x3000
}

/// Whether a character has the Unicode `White_Space` property.
pub fn white_space(c: char) -> (r: bool)
    ensures
        r == is_white_space(c),
{
    let code = c as u32;
    (0x9 <= code && code <= 0xd) || code == 0x20 || code == 0x85 || code == 0xa0 || code == 0x1680
        || (0x2000 <= code && code <= 0x200a) || code == 0x2028 || code == 0x2029 || code == 0x202f
        || code == 0x205f || code == 0x3000
}

/// `s` without its leading white space.
pub open spec fn trim_start(s: Seq<char>) -> Seq<char>
    decreases s.len(),
{
    if s.len() > 0 && is_white_space(s[0]) {
        trim_start(s.drop_first())
    } else {
        s
    }
}

/// `s` without its trailing white space.
pub open spec fn trim_end(s: Seq<char>) -> Seq<char>
    decreases s.len(),
{
    if s.len() > 0 && is_white_space(s.last()) {
        trim_end(s.drop_last())
    } else {
        s
    }
}

/// `s` without its leading and trailing white space.
pub open spec fn trimmed(s: Seq<char>) -> Seq<char> {
    trim_end(trim_start(s))
}

/// `trim_end` only shortens: what is left is a prefix that does not end in
/// white space.
pub proof fn lemma_trim_end(s: Seq<char>)
    ensures
        trim_end(s).len() <= s.len(),
        trim_end(s) == s.take(trim_end(s).len() as int),
        trim_end(s).len() > 0 ==> !is_white_space(trim_end(s).last()),
        trim_end(trim_end(s)) == trim_end(s),
    decreases s.len(),
{
    if s.len() > 0 && is_white_space(s.last()) {
        lemma_trim_end(s.drop_last());
        assert(s.drop_last().take(trim_end(s).len() as int) == s.take(trim_end(s).len() as int));
    } else {
        assert(s.take(s.len() as int) == s);
    }
}

/// `trim_start` only shortens: what is left is a suffix that does not begin
/// with white space.
pub proof fn lemma_trim_start(s: Seq<char>)
    ensures
        trim_start(s).len() <= s.len(),
        trim_start(s) == s.skip(s.len() - trim_start(s).len()),
        trim_start(s).len() > 0 ==> !is_white_space(trim_start(s)[0]),
    decreases s.len(),
{
    if s.len() > 0 && is_white_space(s[0]) {
        lemma_trim_start(s.drop_first());
        let n = trim_start(s).len();
        assert(s.drop_first().skip(s.len() - 1 - n) == s.skip(s.len() - n));
    } else {
        assert(s.skip(0) == s);
    }
}

/// Trimming a text leaves nothing to trim at either end.
pub proof fn lemma_trimmed(s: Seq<char>)
    ensures
        trimmed(s).len() <= s.len(),
        trimmed(s).len() > 0 ==> !is_white_space(trimmed(s)[0]) && !is_white_space(trimmed(s).last()),
        trimmed(trimmed(s)) == trimmed(s),
{
    lemma_trim_start(s);
    lemma_trim_end(trim_start(s));
    let t = trimmed(s);
    assert(trim_start(t) == t);
}

proof fn lemma_trim_start_lead(lead: Seq<char>, s: Seq<char>)
    requires
        forall|i: int| 0 <= i < lead.len() ==> is_white_space(#[trigger] lead[i]),
    ensures
        trim_start(lead + s) == trim_start(s),
    decreases lead.len(),
{
    if lead.len() == 0 {
        assert(lead + s == s);
    } else {
        assert((lead + s)[0] == lead[0]);
        assert((lead + s).drop_first() == lead.drop_first() + s);
        lemma_trim_start_lead(lead.drop_first(), s);
    }
}

proof fn lemma_trim_end_tail(s: Seq<char>, tail: Seq<char>)
    requires
        forall|i: int| 0 <= i < tail.len() ==> is_white_space(#[trigger] tail[i]),
    ensures
        trim_end(s + tail) == trim_end(s),
    decreases tail.len(),
{
    if tail.len() == 0 {
        assert(s + tail == s);
    } else {
        assert((s + tail).last() == tail[tail.len() - 1]);
        assert((s + tail).drop_last() == s + tail.drop_last());
        lemma_trim_end_tail(s, tail.drop_last());
    }
}

/// Trimming takes away the white space around a text and nothing else: whatever
/// white space leads and trails, the text between comes out whole.
pub proof fn law_trimmed_keeps_the_text(lead: Seq<char>, core: Seq<char>, tail: Seq<char>)
    requires
        forall|i: int| 0 <= i < lead.len() ==> is_white_space(#[trigger] lead[i]),
        forall|i: int| 0 <= i < tail.len() ==> is_white_space(#[trigger] tail[i]),
        core.len() > 0 ==> !is_white_space(core[0]) && !is_white_space(core.last()),
    ensures
        trimmed(lead + core + tail) == core,
{
    assert(lead + core + tail == lead + (core + tail));
    lemma_trim_start_lead(lead, core + tail);
    if core.len() > 0 {
        assert((core + tail)[0] == core[0]);
        lemma_trim_end_tail(core, tail);
    } else {
        let none = Seq::<char>::empty();
        assert(core + tail == tail);
        assert(tail == tail + none);
        lemma_trim_start_lead(tail, none);
    }
}

/// The characters of a string, in order.
pub fn chars_of(s: &str) -> (out: Vec<char>)
    ensures
        out@ == s@,
{
    let mut out: Vec<char> = Vec::new();
    for c in it: s.chars()
        invariant
            it.seq() == s@,
            out@ == s@.take(it.index() as int),
    {
        out.push(c);
    }
    assert(s@.take(s@.len() as int) == s@);
    out
}

/// The string made of `chars[from..to]`.
pub fn string_of(chars: &Vec<char>, from: usize, to: usize) -> (out: String)
    requires
        from <= to <= chars@.len(),
    ensures
        out@ == chars@.subrange(from as int, to as int),
{
    let mut out = String::new();
    let mut i: usize = from;
    while i < to
        invariant
            from <= i <= to <= chars@.len(),
            out@ == chars@.subrange(from as int, i as int),
        decreases to - i,
    {
        out.push(chars[i]);
        i += 1;
        assert(chars@.subrange(from as int, i as int) == chars@.subrange(from as int, i - 1).push(
            chars@[i - 1],
        ));
    }
    out
}

/// `s` without leading and trailing white space.
pub fn trim(s: &str) -> (r: &str)
    ensures
        r@ == trimmed(s@),
{
    let chars = chars_of(s);
    let mut from: usize = 0;
    assert(chars@.skip(0) == chars@);
    while from < chars.len() && white_space(chars[from])
        invariant
            from <= chars@.len(),
            trim_start(chars@) == trim_start(chars@.skip(from as int)),
        decreases chars@.len() - from,
    {
        assert(chars@.skip(from as int).drop_first() == chars@.skip(from + 1));
        from += 1;
    }
    let mut to: usize = chars.len();
    assert(chars@.subrange(from as int, to as int) == chars@.skip(from as int));
    while to > from && white_space(chars[to - 1])
        invariant
            from <= to <= chars@.len(),
            trimmed(chars@) == trim_end(chars@.subrange(from as int, to as int)),
        decreases to,
    {
        assert(chars@.subrange(from as int, to as int).drop_last() == chars@.subrange(
            from as int,
            to - 1,
        ));
        to -= 1;
    }
    s.substring_char(from, to)
}

// --- words -----------------------------------------------------------

/// The maximal runs of characters that are not white space, in order.
pub open spec fn words(s: Seq<char>) -> Seq<Seq<char>>
    decreases s.len(),
{
    if s.len() == 0 {
        Seq::empty()
    } else if is_white_space(s.last()) {
        words(s.drop_last())
    } else if s.len() >= 2 && !is_white_space(s[s.len() - 2]) {
        let before = words(s.drop_last());
        before.drop_last().push(before.last().push(s.last()))
    } else {
        words(s.drop_last()).push(seq![s.last()])
    }
}

/// The parts with one space between each two.
pub open spec fn joined(parts: Seq<Seq<char>>) -> Seq<char>
    decreases parts.len(),
{
    if parts.len() == 0 {
        Seq::empty()
    } else if parts.len() == 1 {
        parts[0]
    } else {
        joined(parts.drop_last()) + seq![' '] + parts.last()
    }
}

proof fn lemma_words_nonempty(s: Seq<char>)
    ensures
        s.len() > 0 && !is_white_space(s.last()) ==> words(s).len() > 0,
        forall|i: int| 0 <= i < words(s).len() ==> (#[trigger] words(s)[i]).len() > 0,
    decreases s.len(),
{
    if s.len() > 0 {
        lemma_words_nonempty(s.drop_last());
        if !is_white_space(s.last()) && s.len() >= 2 && !is_white_space(s[s.len() - 2]) {
            assert(s.drop_last().last() == s[s.len() - 2]);
        }
    }
}

proof fn lemma_joined_push(parts: Seq<Seq<char>>, part: Seq<char>)
    ensures
        joined(parts.push(part)) == (if parts.len() == 0 {
            part
        } else {
            joined(parts) + seq![' '] + part
        }),
{
    assert(parts.push(part).drop_last() == parts);
}

proof fn lemma_joined_extend(parts: Seq<Seq<char>>, c: char)
    requires
        parts.len() > 0,
    ensures
        joined(parts.drop_last().push(parts.last().push(c))) == joined(parts).push(c),
{
    let front = parts.drop_last();
    assert(front.push(parts.last()) == parts);
    lemma_joined_push(front, parts.last());
    lemma_joined_push(front, parts.last().push(c));
    if front.len() > 0 {
        assert(joined(front) + seq![' '] + parts.last().push(c) == (joined(front) + seq![' ']
            + parts.last()).push(c));
    }
}

proof fn lemma_joined_empty(parts: Seq<Seq<char>>)
    requires
        forall|i: int| 0 <= i < parts.len() ==> (#[trigger] parts[i]).len() > 0,
    ensures
        joined(parts).len() == 0 <==> parts.len() == 0,
{
    if parts.len() > 0 {
        assert(parts[parts.len() - 1].len() > 0);
    }
}

/// A text without white space is a single word.
pub proof fn law_words_of_a_word(s: Seq<char>)
    requires
        s.len() > 0,
        forall|i: int| 0 <= i < s.len() ==> !is_white_space(#[trigger] s[i]),
    ensures
        words(s) == seq![s],
    decreases s.len(),
{
    let front = s.drop_last();
    assert(!is_white_space(s[s.len() - 1]));
    if s.len() >= 2 {
        assert(!is_white_space(s[s.len() - 2]));
        assert forall|i: int| 0 <= i < front.len() implies !is_white_space(
            #[trigger] front[i],
        ) by {
            assert(front[i] == s[i]);
        }
        law_words_of_a_word(front);
        assert(front.push(s.last()) == s);
        assert(seq![front].drop_last().push(front.push(s.last())) == seq![s]);
    } else {
        assert(front == Seq::<char>::empty());
        assert(words(front) == Seq::<Seq<char>>::empty());
        assert(seq![s.last()] == s);
    }
}

/// White space parts words, and does nothing else: the words of a text are
/// those before any of its white space and those after it.
pub proof fn law_words_part_at_white_space(a: Seq<char>, w: char, b: Seq<char>)
    requires
        is_white_space(w),
    ensures
        words(a.push(w) + b) == words(a) + words(b),
    decreases b.len(),
{
    let s = a.push(w) + b;
    if b.len() == 0 {
        assert(s == a.push(w));
        assert(s.drop_last() == a);
        assert(words(a) + words(b) == words(a));
    } else {
        let c = b.last();
        let front = b.drop_last();
        assert(s.last() == c);
        assert(s.drop_last() == a.push(w) + front);
        law_words_part_at_white_space(a, w, front);
        if !is_white_space(c) {
            if b.len() >= 2 {
                assert(s[s.len() - 2] == b[b.len() - 2]);
                if !is_white_space(b[b.len() - 2]) {
                    assert(front.last() == b[b.len() - 2]);
                    lemma_words_nonempty(front);
                    let x = words(a);
                    let y = words(front);
                    assert((x + y).drop_last() == x + y.drop_last());
                    assert((x + y).last() == y.last());
                    assert((x + y.drop_last()).push(y.last().push(c)) == x + y.drop_last().push(
                        y.last().push(c),
                    ));
                } else {
                    assert((words(a) + words(front)).push(seq![c]) == words(a) + words(front).push(
                        seq![c],
                    ));
                }
            } else {
                assert(s[s.len() - 2] == w);
                assert(front == Seq::<char>::empty());
                assert((words(a) + words(front)).push(seq![c]) == words(a) + words(front).push(
                    seq![c],
                ));
            }
        }
    }
}

/// Joining puts one space between the parts and keeps each of them whole: what
/// is joined of two rows is joined of each, with a space between.
pub proof fn law_joined_in_two(a: Seq<Seq<char>>, b: Seq<Seq<char>>)
    requires
        a.len() > 0,
        b.len() > 0,
    ensures
        joined(seq![a[0]]) == a[0],
        joined(a + b) == joined(a) + seq![' '] + joined(b),
    decreases b.len(),
{
    let front = b.drop_last();
    assert((a + b).drop_last() == a + front);
    assert((a + b).last() == b.last());
    if front.len() > 0 {
        law_joined_in_two(a, front);
        assert(joined(a) + seq![' '] + joined(front) + seq![' '] + b.last() == joined(a) + seq![' ']
            + (joined(front) + seq![' '] + b.last()));
    } else {
        assert(a + front == a);
        assert(b.last() == b[0]);
    }
}

/// Words that are joined are the words of the result: none is changed, lost or
/// cut short.
pub proof fn law_joined_words_come_back(parts: Seq<Seq<char>>)
    requires
        forall|i: int| 0 <= i < parts.len() ==> (#[trigger] parts[i]).len() > 0,
        forall|i: int, k: int|
            0 <= i < parts.len() && 0 <= k < parts[i].len() ==> !is_white_space(
                #[trigger] parts[i][k],
            ),
    ensures
        words(joined(parts)) == parts,
    decreases parts.len(),
{
    if parts.len() > 0 {
        let front = parts.drop_last();
        let last = parts.last();
        assert(last == parts[parts.len() - 1]);
        assert forall|k: int| 0 <= k < last.len() implies !is_white_space(#[trigger] last[k]) by {
            assert(!is_white_space(parts[parts.len() - 1][k]));
        }
        law_words_of_a_word(last);
        if front.len() > 0 {
            assert forall|i: int| 0 <= i < front.len() implies (#[trigger] front[i]).len() > 0 by {
                assert(front[i] == parts[i]);
            }
            assert forall|i: int, k: int|
                0 <= i < front.len() && 0 <= k < front[i].len() implies !is_white_space(
                #[trigger] front[i][k],
            ) by {
                assert(front[i] == parts[i]);
                assert(!is_white_space(parts[i][k]));
            }
            law_joined_words_come_back(front);
            assert(joined(parts) == joined(front).push(' ') + last);
            law_words_part_at_white_space(joined(front), ' ', last);
            assert(front + seq![last] == parts);
        } else {
            assert(parts == seq![last]);
        }
    }
}

/// The words of `s` with one space between each two.
pub fn collapse_white_space(s: &str) -> (out: String)
    ensures
        out@ == joined(words(s@)),
{
    let chars = chars_of(s);
    let mut out = String::new();
    let mut empty = true;
    let mut i: usize = 0;
    while i < chars.len()
        invariant
            i <= chars@.len(),
            empty == (out@.len() == 0),
            out@ == joined(words(chars@.take(i as int))),
        decreases chars@.len() - i,
    {
        let c = chars[i];
        proof {
            let now = chars@.take(i + 1);
            let before = chars@.take(i as int);
            assert(now.drop_last() == before);
            assert(now.last() == c);
            lemma_words_nonempty(before);
            lemma_joined_empty(words(before));
            if !is_white_space(c) {
                if i >= 1 && !is_white_space(chars@[i - 1]) {
                    assert(now[now.len() - 2] == chars@[i - 1]);
                    assert(before.last() == chars@[i - 1]);
                    lemma_joined_extend(words(before), c);
                } else {
                    lemma_joined_push(words(before), seq![c]);
                    assert(joined(words(before)) + seq![' '] + seq![c] == joined(
                        words(before),
                    ).push(' ').push(c));
                    assert(Seq::<char>::empty().push(c) == seq![c]);
                }
            }
        }
        if !white_space(c) {
            if !empty && white_space(chars[i - 1]) {
                out.push(' ');
            }
            out.push(c);
            empty = false;
        }
        i += 1;
    }
    assert(chars@.take(i as int) == s@);
    out
}

// --- decimal numbers -------------------------------------------------

/// The character of one decimal digit.
pub open spec fn digit(d: nat) -> char {
    (48 + d) as char
}

/// Whether a character is an ASCII decimal digit.
pub open spec fn is_digit(c: char) -> bool {
    48 <= c as u32 <= 57
}

/// Whether a text is made of ASCII decimal digits alone.
pub open spec fn all_digits(s: Seq<char>) -> bool {
    forall|i: int| 0 <= i < s.len() ==> is_digit(#[trigger] s[i])
}

/// A number in decimal notation, without leading zeros.
pub open spec fn decimal(n: nat) -> Seq<char>
    decreases n,
{
    if n < 10 {
        seq![digit(n)]
    } else {
        decimal(n / 10).push(digit(n % 10))
    }
}

/// The number that a row of decimal digits stands for.
pub open spec fn decimal_value(s: Seq<char>) -> nat
    decreases s.len(),
{
    if s.len() == 0 {
        0
    } else {
        decimal_value(s.drop_last()) * 10 + (s.last() as u32 - 48) as nat
    }
}

/// Reading a `u64`: an optional plus sign, then decimal digits, at least one,
/// whose value fits.
pub open spec fn parsed_u64(s: Seq<char>) -> Option<u64> {
    let digits = if s.len() > 0 && s[0] == '+' {
        s.drop_first()
    } else {
        s
    };
    if digits.len() > 0 && all_digits(digits) && decimal_value(digits) <= u64::MAX {
        Some(decimal_value(digits) as u64)
    } else {
        None
    }
}

/// Appends `n` in decimal notation.
pub fn push_decimal(out: &mut String, n: u64)
    ensures
        final(out)@ == old(out)@ + decimal(n as nat),
    decreases n,
{
    if n >= 10 {
        push_decimal(out, n / 10);
    }
    let d = (48u8 + (n % 10) as u8) as char;
    out.push(d);
    assert(d == digit((n % 10) as nat));
    proof {
        if n >= 10 {
            assert(old(out)@ + decimal((n / 10) as nat).push(d) == (old(out)@ + decimal(
                (n / 10) as nat,
            )).push(d));
        } else {
            assert(old(out)@ + seq![d] == old(out)@.push(d));
        }
    }
}

/// Whether a character is an ASCII decimal digit.
pub fn ascii_digit(c: char) -> (r: bool)
    ensures
        r == is_digit(c),
{
    48 <= c as u32 && c as u32 <= 57
}

proof fn lemma_decimal_value_grows(s: Seq<char>, n: int)
    requires
        0 <= n <= s.len(),
    ensures
        decimal_value(s.take(n)) <= decimal_value(s),
    decreases s.len() - n,
{
    if n < s.len() {
        lemma_decimal_value_grows(s, n + 1);
        assert(s.take(n + 1).drop_last() == s.take(n));
    } else {
        assert(s.take(n) == s);
    }
}

/// Reads a `u64` in decimal notation.
pub fn parse_u64(s: &str) -> (r: Option<u64>)
    ensures
        r == parsed_u64(s@),
{
    let chars = chars_of(s);
    let mut start: usize = 0;
    if chars.len() > 0 && chars[0] == '+' {
        start = 1;
    }
    let ghost digits = chars@.skip(start as int);
    proof {
        assert(chars@.skip(0) == chars@);
        assert(start == 1 ==> chars@.skip(1) == chars@.drop_first());
    }
    if chars.len() == start {
        return None;
    }
    let mut value: u64 = 0;
    let mut i: usize = start;
    while i < chars.len()
        invariant
            start <= i <= chars@.len(),
            digits == chars@.skip(start as int),
            digits.len() > 0,
            parsed_u64(s@) == (if all_digits(digits) && decimal_value(digits) <= u64::MAX {
                Some(decimal_value(digits) as u64)
            } else {
                None::<u64>
            }),
            all_digits(digits.take(i - start)),
            value == decimal_value(digits.take(i - start)),
        decreases chars@.len() - i,
    {
        let c = chars[i];
        assert(digits[i - start] == c);
        if !ascii_digit(c) {
            return None;
        }
        let d: u64 = (c as u32 - 48) as u64;
        proof {
            let next = digits.take(i - start + 1);
            assert(next.drop_last() == digits.take(i - start));
            lemma_decimal_value_grows(digits, i - start + 1);
            assert forall|k: int| 0 <= k < next.len() implies is_digit(#[trigger] next[k]) by {
                if k < i - start {
                    assert(digits.take(i - start)[k] == next[k]);
                }
            }
        }
        if value > (u64::MAX - d) / 10 {
            return None;
        }
        value = value * 10 + d;
        i += 1;
    }
    assert(digits.take(i - start) == digits);
    Some(value)
}

/// Decimal notation is made of digits that count up to the number.
pub proof fn lemma_decimal_digits(n: nat)
    ensures
        decimal(n).len() > 0,
        all_digits(decimal(n)),
        decimal_value(decimal(n)) == n,
        decimal(n)[0] != '+',
    decreases n,
{
    if n >= 10 {
        lemma_decimal_digits(n / 10);
        let front = decimal(n / 10);
        let all = decimal(n);
        assert(all.drop_last() == front);
        assert forall|k: int| 0 <= k < all.len() implies is_digit(#[trigger] all[k]) by {
            if k < front.len() {
                assert(front[k] == all[k]);
            }
        }
    } else {
        assert(decimal(n).drop_last() == Seq::<char>::empty());
        assert(decimal_value(Seq::<char>::empty()) == 0);
    }
    assert(decimal(n).last() == digit(n % 10));
    assert(is_digit(decimal(n)[0]));
}

/// Digits count by their place: those in front count ten times as much for each
/// digit behind them.
pub proof fn law_digits_count_by_place(a: Seq<char>, b: Seq<char>)
    ensures
        decimal_value(a + b) == decimal_value(a) * vstd::arithmetic::power::pow(10, b.len())
            + decimal_value(b),
        b.len() == 1 ==> decimal_value(b) == (b[0] as u32 - 48) as nat,
    decreases b.len(),
{
    broadcast use vstd::arithmetic::power::lemma_pow0;

    if b.len() == 0 {
        assert(a + b == a);
        assert(decimal_value(a) * 1 == decimal_value(a));
    } else {
        let front = b.drop_last();
        law_digits_count_by_place(a, front);
        assert((a + b).drop_last() == a + front);
        assert((a + b).last() == b.last());
        let p = vstd::arithmetic::power::pow(10, front.len());
        vstd::arithmetic::power::lemma_pow_adds(10, front.len(), 1);
        vstd::arithmetic::power::lemma_pow1(10);
        assert(vstd::arithmetic::power::pow(10, b.len()) == p * 10);
        assert((decimal_value(a) * p + decimal_value(front)) * 10 == decimal_value(a) * (p * 10)
            + decimal_value(front) * 10) by (nonlinear_arith);
        if b.len() == 1 {
            assert(front == Seq::<char>::empty());
            assert(decimal_value(front) == 0);
        }
    }
}

/// A text reads as a number just where it is digits, at least one, perhaps
/// behind one plus sign, whose value fits; and then as that value.
pub proof fn law_number_read_whole(digits: Seq<char>, n: u64)
    ensures
        parsed_u64(digits) == Some(n) && digits[0] != '+' ==> digits.len() > 0 && all_digits(digits)
            && decimal_value(digits) == n,
        digits.len() > 0 && all_digits(digits) && decimal_value(digits) == n ==> parsed_u64(digits)
            == Some(n) && parsed_u64(seq!['+'] + digits) == Some(n),
        (exists|i: int| 0 < i < digits.len() && !is_digit(#[trigger] digits[i])) ==> parsed_u64(
            digits,
        ) is None,
{
    assert((seq!['+'] + digits).drop_first() == digits);
    if exists|i: int| 0 < i < digits.len() && !is_digit(#[trigger] digits[i]) {
        let i = choose|i: int| 0 < i < digits.len() && !is_digit(#[trigger] digits[i]);
        assert(digits.drop_first()[i - 1] == digits[i]);
    }
    if digits.len() > 0 && all_digits(digits) {
        assert(is_digit(digits[0]));
    }
}

/// A number written in decimal notation reads back as itself.
pub proof fn law_decimal_reads_back(n: u64)
    ensures
        parsed_u64(decimal(n as nat)) == Some(n),
{
    lemma_decimal_digits(n as nat);
}

} // verus!
