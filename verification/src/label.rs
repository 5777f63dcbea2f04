//! Labels: the short one-line summaries under which entries are offered to
//! the chooser.

use vstd::prelude::*;
use crate::text::{chars_of, string_of};

verus! {

/// The number of characters that a label holds at most, unless configured
/// otherwise.
pub const DEFAULT_LABEL_CHARS: usize = 50;

/// Whether `c` is white space: a character with the Unicode property
/// `White_Space`.
pub open spec fn is_space(c: char) -> bool {
    let n = c as u32;
    ||| 0x09 <= n <= 0x0d
    ||| n == 0x20
    ||| n == 0x85
    ||| n == 0xa0
    ||| n == 0x1680
    ||| 0x2000 <= n <= 0x200a
    ||| n == 0x2028
    ||| n == 0x2029
    ||| n == 0x202f
    ||| n == 0x205f
    ||| n == 0x3000
}

/// The number of white-space characters at the start of `s`.
pub open spec fn leading_spaces(s: Seq<char>) -> int
    decreases s.len(),
{
    if s.len() > 0 && is_space(s[0]) {
        1 + leading_spaces(s.drop_first())
    } else {
        0
    }
}

/// The number of white-space characters at the end of `s`.
pub open spec fn trailing_spaces(s: Seq<char>) -> int
    decreases s.len(),
{
    if s.len() > 0 && is_space(s.last()) {
        1 + trailing_spaces(s.drop_last())
    } else {
        0
    }
}

/// `s` without the white space around it.
pub open spec fn trimmed(s: Seq<char>) -> Seq<char> {
    let rest = s.subrange(leading_spaces(s), s.len() as int);
    rest.subrange(0, rest.len() - trailing_spaces(rest))
}

/// `s` on one line: every NUL character left out, every newline replaced by
/// a space.
pub open spec fn on_one_line(s: Seq<char>) -> Seq<char>
    decreases s.len(),
{
    if s.len() == 0 {
        Seq::empty()
    } else if s.last() == '\0' {
        on_one_line(s.drop_last())
    } else if s.last() == '\n' {
        on_one_line(s.drop_last()).push(' ')
    } else {
        on_one_line(s.drop_last()).push(s.last())
    }
}

/// The first `max` characters of `s`, or all of `s` if it is shorter.
pub open spec fn truncated(s: Seq<char>, max: nat) -> Seq<char> {
    if s.len() <= max {
        s
    } else {
        s.subrange(0, max as int)
    }
}

/// The label of a captured text: the text without surrounding white space,
/// on one line, cut to `max` characters.
pub open spec fn label_of(text: Seq<char>, max: nat) -> Seq<char> {
    truncated(on_one_line(trimmed(text)), max)
}

/// The leading white space is all white space, and what follows it, if
/// anything, is not.
pub proof fn lemma_leading_spaces(s: Seq<char>)
    ensures
        0 <= leading_spaces(s) <= s.len(),
        forall|j: int| 0 <= j < leading_spaces(s) ==> is_space(s[j]),
        leading_spaces(s) < s.len() ==> !is_space(s[leading_spaces(s)]),
    decreases s.len(),
{
    if s.len() > 0 && is_space(s[0]) {
        let rest = s.drop_first();
        lemma_leading_spaces(rest);
        assert forall|j: int| 0 <= j < leading_spaces(s) implies is_space(s[j]) by {
            if j > 0 {
                assert(s[j] == rest[j - 1]);
            }
        }
        assert(leading_spaces(rest) < rest.len() ==> s[leading_spaces(s)] == rest[
            leading_spaces(rest)]);
    }
}

/// The trailing white space is all white space, and what stands before it,
/// if anything, is not.
pub proof fn lemma_trailing_spaces(s: Seq<char>)
    ensures
        0 <= trailing_spaces(s) <= s.len(),
        forall|j: int| s.len() - trailing_spaces(s) <= j < s.len() ==> is_space(s[j]),
        trailing_spaces(s) < s.len() ==> !is_space(s[s.len() - trailing_spaces(s) - 1]),
    decreases s.len(),
{
    if s.len() > 0 && is_space(s.last()) {
        let rest = s.drop_last();
        lemma_trailing_spaces(rest);
        assert forall|j: int| s.len() - trailing_spaces(s) <= j < s.len() implies is_space(
            s[j],
        ) by {
            if j < s.len() - 1 {
                assert(s[j] == rest[j]);
            }
        }
        assert(trailing_spaces(rest) < rest.len() ==> s[s.len() - trailing_spaces(s) - 1]
            == rest[rest.len() - trailing_spaces(rest) - 1]);
    }
}

/// A label never holds more than `max` characters, and never a newline or a
/// NUL character.
pub proof fn lemma_label_is_short_and_flat(text: Seq<char>, max: nat)
    ensures
        label_of(text, max).len() <= max,
        forall|i: int|
            0 <= i < label_of(text, max).len() ==> label_of(text, max)[i] != '\n' && label_of(
                text,
                max,
            )[i] != '\0',
{
    lemma_one_line_is_flat(trimmed(text));
}

/// A text put on one line is no longer than before and holds neither a
/// newline nor a NUL character.
pub proof fn lemma_one_line_is_flat(s: Seq<char>)
    ensures
        on_one_line(s).len() <= s.len(),
        forall|i: int|
            0 <= i < on_one_line(s).len() ==> on_one_line(s)[i] != '\n' && on_one_line(s)[i]
                != '\0',
    decreases s.len(),
{
    if s.len() > 0 {
        lemma_one_line_is_flat(s.drop_last());
    }
}

/// A text without white space at its ends, newlines or NUL characters is its
/// own label, up to the cut.
pub proof fn lemma_label_of_plain_text(text: Seq<char>, max: nat)
    requires
        forall|i: int| 0 <= i < text.len() ==> text[i] != '\n' && text[i] != '\0',
        text.len() > 0 ==> !is_space(text[0]) && !is_space(text.last()),
    ensures
        label_of(text, max) == truncated(text, max),
{
    assert(trimmed(text) =~= text);
    lemma_one_line_of_flat(text);
}

/// A text without newlines and NUL characters is on one line as it is.
pub proof fn lemma_one_line_of_flat(s: Seq<char>)
    requires
        forall|i: int| 0 <= i < s.len() ==> s[i] != '\n' && s[i] != '\0',
    ensures
        on_one_line(s) == s,
    decreases s.len(),
{
    if s.len() > 0 {
        lemma_one_line_of_flat(s.drop_last());
        assert(s.drop_last().push(s.last()) =~= s);
    }
}

/// Whether `c` is white space.
pub fn is_whitespace(c: char) -> (r: bool)
    ensures
        r == is_space(c),
{
    let n: u32 = c as u32;
    (0x09 <= n && n <= 0x0d) || n == 0x20 || n == 0x85 || n == 0xa0 || n == 0x1680 || (0x2000
        <= n && n <= 0x200a) || n == 0x2028 || n == 0x2029 || n == 0x202f || n == 0x205f || n
        == 0x3000
}

/// The bounds of `chars` without the white space around it.
fn trim_bounds(chars: &Vec<char>) -> (bounds: (usize, usize))
    ensures
        bounds.0 <= bounds.1 <= chars.len(),
        chars@.subrange(bounds.0 as int, bounds.1 as int) == trimmed(chars@),
{
    let n = chars.len();
    let mut start: usize = 0;
    while start < n && is_whitespace(chars[start])
        invariant
            start <= n,
            n == chars.len(),
            forall|j: int| 0 <= j < start ==> is_space(chars@[j]),
        decreases n - start,
    {
        start += 1;
    }
    let mut end: usize = n;
    while end > start && is_whitespace(chars[end - 1])
        invariant
            start <= end <= n,
            n == chars.len(),
            forall|j: int| end <= j < n ==> is_space(chars@[j]),
        decreases end,
    {
        end -= 1;
    }
    proof {
        let rest = chars@.subrange(start as int, n as int);
        lemma_leading_spaces(chars@);
        assert(leading_spaces(chars@) == start);
        lemma_trailing_spaces(rest);
        assert(end > start ==> rest[end - start - 1] == chars@[end - 1]);
        assert(forall|j: int| end - start <= j < rest.len() ==> rest[j] == chars@[j + start]);
        assert(rest.len() - trailing_spaces(rest) == end - start);
        assert(chars@.subrange(start as int, end as int) =~= trimmed(chars@));
    }
    (start, end)
}

/// `text` without the white space around it.
pub fn trim_text(text: &str) -> (out: String)
    ensures
        out@ == trimmed(text@),
{
    let chars = chars_of(text);
    let (start, end) = trim_bounds(&chars);
    let mut out: Vec<char> = Vec::new();
    let mut i: usize = start;
    while i < end
        invariant
            start <= i <= end <= chars.len(),
            out@ == chars@.subrange(start as int, i as int),
        decreases end - i,
    {
        out.push(chars[i]);
        i += 1;
        assert(out@ =~= chars@.subrange(start as int, i as int));
    }
    string_of(&out)
}

/// The label of `text`, cut to `max` characters.
pub fn derive_label(text: &str, max: usize) -> (label: String)
    ensures
        label@ == label_of(text@, max as nat),
{
    let chars = chars_of(text);
    let n = chars.len();
    let (start, end) = trim_bounds(&chars);
    let ghost body = chars@.subrange(start as int, end as int);
    let mut out: Vec<char> = Vec::new();
    let mut i: usize = start;
    while i < end
        invariant
            start <= i <= end <= n,
            n == chars.len(),
            body == chars@.subrange(start as int, end as int),
            out@ == on_one_line(body.subrange(0, i - start)),
        decreases end - i,
    {
        let c = chars[i];
        proof {
            let next = body.subrange(0, i + 1 - start);
            assert(next.drop_last() =~= body.subrange(0, i - start));
            assert(next.last() == c);
        }
        if c == '\n' {
            out.push(' ');
        } else if c != '\0' {
            out.push(c);
        }
        i += 1;
    }
    assert(body.subrange(0, end - start) =~= body);
    if out.len() > max {
        out.truncate(max);
    }
    string_of(&out)
}

} // verus!
