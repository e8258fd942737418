//! Removal of the decoration that a terminal interface puts before a line.

use crate::text::{
    alphanumeric, ascii_digit, is_white_space, lemma_leading, lemma_leading_is, leading, to_chars,
    unicode_alphanumeric, white_space,
};
use vstd::prelude::*;
use vstd::string::StrSliceExecFns;

verus! {

/// The property of decoration: neither letter nor digit.
pub open spec fn decoration() -> spec_fn(char) -> bool {
    |c: char| !alphanumeric(c)
}

/// The property of the digits of an option number.
pub open spec fn digit() -> spec_fn(char) -> bool {
    |c: char| ascii_digit(c)
}

/// The property of white space.
pub open spec fn space() -> spec_fn(char) -> bool {
    |c: char| white_space(c)
}

/// A line without what stands before its first letter or digit.
pub open spec fn undecorated(line: Seq<char>) -> Seq<char> {
    line.skip(leading(line, decoration()) as int)
}

/// Whether a line starts with an option number: ASCII digits, and then a
/// `.` or `)`.
pub open spec fn enumerated(line: Seq<char>) -> bool {
    let digits = leading(line, digit()) as int;
    0 < digits < line.len() && (line[digits] == '.' || line[digits] == ')')
}

/// A line without its decoration, and without an option number and the
/// white space after it.
pub open spec fn normalized(line: Seq<char>) -> Seq<char> {
    let bare = undecorated(line);
    if enumerated(bare) {
        let rest = bare.skip(leading(bare, digit()) as int + 1);
        rest.skip(leading(rest, space()) as int)
    } else {
        bare
    }
}

/// Strip leading non-alphanumeric decoration, then a numeric option
/// enumerator (`1.` or `2)` only, so a line like "5-hour limit reached"
/// survives). Case is preserved; patterns opt into `(?i)` themselves.
pub fn normalize_line(line: &str) -> (r: &str)
    ensures
        r@ == normalized(line@),
{
    let chars = to_chars(line);
    let len: usize = chars.len();
    let mut start: usize = 0;
    while start < len && !chars[start].is_alphanumeric()
        invariant
            len == chars@.len(),
            start <= len,
            forall|i: int| 0 <= i < start ==> !alphanumeric(#[trigger] chars@[i]),
        decreases len - start,
    {
        start = start + 1;
    }
    proof {
        lemma_leading_is(line@, decoration(), start as nat);
    }
    let ghost bare = undecorated(line@);
    let mut end: usize = start;
    while end < len && '0' <= chars[end] && chars[end] <= '9'
        invariant
            len == chars@.len(),
            start <= end <= len,
            forall|i: int| start <= i < end ==> ascii_digit(#[trigger] chars@[i]),
        decreases len - end,
    {
        end = end + 1;
    }
    proof {
        lemma_leading_is(bare, digit(), (end - start) as nat);
    }
    if start < end && end < len && (chars[end] == '.' || chars[end] == ')') {
        let mut body: usize = end + 1;
        while body < len && is_white_space(chars[body])
            invariant
                len == chars@.len(),
                end < body <= len,
                forall|i: int| end < i < body ==> white_space(#[trigger] chars@[i]),
            decreases len - body,
        {
            body = body + 1;
        }
        proof {
            let rest = bare.skip(end - start + 1);
            lemma_leading_is(rest, space(), (body - end - 1) as nat);
            assert(rest.skip(body - end - 1) == line@.subrange(body as int, len as int));
        }
        line.substring_char(body, len)
    } else {
        assert(bare == line@.subrange(start as int, len as int));
        line.substring_char(start, len)
    }
}

/// Decoration put before a line makes no difference.
pub proof fn decoration_is_ignored(ornament: Seq<char>, line: Seq<char>)
    requires
        forall|i: int| 0 <= i < ornament.len() ==> !alphanumeric(#[trigger] ornament[i]),
    ensures
        normalized(ornament + line) == normalized(line),
{
    let both = ornament + line;
    let n = leading(line, decoration());
    lemma_leading(line, decoration());
    assert forall|i: int| 0 <= i < ornament.len() + n implies decoration()(
        #[trigger] both[i],
    ) by {
        if i >= ornament.len() {
            assert(both[i] == line[i - ornament.len()]);
        }
    }
    lemma_leading_is(both, decoration(), ornament.len() + n);
    assert(undecorated(both) == undecorated(line));
}

/// An option number with its `.` or `)`, and white space after it, is cut
/// off, and the rest is kept as it is.
pub proof fn enumerator_is_cut(
    number: Seq<char>,
    mark: char,
    blank: Seq<char>,
    body: Seq<char>,
)
    requires
        number.len() > 0,
        forall|i: int| 0 <= i < number.len() ==> '0' <= #[trigger] number[i] <= '9',
        mark == '.' || mark == ')',
        forall|i: int| 0 <= i < blank.len() ==> white_space(#[trigger] blank[i]),
        body.len() > 0 ==> !white_space(body[0]),
    ensures
        normalized(number + seq![mark] + blank + body) == body,
{
    let line = number + seq![mark] + blank + body;
    assert('0' <= number[0] <= '9');
    assert(line[0] == number[0]);
    lemma_leading_is(line, decoration(), 0);
    assert(undecorated(line) == line);
    assert forall|i: int| 0 <= i < number.len() implies digit()(#[trigger] line[i]) by {
        assert(line[i] == number[i]);
    }
    assert(line[number.len() as int] == mark);
    lemma_leading_is(line, digit(), number.len());
    let rest = line.skip(number.len() as int + 1);
    assert(rest == blank + body);
    assert forall|i: int| 0 <= i < blank.len() implies space()(#[trigger] rest[i]) by {
        assert(rest[i] == blank[i]);
    }
    if body.len() > 0 {
        assert(rest[blank.len() as int] == body[0]);
    }
    lemma_leading_is(rest, space(), blank.len());
    assert(rest.skip(blank.len() as int) == body);
}

/// Digits alone are no option number: where neither a `.` nor a `)` follows
/// them at once, the whole line is kept, digits included.
pub proof fn number_without_mark_is_kept(number: Seq<char>, rest: Seq<char>)
    requires
        number.len() > 0,
        forall|i: int| 0 <= i < number.len() ==> '0' <= #[trigger] number[i] <= '9',
        rest.len() > 0 ==> !('0' <= rest[0] <= '9') && rest[0] != '.' && rest[0] != ')',
    ensures
        normalized(number + rest) == number + rest,
{
    let line = number + rest;
    assert('0' <= number[0] <= '9');
    assert(line[0] == number[0]);
    lemma_leading_is(line, decoration(), 0);
    assert(undecorated(line) == line);
    assert forall|i: int| 0 <= i < number.len() implies digit()(#[trigger] line[i]) by {
        assert(line[i] == number[i]);
    }
    if rest.len() > 0 {
        assert(line[number.len() as int] == rest[0]);
    }
    lemma_leading_is(line, digit(), number.len());
}

/// A line that starts with a letter, or with a digit of another script, is
/// kept whole.
pub proof fn line_that_starts_with_a_letter_is_kept(line: Seq<char>)
    requires
        line.len() > 0,
        (line[0] as u32) < 0x80 ==> ('A' <= line[0] <= 'Z') || ('a' <= line[0] <= 'z'),
        (line[0] as u32) >= 0x80 ==> unicode_alphanumeric(line[0]),
    ensures
        normalized(line) == line,
{
    lemma_leading_is(line, decoration(), 0);
    assert(undecorated(line) == line);
    lemma_leading_is(line, digit(), 0);
}

/// All that stands before the first letter or digit is decoration: of ASCII,
/// every character but `0` to `9`, `A` to `Z` and `a` to `z`.
pub proof fn signs_before_a_line_are_ignored(signs: Seq<char>, line: Seq<char>)
    requires
        forall|i: int|
            0 <= i < signs.len() ==> {
                &&& !('0' <= #[trigger] signs[i] <= '9')
                &&& !('A' <= signs[i] <= 'Z')
                &&& !('a' <= signs[i] <= 'z')
                &&& (signs[i] as u32) >= 0x80 ==> !unicode_alphanumeric(signs[i])
            },
    ensures
        normalized(signs + line) == normalized(line),
        line.len() == 0 ==> normalized(signs + line) == line,
{
    decoration_is_ignored(signs, line);
    if line.len() == 0 {
        lemma_leading_is(line, decoration(), 0);
        lemma_leading_is(line, digit(), 0);
        assert(undecorated(line) == line);
    }
}

/// A line that starts with a letter or digit and with no option number is
/// kept as it is.
pub proof fn bare_line_is_kept(line: Seq<char>)
    requires
        line.len() > 0 ==> alphanumeric(line[0]),
        !enumerated(line),
    ensures
        normalized(line) == line,
{
    lemma_leading_is(line, decoration(), 0);
    assert(undecorated(line) == line);
}

/// Nothing is added or rearranged: what is left is the end of the line.
pub proof fn normalized_is_a_suffix(line: Seq<char>)
    ensures
        exists|n: int| 0 <= n <= line.len() && normalized(line) == #[trigger] line.skip(n),
{
    lemma_leading(line, decoration());
    let start = leading(line, decoration()) as int;
    let bare = undecorated(line);
    if enumerated(bare) {
        let digits = leading(bare, digit()) as int;
        let rest = bare.skip(digits + 1);
        lemma_leading(rest, space());
        let n = start + digits + 1 + leading(rest, space());
        assert(normalized(line) == line.skip(n));
    } else {
        assert(normalized(line) == line.skip(start));
    }
}

} // verus!
