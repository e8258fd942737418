//! Character classes and the cutting of pane text into lines.

use vstd::prelude::*;
use vstd::string::StringExecFns;

verus! {

/// Whether a character has the Unicode `White_Space` property.
pub open spec fn white_space(c: char) -> bool {
    let n = c as u32;
    ||| 0x09 <= n <= 0x0d
    ||| n == 0x20
    ||| n == 0x85
    ||| n == 0xa0
    ||| n == 0x1680
    ||| 0x2000 <= n <= 0x200a
    ||| n == 0x2028
    ||| n == 0x2029
    ||| n == 0x202f
    ||| n == 0x205f
    ||| n == 0x3000
}

/// Decides [`white_space`].
pub fn is_white_space(c: char) -> (r: bool)
    ensures
        r == white_space(c),
{
    let n: u32 = c as u32;
    (0x09 <= n && n <= 0x0d) || n == 0x20 || n == 0x85 || n == 0xa0 || n == 0x1680 || (0x2000 <= n
        && n <= 0x200a) || n == 0x2028 || n == 0x2029 || n == 0x202f || n == 0x205f || n == 0x3000
}

/// An ASCII decimal digit.
pub open spec fn ascii_digit(c: char) -> bool {
    '0' <= c <= '9'
}

/// An ASCII letter or decimal digit.
pub open spec fn ascii_alphanumeric(c: char) -> bool {
    ('0' <= c <= '9') || ('A' <= c <= 'Z') || ('a' <= c <= 'z')
}

/// Whether a character outside ASCII is alphabetic or numeric: the answer
/// of [`char::is_alphanumeric`], which reads it off the Unicode tables.
pub uninterp spec fn unicode_alphanumeric(c: char) -> bool;

/// Letters and digits, of ASCII or of any other script.
pub open spec fn alphanumeric(c: char) -> bool {
    if (c as u32) < 0x80 {
        ascii_alphanumeric(c)
    } else {
        unicode_alphanumeric(c)
    }
}

/// [`char::is_alphanumeric`] holds of the ASCII letters and digits and of no
/// other ASCII character. Beyond ASCII its answer depends on the character
/// alone, and is named, not described.
pub assume_specification[ char::is_alphanumeric ](c: char) -> (r: bool)
    ensures
        (c as u32) < 0x80 ==> r == ascii_alphanumeric(c),
        (c as u32) >= 0x80 ==> r == unicode_alphanumeric(c),
;

/// [`String::push`] puts one character at the end.
pub assume_specification[ String::push ](s: &mut String, c: char)
    ensures
        final(s)@ == old(s)@.push(c),
;

/// The number of characters before the first one that lacks the property.
pub open spec fn leading(s: Seq<char>, p: spec_fn(char) -> bool) -> nat
    decreases s.len(),
{
    if s.len() > 0 && p(s[0]) {
        1 + leading(s.skip(1), p)
    } else {
        0
    }
}

/// The characters of a string, in order.
pub fn to_chars(s: &str) -> (r: Vec<char>)
    ensures
        r@ == s@,
{
    let mut out: Vec<char> = Vec::new();
    for c in it: s.chars()
        invariant
            out@ == it.seq().take(it.index()),
            it.seq() == s@,
    {
        out.push(c);
    }
    out
}

/// [`leading`] is the one split point with the property on all that comes
/// before it and not on what stands there.
pub proof fn lemma_leading_is(s: Seq<char>, p: spec_fn(char) -> bool, n: nat)
    requires
        n <= s.len(),
        forall|i: int| 0 <= i < n ==> p(#[trigger] s[i]),
        n < s.len() ==> !p(s[n as int]),
    ensures
        leading(s, p) == n,
    decreases n,
{
    if n > 0 {
        assert(p(s[0]));
        assert forall|i: int| 0 <= i < n - 1 implies p(#[trigger] s.skip(1)[i]) by {
            assert(s.skip(1)[i] == s[i + 1]);
        }
        lemma_leading_is(s.skip(1), p, (n - 1) as nat);
    }
}

/// What [`leading`] counts has the property, and the next character has not.
pub proof fn lemma_leading(s: Seq<char>, p: spec_fn(char) -> bool)
    ensures
        leading(s, p) <= s.len(),
        forall|i: int| 0 <= i < leading(s, p) ==> p(#[trigger] s[i]),
        leading(s, p) < s.len() ==> !p(s[leading(s, p) as int]),
    decreases s.len(),
{
    if s.len() > 0 && p(s[0]) {
        let t = s.skip(1);
        lemma_leading(t, p);
        assert forall|i: int| 0 <= i < leading(s, p) implies p(#[trigger] s[i]) by {
            if i > 0 {
                assert(t[i - 1] == s[i]);
            }
        }
        if leading(s, p) < s.len() {
            assert(t[leading(t, p) as int] == s[leading(s, p) as int]);
        }
    }
}

/// The string of the characters from `from` up to, not including, `to`.
fn text_between(chars: &Vec<char>, from: usize, to: usize) -> (r: String)
    requires
        from <= to <= chars@.len(),
    ensures
        r@ == chars@.subrange(from as int, to as int),
{
    let mut out = String::new();
    let mut i: usize = from;
    while i < to
        invariant
            from <= i <= to <= chars@.len(),
            out@ == chars@.subrange(from as int, i as int),
        decreases to - i,
    {
        out.push(chars[i]);
        i = i + 1;
        assert(chars@.subrange(from as int, i as int) == chars@.subrange(
            from as int,
            i - 1,
        ).push(chars@[i - 1]));
    }
    out
}

/// A text without the white space at its end.
pub open spec fn trim_end(s: Seq<char>) -> Seq<char>
    decreases s.len(),
{
    if s.len() > 0 && white_space(s.last()) {
        trim_end(s.drop_last())
    } else {
        s
    }
}

/// The property of the characters that a line is made of.
pub open spec fn within_line() -> spec_fn(char) -> bool {
    |c: char| c != '\n'
}

/// The lines of a text that show anything, first line first, each without
/// the white space at its end. Lines are cut at `\n`; a `\r` before it goes
/// with the white space.
pub open spec fn visible_lines(s: Seq<char>) -> Seq<Seq<char>>
    decreases s.len(),
{
    let n = leading(s, within_line());
    let line = trim_end(s.take(n as int));
    let rest = if n < s.len() {
        visible_lines(s.skip((n + 1) as int))
    } else {
        Seq::empty()
    };
    if line.len() == 0 {
        rest
    } else {
        seq![line] + rest
    }
}

/// The contents of a sequence of strings.
pub open spec fn texts(v: Seq<String>) -> Seq<Seq<char>> {
    Seq::new(v.len(), |i: int| v[i]@)
}

proof fn lemma_trim_end_is(s: Seq<char>, n: nat)
    requires
        n <= s.len(),
        forall|i: int| n <= i < s.len() ==> white_space(#[trigger] s[i]),
        n > 0 ==> !white_space(s[n - 1]),
    ensures
        trim_end(s) == s.take(n as int),
    decreases s.len(),
{
    if n == s.len() {
        assert(s.take(n as int) == s);
    } else {
        lemma_trim_end_is(s.drop_last(), n);
        assert(s.drop_last().take(n as int) == s.take(n as int));
    }
}

/// Cuts a text into its visible lines.
pub fn pane_lines(text: &str) -> (r: Vec<String>)
    ensures
        texts(r@) == visible_lines(text@),
{
    let chars = to_chars(text);
    let len: usize = chars.len();
    let mut out: Vec<String> = Vec::new();
    let mut start: usize = 0;
    assert(chars@.skip(0) == chars@);
    let mut done: bool = false;
    while !done
        invariant
            len == chars@.len(),
            chars@ == text@,
            start <= len,
            !done ==> texts(out@) + visible_lines(chars@.skip(start as int)) == visible_lines(
                text@,
            ),
            done ==> texts(out@) == visible_lines(text@),
        decreases len - start + (if done { 0int } else { 1int }),
    {
        let ghost rest = chars@.skip(start as int);
        let mut end: usize = start;
        while end < len && chars[end] != '\n'
            invariant
                len == chars@.len(),
                start <= end <= len,
                forall|i: int| start <= i < end ==> chars@[i] != '\n',
            decreases len - end,
        {
            end = end + 1;
        }
        let mut stop: usize = end;
        while stop > start && is_white_space(chars[stop - 1])
            invariant
                len == chars@.len(),
                start <= stop <= end <= len,
                forall|i: int| stop <= i < end ==> white_space(chars@[i]),
            decreases stop,
        {
            stop = stop - 1;
        }
        proof {
            lemma_leading_is(rest, within_line(), (end - start) as nat);
            lemma_trim_end_is(rest.take(end - start), (stop - start) as nat);
            assert(rest.take(end - start).take(stop - start) == chars@.subrange(
                start as int,
                stop as int,
            ));
            if end < len {
                assert(rest.skip(end - start + 1) == chars@.skip(end + 1));
            }
        }
        let ghost before = out@;
        if start < stop {
            out.push(text_between(&chars, start, stop));
            assert(texts(out@) == texts(before) + seq![
                chars@.subrange(start as int, stop as int),
            ]);
        }
        proof {
            let tail = if end < len {
                visible_lines(chars@.skip(end + 1))
            } else {
                Seq::empty()
            };
            assert(texts(before) + visible_lines(rest) == texts(out@) + tail);
            assert(texts(out@) + Seq::<Seq<char>>::empty() == texts(out@));
        }
        if end == len {
            done = true;
        } else {
            start = end + 1;
        }
    }
    out
}

/// Lines set one below the other, with `\n` between them.
pub open spec fn joined(lines: Seq<Seq<char>>) -> Seq<char>
    decreases lines.len(),
{
    if lines.len() == 0 {
        Seq::empty()
    } else if lines.len() == 1 {
        lines[0]
    } else {
        joined(lines.drop_last()) + seq!['\n'] + lines.last()
    }
}

/// Joins the lines from `from` on.
pub fn join_lines(lines: &Vec<String>, from: usize) -> (r: String)
    requires
        from <= lines@.len(),
    ensures
        r@ == joined(texts(lines@).skip(from as int)),
{
    let mut out = String::new();
    let mut i: usize = from;
    let ghost all = texts(lines@);
    while i < lines.len()
        invariant
            from <= i <= lines@.len(),
            all == texts(lines@),
            out@ == joined(all.subrange(from as int, i as int)),
        decreases lines@.len() - i,
    {
        if i > from {
            out.push('\n');
        }
        out.append(lines[i].as_str());
        i = i + 1;
        proof {
            let taken = all.subrange(from as int, i as int);
            assert(taken.drop_last() == all.subrange(from as int, i - 1));
            assert(taken.last() == lines@[i - 1]@);
            if i == from + 1 {
                assert(out@ == taken[0]);
            }
        }
    }
    assert(all.subrange(from as int, i as int) == all.skip(from as int));
    out
}

/// Lines are cut independently: what stands above a line break makes no
/// difference to what stands below it.
pub proof fn lines_are_cut_apart(above: Seq<char>, below: Seq<char>)
    ensures
        visible_lines(above + seq!['\n'] + below) == visible_lines(above) + visible_lines(below),
    decreases above.len(),
{
    let whole = above + seq!['\n'] + below;
    let n = leading(above, within_line());
    lemma_leading(above, within_line());
    assert forall|i: int| 0 <= i < n implies within_line()(#[trigger] whole[i]) by {
        assert(whole[i] == above[i]);
    }
    if n < above.len() {
        assert(whole[n as int] == above[n as int]);
        lemma_leading_is(whole, within_line(), n);
        assert(whole.take(n as int) == above.take(n as int));
        let rest = above.skip(n as int + 1);
        assert(whole.skip(n as int + 1) == rest + seq!['\n'] + below);
        lines_are_cut_apart(rest, below);
    } else {
        assert(whole[n as int] == '\n');
        lemma_leading_is(whole, within_line(), n);
        assert(whole.take(n as int) == above.take(n as int));
        assert(whole.skip(n as int + 1) == below);
    }
    assert(visible_lines(whole) == visible_lines(above) + visible_lines(below));
}

/// White space alone makes no line.
pub proof fn blank_text_has_no_lines(blank: Seq<char>)
    requires
        forall|i: int| 0 <= i < blank.len() ==> white_space(#[trigger] blank[i]),
    ensures
        visible_lines(blank) == Seq::<Seq<char>>::empty(),
    decreases blank.len(),
{
    let n = leading(blank, within_line());
    lemma_leading(blank, within_line());
    let line = blank.take(n as int);
    assert forall|i: int| 0 <= i < line.len() implies white_space(#[trigger] line[i]) by {
        assert(line[i] == blank[i]);
    }
    lemma_trim_end_is(line, 0);
    if n < blank.len() {
        let rest = blank.skip(n as int + 1);
        assert forall|i: int| 0 <= i < rest.len() implies white_space(#[trigger] rest[i]) by {
            assert(rest[i] == blank[n + 1 + i]);
        }
        blank_text_has_no_lines(rest);
    }
}

/// A line by itself is kept from its first character to its last that is no
/// white space; white space at its start stays.
pub proof fn line_is_trimmed_at_its_end_only(body: Seq<char>, blank: Seq<char>)
    requires
        body.len() > 0,
        !white_space(body[body.len() - 1]),
        forall|i: int| 0 <= i < body.len() ==> #[trigger] body[i] != '\n',
        forall|i: int|
            0 <= i < blank.len() ==> white_space(#[trigger] blank[i]) && blank[i] != '\n',
    ensures
        visible_lines(body + blank) == seq![body],
{
    let line = body + blank;
    assert forall|i: int| 0 <= i < line.len() implies within_line()(#[trigger] line[i]) by {
        if i < body.len() {
            assert(line[i] == body[i]);
        } else {
            assert(line[i] == blank[i - body.len()]);
        }
    }
    lemma_leading_is(line, within_line(), line.len());
    assert(line.take(line.len() as int) == line);
    assert forall|i: int| body.len() <= i < line.len() implies white_space(#[trigger] line[i]) by {
        assert(line[i] == blank[i - body.len()]);
    }
    lemma_trim_end_is(line, body.len());
    assert(line.take(body.len() as int) == body);
    assert(seq![body] + Seq::<Seq<char>>::empty() == seq![body]);
}

/// Joining puts one line break between two blocks of lines, and changes
/// nothing within them.
pub proof fn blocks_are_joined_by_a_line_break(front: Seq<Seq<char>>, back: Seq<Seq<char>>)
    requires
        front.len() > 0,
        back.len() > 0,
    ensures
        joined(front + back) == joined(front) + seq!['\n'] + joined(back),
    decreases back.len(),
{
    let all = front + back;
    assert(all.drop_last() == front + back.drop_last());
    assert(all.last() == back.last());
    if back.len() == 1 {
        assert(front + back.drop_last() == front);
    } else {
        blocks_are_joined_by_a_line_break(front, back.drop_last());
        assert(joined(all) == joined(front) + seq!['\n'] + joined(back));
    }
}

/// A single line is joined to itself, and no line to nothing.
pub proof fn single_line_is_joined_to_itself(line: Seq<char>)
    ensures
        joined(seq![line]) == line,
        joined(Seq::empty()) == Seq::<char>::empty(),
{
}

/// Joined lines are cut again where they were joined.
pub proof fn joined_lines_are_cut_again(lines: Seq<Seq<char>>)
    requires
        forall|i: int|
            0 <= i < lines.len() ==> (#[trigger] lines[i]).len() > 0 && !white_space(
                lines[i].last(),
            ) && !lines[i].contains('\n'),
    ensures
        visible_lines(joined(lines)) == lines,
    decreases lines.len(),
{
    if lines.len() == 0 {
        blank_text_has_no_lines(joined(lines));
    } else {
        let line = lines[lines.len() - 1];
        let blank = Seq::<char>::empty();
        assert(line.len() > 0);
        assert forall|i: int| 0 <= i < line.len() implies #[trigger] line[i] != '\n' by {
            assert(line.contains(line[i]));
        }
        line_is_trimmed_at_its_end_only(line, blank);
        assert(line + blank == line);
        if lines.len() == 1 {
            assert(lines == seq![line]);
        } else {
            let fewer = lines.drop_last();
            assert forall|i: int| 0 <= i < fewer.len() implies (#[trigger] fewer[i]).len() > 0
                && !white_space(fewer[i].last()) && !fewer[i].contains('\n') by {
                assert(fewer[i] == lines[i]);
            }
            joined_lines_are_cut_again(fewer);
            lines_are_cut_apart(joined(fewer), line);
            assert(fewer + seq![line] == lines);
        }
    }
}

/// A list of strings has as many contents as strings, each at its place.
pub proof fn texts_are_the_contents(v: Seq<String>)
    ensures
        texts(v).len() == v.len(),
        forall|i: int| 0 <= i < v.len() ==> #[trigger] texts(v)[i] == v[i]@,
{
}

proof fn lemma_trim_end(s: Seq<char>)
    ensures
        trim_end(s).len() <= s.len(),
        trim_end(s) == s.take(trim_end(s).len() as int),
        trim_end(s).len() > 0 ==> !white_space(trim_end(s).last()),
    decreases s.len(),
{
    if s.len() > 0 && white_space(s.last()) {
        lemma_trim_end(s.drop_last());
        assert(s.drop_last().take(trim_end(s).len() as int) == s.take(trim_end(s).len() as int));
    } else {
        assert(s.take(s.len() as int) == s);
    }
}

/// Every visible line shows something, ends in no white space, and holds no
/// line break.
pub proof fn visible_lines_are_trimmed(s: Seq<char>, i: int)
    requires
        0 <= i < visible_lines(s).len(),
    ensures
        visible_lines(s)[i].len() > 0,
        !white_space(visible_lines(s)[i].last()),
        !visible_lines(s)[i].contains('\n'),
    decreases s.len(),
{
    let n = leading(s, within_line());
    lemma_leading(s, within_line());
    let line = trim_end(s.take(n as int));
    lemma_trim_end(s.take(n as int));
    let first: int = if line.len() == 0 {
        0
    } else {
        1
    };
    if i < first {
        assert(visible_lines(s)[i] == line);
        assert forall|k: int| 0 <= k < line.len() implies line[k] != '\n' by {
            assert(line[k] == s[k]);
        }
    } else {
        assert(n < s.len());
        let rest = s.skip(n as int + 1);
        assert(visible_lines(s)[i] == visible_lines(rest)[i - first]);
        visible_lines_are_trimmed(rest, i - first);
    }
}

} // verus!
