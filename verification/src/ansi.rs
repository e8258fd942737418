//! Removal of terminal escape sequences from captured text.

use crate::text::to_chars;
use vstd::prelude::*;
use vstd::slice::slice_subrange;

verus! {

/// The escape character, which every sequence starts with.
pub const ESC: char = '\x1b';

/// The bell character, which may end a control string.
pub const BEL: char = '\x07';

/// A parameter character of a control sequence: a digit or `:;<=>?`.
pub open spec fn is_parameter(c: char) -> bool {
    '0' <= c <= '?'
}

/// An intermediate character: a space or one of the signs up to `/`.
pub open spec fn is_intermediate(c: char) -> bool {
    ' ' <= c <= '/'
}

/// The character that ends a control sequence: `@` up to `~`.
pub open spec fn is_final(c: char) -> bool {
    '@' <= c <= '~'
}

/// A character that, after the escape, opens a control string: a device
/// control string, start of string, operating system command, privacy
/// message or application command.
pub open spec fn opens_string(c: char) -> bool {
    c == 'P' || c == 'X' || c == ']' || c == '^' || c == '_'
}

/// A control sequence: `ESC [`, parameter characters up to position `p`,
/// intermediate characters, and a final character.
pub open spec fn is_control_sequence(s: Seq<char>, p: int) -> bool {
    &&& 2 <= p < s.len()
    &&& s[0] == ESC
    &&& s[1] == '['
    &&& forall|i: int| 2 <= i < p ==> is_parameter(#[trigger] s[i])
    &&& forall|i: int| p <= i < s.len() - 1 ==> is_intermediate(#[trigger] s[i])
    &&& is_final(s.last())
}

/// A control string: `ESC`, an opener, a body without escape or bell up to
/// position `p`, and then a bell or `ESC \`.
pub open spec fn is_control_string(s: Seq<char>, p: int) -> bool {
    &&& 2 <= p < s.len()
    &&& s[0] == ESC
    &&& opens_string(s[1])
    &&& forall|i: int| 2 <= i < p ==> s[i] != ESC && s[i] != BEL
    &&& {
        ||| s.len() == p + 1 && s[p] == BEL
        ||| s.len() == p + 2 && s[p] == ESC && s.last() == '\\'
    }
}

/// Any other escape: `ESC`, intermediate characters, and a character from
/// `0` up to `~`. Directly after the escape that character is not one that
/// opens a control sequence or a control string.
pub open spec fn is_plain_escape(s: Seq<char>) -> bool {
    &&& s.len() >= 2
    &&& s[0] == ESC
    &&& forall|i: int| 1 <= i < s.len() - 1 ==> is_intermediate(#[trigger] s[i])
    &&& '0' <= s.last() <= '~'
    &&& s.len() == 2 ==> s[1] != '[' && !opens_string(s[1])
}

/// A complete escape sequence, and nothing besides.
pub open spec fn is_escape(s: Seq<char>) -> bool {
    ||| exists|p: int| is_control_sequence(s, p)
    ||| exists|p: int| is_control_string(s, p)
    ||| is_plain_escape(s)
}

/// Whether a text starts with an escape sequence of `n` characters.
pub open spec fn escape_ends(s: Seq<char>, n: int) -> bool {
    0 < n <= s.len() && is_escape(s.take(n))
}

/// A text without its escape sequences. An escape character that starts no
/// complete sequence stays, as does everything else.
pub open spec fn without_escapes(s: Seq<char>) -> Seq<char>
    decreases s.len(),
{
    if s.len() == 0 {
        s
    } else if exists|n: int| escape_ends(s, n) {
        without_escapes(s.skip(choose|n: int| escape_ends(s, n)))
    } else {
        seq![s[0]] + without_escapes(s.skip(1))
    }
}

/// No escape sequence is the start of another: where one starts, its length
/// is settled.
pub proof fn escape_length_is_unique(s: Seq<char>, m: int, n: int)
    requires
        escape_ends(s, m),
        escape_ends(s, n),
    ensures
        m == n,
{
    lemma_escape_not_longer(s, m, n);
    lemma_escape_not_longer(s, n, m);
}

proof fn lemma_escape_not_longer(s: Seq<char>, m: int, n: int)
    requires
        escape_ends(s, m),
        escape_ends(s, n),
    ensures
        n <= m,
{
    if m < n {
        let a = s.take(m);
        let b = s.take(n);
        assert(forall|i: int| 0 <= i < m ==> a[i] == s[i] && b[i] == s[i]);
        assert(a.last() == b[m - 1]);
        if exists|i: int| is_control_sequence(a, i) {
            let p = choose|i: int| is_control_sequence(a, i);
            if exists|i: int| is_control_sequence(b, i) {
                let q = choose|i: int| is_control_sequence(b, i);
                assert(is_final(b[m - 1]));
                assert(is_parameter(b[m - 1]) || is_intermediate(b[m - 1]));
            } else if exists|i: int| is_control_string(b, i) {
                let q = choose|i: int| is_control_string(b, i);
                assert(a[1] == b[1]);
            } else {
                assert(a[1] == b[1]);
                assert(is_intermediate(b[1]));
            }
        } else if exists|i: int| is_control_string(a, i) {
            let p = choose|i: int| is_control_string(a, i);
            assert(a[1] == b[1]);
            if exists|i: int| is_control_sequence(b, i) {
                let q = choose|i: int| is_control_sequence(b, i);
                assert(false);
            } else if exists|i: int| is_control_string(b, i) {
                let q = choose|i: int| is_control_string(b, i);
                assert(a[p] == b[p]);
                if p < q {
                    assert(b[p] != ESC && b[p] != BEL);
                } else {
                    if q < p {
                        assert(a[q] != ESC && a[q] != BEL);
                        assert(b[q] == a[q]);
                    }
                }
            } else {
                assert(is_intermediate(b[1]));
            }
        } else {
            assert(is_plain_escape(a));
            assert(a[1] == b[1]);
            if exists|i: int| is_control_sequence(b, i) {
                let q = choose|i: int| is_control_sequence(b, i);
                assert(m == 2 || is_intermediate(a[1]));
            } else if exists|i: int| is_control_string(b, i) {
                let q = choose|i: int| is_control_string(b, i);
                assert(m == 2 || is_intermediate(a[1]));
            } else {
                assert(is_intermediate(b[m - 1]));
            }
        }
    }
}

/// The position of the first character from `from` on that is no
/// intermediate character.
fn skip_intermediates(s: &[char], from: usize) -> (r: usize)
    requires
        from <= s@.len(),
    ensures
        from <= r <= s@.len(),
        forall|i: int| from <= i < r ==> is_intermediate(#[trigger] s@[i]),
        r < s@.len() ==> !is_intermediate(s@[r as int]),
{
    let mut i: usize = from;
    while i < s.len() && ' ' <= s[i] && s[i] <= '/'
        invariant
            from <= i <= s@.len(),
            forall|j: int| from <= j < i ==> is_intermediate(#[trigger] s@[j]),
        decreases s@.len() - i,
    {
        i = i + 1;
    }
    i
}

/// The length of the control sequence at the start of a text, 0 if none.
fn control_sequence_length(s: &[char]) -> (r: usize)
    requires
        s@.len() >= 2,
        s@[0] == ESC,
        s@[1] == '[',
    ensures
        r > 0 ==> escape_ends(s@, r as int),
        r == 0 ==> forall|n: int| !escape_ends(s@, n),
{
    let mut p: usize = 2;
    while p < s.len() && '0' <= s[p] && s[p] <= '?'
        invariant
            2 <= p <= s@.len(),
            forall|i: int| 2 <= i < p ==> is_parameter(#[trigger] s@[i]),
        decreases s@.len() - p,
    {
        p = p + 1;
    }
    let q: usize = skip_intermediates(s, p);
    if q < s.len() && '@' <= s[q] && s[q] <= '~' {
        assert(is_control_sequence(s@.take(q + 1), p as int));
        q + 1
    } else {
        assert forall|n: int| !escape_ends(s@, n) by {
            if escape_ends(s@, n) {
                let e = s@.take(n);
                assert(e[1] == '[');
                let i = choose|i: int| is_control_sequence(e, i);
                assert(n > 2);
                assert(is_control_sequence(e, i));
                if i < p {
                    assert(is_parameter(s@[i]));
                    assert(e[i] == s@[i]);
                }
                if p < i {
                    assert(is_parameter(e[p as int]));
                }
                if n - 1 < q {
                    assert(is_intermediate(s@[n - 1]));
                }
                if q < n - 1 {
                    assert(is_intermediate(e[q as int]));
                }
            }
        }
        0
    }
}

/// The length of the control string at the start of a text, 0 if none.
fn control_string_length(s: &[char]) -> (r: usize)
    requires
        s@.len() >= 2,
        s@[0] == ESC,
        opens_string(s@[1]),
    ensures
        r > 0 ==> escape_ends(s@, r as int),
        r == 0 ==> forall|n: int| !escape_ends(s@, n),
{
    let mut p: usize = 2;
    while p < s.len() && s[p] != ESC && s[p] != BEL
        invariant
            2 <= p <= s@.len(),
            forall|i: int| 2 <= i < p ==> s@[i] != ESC && s@[i] != BEL,
        decreases s@.len() - p,
    {
        p = p + 1;
    }
    if p < s.len() && s[p] == BEL {
        assert(is_control_string(s@.take(p + 1), p as int));
        p + 1
    } else if p < s.len() && p + 1 < s.len() && s[p + 1] == '\\' {
        assert(is_control_string(s@.take(p + 2), p as int));
        p + 2
    } else {
        assert forall|n: int| !escape_ends(s@, n) by {
            if escape_ends(s@, n) {
                let e = s@.take(n);
                assert(e[1] == s@[1]);
                assert(n == 2 || !is_intermediate(e[1]));
                let i = choose|i: int| is_control_string(e, i);
                assert(is_control_string(e, i));
                assert(e[i] == s@[i]);
                if p < i {
                    assert(e[p as int] == s@[p as int]);
                }
            }
        }
        0
    }
}

/// The length of an escape at the start of a text that opens neither a
/// control sequence nor a control string, 0 if none.
fn plain_escape_length(s: &[char]) -> (r: usize)
    requires
        s@.len() >= 2,
        s@[0] == ESC,
        s@[1] != '[',
        !opens_string(s@[1]),
    ensures
        r > 0 ==> escape_ends(s@, r as int),
        r == 0 ==> forall|n: int| !escape_ends(s@, n),
{
    let q: usize = skip_intermediates(s, 1);
    if q < s.len() && '0' <= s[q] && s[q] <= '~' {
        assert(is_plain_escape(s@.take(q + 1)));
        q + 1
    } else {
        assert forall|n: int| !escape_ends(s@, n) by {
            if escape_ends(s@, n) {
                let e = s@.take(n);
                if n > 1 {
                    assert(e[1] == s@[1]);
                }
                assert(is_plain_escape(e));
                if n - 1 < q {
                    assert(is_intermediate(s@[n - 1]));
                }
                if q < n - 1 {
                    assert(is_intermediate(e[q as int]));
                }
            }
        }
        0
    }
}

/// The length of the escape sequence at the start of a text, 0 if none.
fn escape_length(s: &[char]) -> (r: usize)
    ensures
        r > 0 ==> escape_ends(s@, r as int),
        r == 0 ==> forall|n: int| !escape_ends(s@, n),
{
    if s.len() < 2 || s[0] != ESC {
        assert forall|n: int| !escape_ends(s@, n) by {
            if escape_ends(s@, n) {
                assert(s@.take(n)[0] == s@[0]);
            }
        }
        return 0;
    }
    let c = s[1];
    if c == '[' {
        control_sequence_length(s)
    } else if c == 'P' || c == 'X' || c == ']' || c == '^' || c == '_' {
        control_string_length(s)
    } else {
        plain_escape_length(s)
    }
}

/// Removes the escape sequences from a text.
pub fn strip_ansi(content: &str) -> (r: String)
    ensures
        r@ == without_escapes(content@),
{
    let chars = to_chars(content);
    let len: usize = chars.len();
    let mut out = String::new();
    let mut i: usize = 0;
    assert(chars@.skip(0) == chars@);
    while i < len
        invariant
            len == chars@.len(),
            chars@ == content@,
            i <= len,
            out@ + without_escapes(chars@.skip(i as int)) == without_escapes(content@),
        decreases len - i,
    {
        let ghost rest = chars@.skip(i as int);
        let n: usize = escape_length(slice_subrange(chars.as_slice(), i, len));
        assert(chars@.subrange(i as int, len as int) == rest);
        if n > 0 {
            proof {
                let m = choose|m: int| escape_ends(rest, m);
                escape_length_is_unique(rest, m, n as int);
                assert(rest.skip(n as int) == chars@.skip(i + n));
            }
            i = i + n;
        } else {
            out.push(chars[i]);
            assert(rest.skip(1) == chars@.skip(i + 1));
            assert(out@ + without_escapes(rest.skip(1)) == out@.drop_last()
                + without_escapes(rest));
            i = i + 1;
        }
    }
    out
}

proof fn lemma_plain_start(s: Seq<char>)
    requires
        s.len() > 0,
        s[0] != ESC,
    ensures
        forall|n: int| !escape_ends(s, n),
        without_escapes(s) == seq![s[0]] + without_escapes(s.skip(1)),
{
    assert forall|n: int| !escape_ends(s, n) by {
        if escape_ends(s, n) {
            assert(s.take(n)[0] == s[0]);
        }
    }
}

/// Whether every escape character of a text belongs to a complete escape
/// sequence.
pub open spec fn is_complete(s: Seq<char>) -> bool
    decreases s.len(),
{
    if s.len() == 0 {
        true
    } else if exists|n: int| escape_ends(s, n) {
        is_complete(s.skip(choose|n: int| escape_ends(s, n)))
    } else {
        s[0] != ESC && is_complete(s.skip(1))
    }
}

/// Text without stray escape characters is stripped by itself, whatever
/// follows it.
pub proof fn complete_text_is_stripped_apart(s: Seq<char>, rest: Seq<char>)
    requires
        is_complete(s),
    ensures
        without_escapes(s + rest) == without_escapes(s) + without_escapes(rest),
    decreases s.len(),
{
    let all = s + rest;
    if s.len() == 0 {
        assert(all == rest);
        assert(without_escapes(s) + without_escapes(rest) == without_escapes(rest));
    } else if exists|n: int| escape_ends(s, n) {
        let n = choose|n: int| escape_ends(s, n);
        assert(all.take(n) == s.take(n));
        assert(escape_ends(all, n));
        escape_length_is_unique(all, choose|m: int| escape_ends(all, m), n);
        assert(all.skip(n) == s.skip(n) + rest);
        complete_text_is_stripped_apart(s.skip(n), rest);
    } else {
        assert(all[0] == s[0]);
        lemma_plain_start(s);
        lemma_plain_start(all);
        assert(all.skip(1) == s.skip(1) + rest);
        complete_text_is_stripped_apart(s.skip(1), rest);
        assert(seq![s[0]] + (without_escapes(s.skip(1)) + without_escapes(rest))
            == without_escapes(s) + without_escapes(rest));
    }
}

/// A text without escape characters is not changed.
pub proof fn plain_text_is_unchanged(s: Seq<char>)
    requires
        !s.contains(ESC),
    ensures
        is_complete(s),
        without_escapes(s) == s,
    decreases s.len(),
{
    if s.len() > 0 {
        assert(s.contains(s[0]));
        lemma_plain_start(s);
        let rest = s.skip(1);
        assert forall|c: char| rest.contains(c) implies s.contains(c) by {
            let i = rest.index_of(c);
            assert(s[i + 1] == c);
        }
        plain_text_is_unchanged(rest);
        assert(seq![s[0]] + rest == s);
    }
}

/// An escape sequence leaves no trace.
pub proof fn escape_vanishes(escape: Seq<char>, rest: Seq<char>)
    requires
        is_escape(escape),
    ensures
        without_escapes(escape + rest) == without_escapes(rest),
{
    let s = escape + rest;
    let n = escape.len() as int;
    assert(s.take(n) == escape);
    assert(escape_ends(s, n));
    let m = choose|m: int| escape_ends(s, m);
    escape_length_is_unique(s, m, n);
    assert(s.skip(n) == rest);
}

/// A character that is no escape character stays.
pub proof fn other_characters_stay(c: char, rest: Seq<char>)
    requires
        c != '\x1b',
    ensures
        without_escapes(seq![c] + rest) == seq![c] + without_escapes(rest),
{
    let s = seq![c] + rest;
    lemma_plain_start(s);
    assert(s.skip(1) == rest);
}

/// Colours, cursor movement and the like vanish: the escape character, `[`,
/// any characters from `0` to `?`, any from the space to `/`, and one from
/// `@` to `~`.
pub proof fn control_sequence_vanishes(
    parameters: Seq<char>,
    intermediates: Seq<char>,
    last: char,
    rest: Seq<char>,
)
    requires
        forall|i: int| 0 <= i < parameters.len() ==> '0' <= #[trigger] parameters[i] <= '?',
        forall|i: int|
            0 <= i < intermediates.len() ==> ' ' <= #[trigger] intermediates[i] <= '/',
        '@' <= last <= '~',
    ensures
        without_escapes(seq!['\x1b', '['] + parameters + intermediates + seq![last] + rest)
            == without_escapes(rest),
{
    let escape = seq!['\x1b', '['] + parameters + intermediates + seq![last];
    let p = 2 + parameters.len() as int;
    assert forall|i: int| 2 <= i < p implies is_parameter(#[trigger] escape[i]) by {
        assert(escape[i] == parameters[i - 2]);
    }
    assert forall|i: int| p <= i < escape.len() - 1 implies is_intermediate(
        #[trigger] escape[i],
    ) by {
        assert(escape[i] == intermediates[i - p]);
    }
    assert(is_control_sequence(escape, p));
    escape_vanishes(escape, rest);
}

/// Titles, links and other control strings vanish with what they hold: the
/// escape character, one of `P`, `X`, `]`, `^` and `_`, a body without escape
/// character and bell, and a bell or the escape character and `\` at the end.
pub proof fn control_string_vanishes(opener: char, body: Seq<char>, rest: Seq<char>)
    requires
        opener == 'P' || opener == 'X' || opener == ']' || opener == '^' || opener == '_',
        forall|i: int|
            0 <= i < body.len() ==> #[trigger] body[i] != '\x1b' && body[i] != '\x07',
    ensures
        without_escapes(seq!['\x1b', opener] + body + seq!['\x07'] + rest) == without_escapes(rest),
        without_escapes(seq!['\x1b', opener] + body + seq!['\x1b', '\\'] + rest)
            == without_escapes(rest),
{
    let p = 2 + body.len() as int;
    let front = seq!['\x1b', opener] + body;
    let rung = front + seq!['\x07'];
    let closed = front + seq!['\x1b', '\\'];
    assert forall|i: int| 2 <= i < p implies rung[i] != ESC && rung[i] != BEL && closed[i] != ESC
        && closed[i] != BEL by {
        assert(rung[i] == body[i - 2]);
        assert(closed[i] == body[i - 2]);
    }
    assert(is_control_string(rung, p));
    escape_vanishes(rung, rest);
    assert(is_control_string(closed, p));
    escape_vanishes(closed, rest);
}

/// Short escapes vanish: the escape character, any characters from the space
/// to `/`, and one from `0` to `~`, which without any between opens neither a
/// control sequence nor a control string.
pub proof fn short_escape_vanishes(intermediates: Seq<char>, last: char, rest: Seq<char>)
    requires
        forall|i: int|
            0 <= i < intermediates.len() ==> ' ' <= #[trigger] intermediates[i] <= '/',
        '0' <= last <= '~',
        intermediates.len() == 0 ==> last != '[' && last != 'P' && last != 'X' && last != ']'
            && last != '^' && last != '_',
    ensures
        without_escapes(seq!['\x1b'] + intermediates + seq![last] + rest) == without_escapes(rest),
{
    let escape = seq!['\x1b'] + intermediates + seq![last];
    assert forall|i: int| 1 <= i < escape.len() - 1 implies is_intermediate(
        #[trigger] escape[i],
    ) by {
        assert(escape[i] == intermediates[i - 1]);
    }
    assert(is_plain_escape(escape));
    escape_vanishes(escape, rest);
}

proof fn lemma_stray_escape(s: Seq<char>)
    requires
        s.len() > 0,
        s[0] == ESC,
        forall|n: int| !escape_ends(s, n),
    ensures
        without_escapes(s) == seq!['\x1b'] + without_escapes(s.skip(1)),
{
}

/// An escape character that nothing completes stays: after it, or after it
/// and characters from the space to `/`, the text ends, or a character
/// outside the space to `~` comes.
pub proof fn stray_escape_stays(intermediates: Seq<char>, rest: Seq<char>)
    requires
        forall|i: int|
            0 <= i < intermediates.len() ==> ' ' <= #[trigger] intermediates[i] <= '/',
        rest.len() > 0 ==> !(' ' <= rest[0] <= '~'),
    ensures
        without_escapes(seq!['\x1b'] + intermediates + rest) == seq!['\x1b'] + without_escapes(
            intermediates + rest,
        ),
{
    let s = seq!['\x1b'] + intermediates + rest;
    let q = 1 + intermediates.len() as int;
    assert forall|i: int| 1 <= i < q implies is_intermediate(#[trigger] s[i]) by {
        assert(s[i] == intermediates[i - 1]);
    }
    assert forall|n: int| !escape_ends(s, n) by {
        if escape_ends(s, n) {
            let e = s.take(n);
            if n > 1 {
                assert(e[1] == s[1]);
                if q == 1 {
                    assert(s[1] == rest[0]);
                }
            }
            assert(is_plain_escape(e));
            if n - 1 < q {
                assert(is_intermediate(s[n - 1]));
            } else {
                assert(s[q] == rest[0]);
                if q < n - 1 {
                    assert(is_intermediate(e[q]));
                }
            }
        }
    }
    lemma_stray_escape(s);
    assert(s.skip(1) == intermediates + rest);
}

/// A control sequence that is not completed stays: after its parameters and
/// intermediate characters the text ends, or a character comes that neither
/// goes on with it nor ends it.
pub proof fn unfinished_control_sequence_stays(
    parameters: Seq<char>,
    intermediates: Seq<char>,
    rest: Seq<char>,
)
    requires
        forall|i: int| 0 <= i < parameters.len() ==> '0' <= #[trigger] parameters[i] <= '?',
        forall|i: int|
            0 <= i < intermediates.len() ==> ' ' <= #[trigger] intermediates[i] <= '/',
        rest.len() > 0 ==> !(' ' <= rest[0] <= '/') && !('@' <= rest[0] <= '~'),
        rest.len() > 0 && intermediates.len() == 0 ==> !('0' <= rest[0] <= '?'),
    ensures
        without_escapes(seq!['\x1b', '['] + parameters + intermediates + rest) == seq!['\x1b']
            + without_escapes(seq!['['] + parameters + intermediates + rest),
{
    let s = seq!['\x1b', '['] + parameters + intermediates + rest;
    let p = 2 + parameters.len() as int;
    let q = p + intermediates.len() as int;
    assert forall|i: int| 2 <= i < p implies is_parameter(#[trigger] s[i]) by {
        assert(s[i] == parameters[i - 2]);
    }
    assert forall|i: int| p <= i < q implies is_intermediate(#[trigger] s[i]) by {
        assert(s[i] == intermediates[i - p]);
    }
    assert forall|n: int| !escape_ends(s, n) by {
        if escape_ends(s, n) {
            let e = s.take(n);
            assert(s[1] == '[');
            if n > 1 {
                assert(e[1] == '[');
            }
            let i = choose|i: int| is_control_sequence(e, i);
            assert(is_control_sequence(e, i));
            if n - 1 < p {
                assert(is_parameter(s[n - 1]));
            } else if n - 1 < q {
                assert(is_intermediate(s[n - 1]));
            } else {
                assert(s[q] == rest[0]);
                if q < n - 1 {
                    assert(is_parameter(e[q]) || is_intermediate(e[q]));
                    if p < q {
                        assert(e[p] == s[p]);
                        assert(i <= p);
                    }
                }
            }
        }
    }
    lemma_stray_escape(s);
    assert(s.skip(1) == seq!['['] + parameters + intermediates + rest);
}

/// A control string that is not closed stays: its body is followed by the end
/// of the text, or by an escape character without a `\` after it.
pub proof fn unclosed_control_string_stays(opener: char, body: Seq<char>, rest: Seq<char>)
    requires
        opener == 'P' || opener == 'X' || opener == ']' || opener == '^' || opener == '_',
        forall|i: int|
            0 <= i < body.len() ==> #[trigger] body[i] != '\x1b' && body[i] != '\x07',
        rest.len() > 0 ==> rest[0] == '\x1b',
        rest.len() > 1 ==> rest[1] != '\\',
    ensures
        without_escapes(seq!['\x1b', opener] + body + rest) == seq!['\x1b'] + without_escapes(
            seq![opener] + body + rest,
        ),
{
    let s = seq!['\x1b', opener] + body + rest;
    let p = 2 + body.len() as int;
    assert forall|i: int| 2 <= i < p implies s[i] != ESC && s[i] != BEL by {
        assert(s[i] == body[i - 2]);
    }
    assert forall|n: int| !escape_ends(s, n) by {
        if escape_ends(s, n) {
            let e = s.take(n);
            assert(s[1] == opener);
            if n > 1 {
                assert(e[1] == opener);
            }
            let i = choose|i: int| is_control_string(e, i);
            assert(is_control_string(e, i));
            assert(e[i] == s[i]);
            assert(s[p] == rest[0]);
            if p < i {
                assert(e[p] == s[p]);
            }
            if rest.len() > 1 {
                assert(s[p + 1] == rest[1]);
            }
        }
    }
    lemma_stray_escape(s);
    assert(s.skip(1) == seq![opener] + body + rest);
}

} // verus!
