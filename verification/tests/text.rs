use pane_watch::ansi::strip_ansi;
use pane_watch::normalize::normalize_line;
use pane_watch::text::{is_white_space, join_lines, pane_lines, to_chars};

#[test]
fn white_space_is_the_unicode_property() {
    for n in 0..=0x10ffffu32 {
        if let Some(c) = char::from_u32(n) {
            assert_eq!(is_white_space(c), c.is_whitespace(), "{n:x}");
        }
    }
}

#[test]
fn ascii_letters_and_digits_are_alphanumeric() {
    for n in 0..0x80u8 {
        let c = n as char;
        let plain = c.is_ascii_digit() || c.is_ascii_uppercase() || c.is_ascii_lowercase();
        assert_eq!(c.is_alphanumeric(), plain);
    }
}

#[test]
fn characters_come_in_order() {
    assert_eq!(to_chars("aé\u{1f49d}"), vec!['a', 'é', '\u{1f49d}']);
    assert!(to_chars("").is_empty());
}

#[test]
fn lines_are_cut_and_trimmed() {
    assert_eq!(pane_lines("a\n  b \t\r\n\n \nc"), vec!["a", "  b", "c"]);
    assert!(pane_lines("").is_empty());
    assert!(pane_lines("\n\r\n \u{3000}\n").is_empty());
    let text = " x\r\ny\u{a0}\n\u{2028}\n\rz\n";
    let same: Vec<&str> = text
        .lines()
        .map(str::trim_end)
        .filter(|l| !l.trim().is_empty())
        .collect();
    assert_eq!(pane_lines(text), same);
}

#[test]
fn text_above_and_below_a_break_is_cut_apart() {
    let mut both = pane_lines("a\nb ");
    both.extend(pane_lines(" c\n\nd"));
    assert_eq!(pane_lines("a\nb \n c\n\nd"), both);
}

#[test]
fn joining_puts_newlines_between() {
    let lines = vec!["a".to_string(), "b".to_string(), "c".to_string()];
    assert_eq!(join_lines(&lines, 0), "a\nb\nc");
    assert_eq!(join_lines(&lines, 1), "b\nc");
    assert_eq!(join_lines(&lines, 2), "c");
    assert_eq!(join_lines(&lines, 3), "");
}

#[test]
fn decoration_and_enumerators_are_stripped() {
    assert_eq!(normalize_line(" > 1. Stop and wait"), "Stop and wait");
    assert_eq!(normalize_line("\u{276f} 12)\u{a0} Go"), "Go");
    assert_eq!(normalize_line("5-hour limit reached"), "5-hour limit reached");
    assert_eq!(normalize_line("2"), "2");
    assert_eq!(normalize_line("2."), "");
    assert_eq!(normalize_line("3) 4. five"), "4. five");
    assert_eq!(normalize_line("* \u{e9}t\u{e9}"), "\u{e9}t\u{e9}");
    assert_eq!(normalize_line("\u{663}. x"), "\u{663}. x");
    assert_eq!(normalize_line("--- "), "");
    assert_eq!(normalize_line(""), "");
}

#[test]
fn ornaments_do_not_matter() {
    for ornament in ["", "  ", "> ", "\u{2022} ", "[*] "] {
        for line in ["Stop", "1. Stop", "5-hour", ""] {
            let decorated = format!("{ornament}{line}");
            assert_eq!(normalize_line(&decorated), normalize_line(line));
        }
    }
}

#[test]
fn escape_sequences_are_removed() {
    assert_eq!(strip_ansi("\x1b[31mred\x1b[0m"), "red");
    assert_eq!(strip_ansi("a\x1b[1;38;5;200mb\x1b[?25hc"), "abc");
    assert_eq!(strip_ansi("a\x1b[3~b\x1b[2 qc"), "abc");
    assert_eq!(strip_ansi("\x1b]0;title\x07x"), "x");
    assert_eq!(strip_ansi("\x1b]8;;http://a\x1b\\link\x1b]8;;\x1b\\"), "link");
    assert_eq!(strip_ansi("\x1bPq#0\x1b\\x"), "x");
    assert_eq!(strip_ansi("\x1b(Bx\x1b7y\x1bMz"), "xyz");
}

#[test]
fn incomplete_escapes_stay() {
    assert_eq!(strip_ansi("a\x1b"), "a\x1b");
    assert_eq!(strip_ansi("\x1b[31"), "\x1b[31");
    assert_eq!(strip_ansi("\x1b[3\nx"), "\x1b[3\nx");
    assert_eq!(strip_ansi("\x1b]0;title"), "\x1b]0;title");
    assert_eq!(strip_ansi("\x1b\x1b[mx"), "\x1bx");
}

#[test]
fn plain_text_is_left_alone() {
    for text in ["", "plain", "[31m", "a\nb\r\n\u{e9}\x07"] {
        assert_eq!(strip_ansi(text), text);
    }
}

#[test]
fn complete_text_is_stripped_by_itself() {
    let front = "a\x1b[1mb\x1b]0;t\x07c";
    for rest in ["", "[31m", "\x1b[32mx", "\x1b"] {
        let both = format!("{front}{rest}");
        let apart = format!("{}{}", strip_ansi(front), strip_ansi(rest));
        assert_eq!(strip_ansi(&both), apart);
    }
}
