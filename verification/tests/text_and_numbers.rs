//! Text, numbers and orderings, held against the standard library.

use deepseek_tui::number::{parse_number, push_decimal};
use deepseek_tui::order::text_le;
use deepseek_tui::text::{
    byte_len, chars_of, has_char, has_prefix, is_blank, is_white_space, same_text, split_lines,
    to_lower_ascii, to_slashes, trimmed, trimmed_end, trimmed_start,
};

const SAMPLES: [&str; 14] = [
    "",
    " ",
    "\u{3000}\u{a0}\t",
    "a",
    " a ",
    "a b",
    "\na\r\n",
    "é\u{2028}",
    "総\u{200a}",
    "A/b\\C",
    "🦀x",
    "\\",
    "\u{200b}",
    "ab\u{85}",
];

#[test]
fn white_space_is_that_of_unicode() {
    for c in '\u{0}'..=char::MAX {
        assert_eq!(is_white_space(c), c.is_whitespace(), "{c:?}");
    }
}

#[test]
fn texts_are_trimmed_and_measured() {
    for s in SAMPLES {
        assert_eq!(trimmed(s), s.trim());
        assert_eq!(trimmed_start(s), s.trim_start());
        assert_eq!(trimmed_end(s), s.trim_end());
        assert_eq!(is_blank(s), s.trim().is_empty());
        assert_eq!(byte_len(s), s.len());
        assert_eq!(chars_of(s), s.chars().collect::<Vec<char>>());
        assert_eq!(to_slashes(s), s.replace('\\', "/"));
        assert_eq!(to_lower_ascii(s), s.to_ascii_lowercase());
        assert_eq!(has_char(s, 'a'), s.contains('a'));
        for t in SAMPLES {
            assert_eq!(same_text(s, t), s == t);
            assert_eq!(has_prefix(s, t), s.starts_with(t));
            assert_eq!(text_le(s, t), s <= t, "{s:?} {t:?}");
        }
    }
    assert_eq!(to_lower_ascii("@AZ[`az{É"), "@az[`az{É");
}

#[test]
fn lines_are_the_pieces_between_line_feeds() {
    assert_eq!(split_lines(""), [""]);
    assert_eq!(split_lines("a"), ["a"]);
    assert_eq!(split_lines("a\n\nb\r\n"), ["a", "", "b\r", ""]);
}

#[test]
fn numbers_are_written_and_read_back() {
    for n in [0, 1, 9, 10, 99, 100, 12_345, usize::MAX / 10, usize::MAX - 1, usize::MAX] {
        let mut s = String::from("n=");
        push_decimal(&mut s, n);
        assert_eq!(s, format!("n={n}"));
        assert_eq!(parse_number(&s[2..]), Some(n));
    }
}

#[test]
fn numbers_are_read_as_the_standard_library_does() {
    for s in [
        "", "+", "-", "+0", "-0", "007", "+12", "++1", "1 ", " 1", "1_0", "0x1", "٣", "1e3", "é",
        "18446744073709551615", "18446744073709551616", "99999999999999999999", "4294967296",
        "00000000000000000000000000000001",
    ] {
        assert_eq!(parse_number(s), s.parse::<usize>().ok(), "{s:?}");
    }
}
