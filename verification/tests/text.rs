use nago_http::number::{read_number, write_decimal};
use nago_http::text::{
    contains_text, equal_ignoring_case, equal_text, join, join3, lower_contains, rsplit_text,
    split_text, strip_text, trim_text, white_space,
};

const SAMPLES: [&str; 14] = [
    "",
    "a",
    "A:b:c",
    ":",
    "\r\n",
    "x\r\ny\r\n",
    "\r\r\n\n",
    "caf\u{e9}:\u{1f600}:",
    "\u{e9}\u{e9}\r\n\u{20ac}",
    " \t padded \u{3000}\u{a0}",
    "\u{2003}",
    "Transfer-Encoding",
    "gzip, ChunKed",
    "\u{212a}elvin",
];

#[test]
fn splitting_agrees_with_the_standard_library() {
    for text in SAMPLES {
        for part in [":", "\r\n", "a", "e"] {
            assert_eq!(split_text(text, part), text.split_once(part));
            assert_eq!(rsplit_text(text, part), text.rsplit_once(part));
            assert_eq!(strip_text(text, part), text.strip_prefix(part));
            assert_eq!(contains_text(text, part), text.contains(part));
            assert_eq!(
                lower_contains(text, part),
                text.to_ascii_lowercase().contains(part)
            );
        }
    }
}

#[test]
fn comparing_agrees_with_the_standard_library() {
    for a in SAMPLES {
        for b in SAMPLES {
            assert_eq!(equal_text(a, b), a == b);
            assert_eq!(equal_ignoring_case(a, b), a.eq_ignore_ascii_case(b));
        }
        assert!(equal_ignoring_case(a, &a.to_ascii_uppercase()));
    }
    assert!(!equal_ignoring_case("\u{e9}", "\u{c9}"));
    assert!(!equal_ignoring_case("k", "\u{212a}"));
}

#[test]
fn trimming_agrees_with_the_standard_library() {
    for text in SAMPLES {
        assert_eq!(trim_text(text), text.trim());
    }
    for c in '\0'..=char::MAX {
        assert_eq!(white_space(c), c.is_whitespace(), "{c:?}");
    }
}

#[test]
fn numbers_are_read_as_the_standard_library_reads_them() {
    for text in [
        "", "+", "-", "0", "00", "+0", "-0", "7", "+7", "++7", "7+", " 7", "1_0", "65535", "65536",
        "+065535", "ff", "FF", "fF+", "g", "ffff", "10000", "\u{664}",
    ] {
        assert_eq!(
            read_number(text, 10, u16::MAX as u64),
            text.parse::<u16>().ok().map(u64::from)
        );
        assert_eq!(
            read_number(text, 16, u16::MAX as u64),
            u16::from_str_radix(text, 16).ok().map(u64::from)
        );
    }
    for text in [
        "18446744073709551615",
        "18446744073709551616",
        "99999999999999999999",
        "000000000000000000000000000000001",
    ] {
        assert_eq!(read_number(text, 10, u64::MAX), text.parse::<u64>().ok());
    }
}

#[test]
fn numbers_are_written_in_decimal() {
    for value in [0, 1, 9, 10, 99, 100, 1203, 8_388_608, u64::MAX] {
        assert_eq!(write_decimal(value), value.to_string());
        assert_eq!(read_number(&write_decimal(value), 10, u64::MAX), Some(value));
    }
}

#[test]
fn joining_puts_texts_side_by_side() {
    assert_eq!(join("a", "\u{e9}"), "a\u{e9}");
    assert_eq!(join3("", "b", "c"), "bc");
}
