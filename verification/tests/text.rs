//! Texts, numbers and paths, against the standard library.

use libmemlog::number::{
    append_decimal_padded, append_fill, decimal_string, hex_encode, parse_number, NumberError,
};
use libmemlog::path::join;
use libmemlog::text::{chars_of, line_spans, same_text, Span, Strip};
use std::path::Path;

fn whole(chars: &Vec<char>) -> Span {
    Span { start: 0, end: chars.len() }
}

fn cut(chars: &Vec<char>, span: Span) -> String {
    chars[span.start..span.end].iter().collect()
}

#[test]
fn white_space_is_that_of_unicode() {
    for code in 0..=0x10ffffu32 {
        if let Some(c) = char::from_u32(code) {
            let chars = vec![c];
            let left = whole(&chars).trim(&chars);
            assert_eq!(left.start == left.end, c.is_whitespace(), "{code:x}");
        }
    }
}

#[test]
fn texts_are_trimmed_as_the_standard_library_trims_them() {
    for text in ["", " ", "a", " a ", "\t\u{3000}a b\n", "\u{a0}\u{2028}", "x\u{85}"] {
        let chars = chars_of(text);
        assert_eq!(cut(&chars, whole(&chars).trim(&chars)), text.trim());
    }
    for text in ["", "000", "0660", "6600", "0\0\0", "\0a\0\0"] {
        let chars = chars_of(text);
        assert_eq!(
            cut(&chars, whole(&chars).strip_front(&chars, Strip::Only('0'))),
            text.trim_start_matches('0')
        );
        assert_eq!(
            cut(&chars, whole(&chars).strip_back(&chars, Strip::Only('\0'))),
            text.trim_end_matches('\0')
        );
    }
}

#[test]
fn texts_are_split_as_the_standard_library_splits_them() {
    for text in ["", ",", "a", "a,b", ",a,,b,", "\u{e9},\u{20ac}"] {
        let chars = chars_of(text);
        let pieces: Vec<String> =
            whole(&chars).split(&chars, ',').into_iter().map(|s| cut(&chars, s)).collect();
        let expected: Vec<String> = text.split(',').map(|s| s.to_string()).collect();
        assert_eq!(pieces, expected);
    }
    for text in ["", "\n", "a", "a\n", "a\r\nb", "\r\n\r\n", "a\r", "a\rb\n\nc\r\n", "\r"] {
        let chars = chars_of(text);
        let lines: Vec<String> = line_spans(&chars).into_iter().map(|s| cut(&chars, s)).collect();
        let expected: Vec<String> = text.lines().map(|s| s.to_string()).collect();
        assert_eq!(lines, expected, "{text:?}");
    }
}

#[test]
fn parts_of_a_text_are_found() {
    let texts = ["", "mem", "memlog", "a memlog b", "memmemlog", "memlo", "\u{e9}memlog"];
    for text in texts {
        let chars = chars_of(text);
        let span = whole(&chars);
        assert_eq!(span.holds(&chars, "memlog"), text.contains("memlog"));
        assert_eq!(span.starts_with(&chars, "mem"), text.starts_with("mem"));
        assert_eq!(span.ends_with(&chars, "log"), text.ends_with("log"));
        assert_eq!(span.holds(&chars, ""), true);
    }
    let chars = chars_of("a=b=c");
    assert_eq!(whole(&chars).find(&chars, '='), 1);
    assert_eq!(whole(&chars).find(&chars, 'x'), 5);
    assert!(same_text("abc", "abc"));
    assert!(!same_text("abc", "abd"));
    assert!(!same_text("abc", "ab"));
}

#[test]
fn numbers_are_read_as_the_standard_library_reads_them() {
    let texts = [
        "", "+", "-", "0", "7", "8", "+5", "-5", "++5", "00012", "18446744073709551615",
        "18446744073709551616", "99999999999999999999x", "x99999999999999999999", "12a", " 1",
        "1 ", "\u{661}", "1\u{e9}", "777", "37777777777", "40000000000", "0x10", "1_000",
    ];
    for text in texts {
        let chars = chars_of(text);
        let span = whole(&chars);
        let read = parse_number(&chars, span, 10, u64::MAX).map_err(|e| e.message().to_string());
        assert_eq!(read, text.parse::<u64>().map_err(|e| e.to_string()), "{text:?}");
        let read = parse_number(&chars, span, 8, u32::MAX as u64)
            .map(|n| n as u32)
            .map_err(|e| e.message().to_string());
        assert_eq!(read, u32::from_str_radix(text, 8).map_err(|e| e.to_string()), "{text:?}");
    }
    let chars = chars_of("x1");
    assert_eq!(parse_number(&chars, whole(&chars), 10, 9), Err(NumberError::InvalidDigit));
    let chars = chars_of("10");
    assert_eq!(parse_number(&chars, whole(&chars), 10, 9), Err(NumberError::Overflow));
    assert_eq!(parse_number(&chars, Span { start: 1, end: 1 }, 10, 9), Err(NumberError::Empty));
}

#[test]
fn numbers_are_written_as_the_standard_library_writes_them() {
    for n in [0u64, 1, 9, 10, 42, 99, 100, 99999, 100000, 12345678901234567890, u64::MAX] {
        assert_eq!(decimal_string(n), format!("{n}"));
        let mut text = String::from("<");
        append_decimal_padded(&mut text, n, 5);
        assert_eq!(text, format!("<{n:05}"));
        let chars = chars_of(&text[1..]);
        assert_eq!(parse_number(&chars, whole(&chars), 10, u64::MAX), Ok(n));
    }
    let mut text = String::new();
    append_fill(&mut text, "-", 62);
    assert_eq!(text, "-".repeat(62));
}

#[test]
fn bytes_are_written_in_hex() {
    let bytes: Vec<u8> = (0..=255u8).collect();
    assert_eq!(hex_encode(&bytes), hex::encode(&bytes));
    assert_eq!(hex_encode(&[]), "");
    assert_eq!(hex_encode(&[0x0f, 0xa0]), "0fa0");
}

#[test]
fn paths_are_joined_as_the_standard_library_joins_them() {
    for base in ["", "a", "a/", "/", "/a/b", ".", "a//"] {
        for rest in ["", "b", "/b", "b/c", "..", "b/", "/"] {
            let expected = Path::new(base).join(rest);
            assert_eq!(join(base, rest), expected.to_str().unwrap(), "{base:?} {rest:?}");
        }
    }
}
