use zor::numeral::{append_decimal, parse_digits, parse_i32, parse_unsigned, push_decimal};
use zor::text::{
    contains_text, is_whitespace, lines_of, split_bytes, split_chars, trimmed, trimmed_end, words_of,
};

fn chars(text: &str) -> Vec<char> {
    text.chars().collect()
}

#[test]
fn whitespace_is_that_of_the_standard_library() {
    for code in 0..0x11_0000_u32 {
        if let Some(character) = char::from_u32(code) {
            assert_eq!(is_whitespace(character), character.is_whitespace());
        }
    }
}

#[test]
fn splitting_keeps_empty_parts() {
    assert_eq!(split_bytes(b"a;;b;", b';'), [b"a".as_slice(), b"", b"b", b""]);
    assert_eq!(split_bytes(b"", b';'), [b"".as_slice()]);
    assert_eq!(split_chars(&chars("/a"), '/').len(), 2);
}

#[test]
fn lines_and_words_are_those_of_the_standard_library() {
    for text in ["", "a", "a\n", "a\r\nb", "\n\nx\r", " a  b\u{3000}c ", "a\rb\r\r\n"] {
        let given = chars(text);
        let lines: Vec<String> = lines_of(&given).iter().map(|line| line.iter().collect()).collect();
        assert_eq!(lines, text.lines().collect::<Vec<_>>());
        let words: Vec<String> = words_of(&given).iter().map(|word| word.iter().collect()).collect();
        assert_eq!(words, text.split_whitespace().collect::<Vec<_>>());
        assert_eq!(trimmed_end(&given), chars(text.trim_end()));
        assert_eq!(trimmed(&given), chars(text.trim()));
    }
}

#[test]
fn texts_occur_in_texts() {
    assert!(contains_text(&chars("abc"), &chars("bc")));
    assert!(contains_text(&chars("abc"), &[]));
    assert!(!contains_text(&chars("abc"), &chars("ac")));
    assert!(!contains_text(&chars("a"), &chars("aa")));
}

#[test]
fn numerals_are_written_and_read() {
    for value in [0, 7, 10, 65535, u64::MAX] {
        let mut bytes = Vec::new();
        push_decimal(&mut bytes, value);
        assert_eq!(bytes, value.to_string().into_bytes());
        let mut text = String::new();
        append_decimal(&mut text, value);
        assert_eq!(text, value.to_string());
        assert_eq!(parse_digits(&bytes, u64::MAX), Some(value));
    }
    assert_eq!(parse_digits(b"18446744073709551616", u64::MAX), None);
    assert_eq!(parse_digits(b"", u64::MAX), None);
    assert_eq!(parse_digits(b"+1", u64::MAX), None);
    assert_eq!(parse_unsigned(&chars("+1"), 255), Some(1));
    assert_eq!(parse_unsigned(&chars("256"), 255), None);
}

#[test]
fn signed_numerals_are_those_of_the_standard_library() {
    for text in [
        "0", "-0", "+5", "-5", "2147483647", "2147483648", "-2147483648", "-2147483649", "", "-", "+", "1x", " 1",
    ] {
        assert_eq!(parse_i32(&chars(text)), text.parse::<i32>().ok());
    }
}
