use scratchpick::text::{
    append_decimal, bytes_equal, bytes_le, is_space, same_text, text_before_or_equal, trim_end,
};

fn samples() -> Vec<&'static str> {
    vec!["", "a", "A", "ab", "abc", "b", "B", "z", "é", "ü", "日本", "\u{10348}", " ", "1:x", "10", "9"]
}

#[test]
fn text_order_is_the_order_of_the_encoded_bytes() {
    for a in samples() {
        for b in samples() {
            assert_eq!(text_before_or_equal(a, b), a <= b, "{:?} against {:?}", a, b);
        }
    }
}

#[test]
fn text_order_on_chosen_pairs() {
    assert!(text_before_or_equal("a", "b"));
    assert!(!text_before_or_equal("b", "a"));
    assert!(text_before_or_equal("ab", "abc"));
    assert!(!text_before_or_equal("abc", "ab"));
    assert!(text_before_or_equal("same", "same"));
    assert!(text_before_or_equal("B", "a"));
    assert!(text_before_or_equal("z", "é"));
    assert!(text_before_or_equal("", "anything"));
}

#[test]
fn bytes_le_compares_at_the_first_difference() {
    assert!(bytes_le(&[1, 2, 3], &[1, 2, 4]));
    assert!(!bytes_le(&[1, 2, 4], &[1, 2, 3]));
    assert!(bytes_le(&[1, 2], &[1, 2, 0]));
    assert!(!bytes_le(&[1, 2, 0], &[1, 2]));
    assert!(bytes_le(&[], &[]));
    assert!(bytes_le(&[0, 255], &[1, 0]));
}

#[test]
fn bytes_equal_needs_equal_length_and_content() {
    assert!(bytes_equal(&[], &[]));
    assert!(bytes_equal(&[7, 8], &[7, 8]));
    assert!(!bytes_equal(&[7, 8], &[7, 9]));
    assert!(!bytes_equal(&[7, 8], &[7]));
    assert!(!bytes_equal(&[7], &[7, 8]));
}

#[test]
fn same_text_is_equality_of_texts() {
    for a in samples() {
        for b in samples() {
            assert_eq!(same_text(a, b), a == b);
        }
    }
}

#[test]
fn append_decimal_writes_the_usual_numeral() {
    let values: Vec<u64> = vec![0, 1, 9, 10, 11, 99, 100, 101, 12345, 1000000, u64::MAX];
    for value in values {
        let mut out = String::from("n=");
        append_decimal(&mut out, value);
        assert_eq!(out, format!("n={}", value));
    }
}

#[test]
fn append_decimal_of_the_largest_value() {
    let mut out = String::new();
    append_decimal(&mut out, u64::MAX);
    assert_eq!(out, "18446744073709551615");
}

#[test]
fn is_space_agrees_with_the_white_space_property() {
    let mut code: u32 = 0;
    while code <= 0x10FFFF {
        if let Some(c) = char::from_u32(code) {
            assert_eq!(is_space(c), c.is_whitespace(), "U+{:04X}", code);
        }
        code += 1;
    }
}

#[test]
fn trim_end_removes_trailing_whitespace_only() {
    assert_eq!(trim_end("1:alpha\n"), "1:alpha");
    assert_eq!(trim_end("1:alpha \t\r\n"), "1:alpha");
    assert_eq!(trim_end("  lead"), "  lead");
    assert_eq!(trim_end(" in side "), " in side");
    assert_eq!(trim_end("plain"), "plain");
    assert_eq!(trim_end(""), "");
    assert_eq!(trim_end(" \n\t"), "");
    assert_eq!(trim_end("wide\u{3000}\u{a0}\u{2028}"), "wide");
    assert_eq!(trim_end("日本語 \n"), "日本語");
}

#[test]
fn trim_end_agrees_with_the_standard_one() {
    let inputs: Vec<&str> = vec!["", " ", "a ", " a", "a b  ", "\n", "x\u{85}", "x\u{200b}", "é\u{2003}", "tab\t", "\u{feff}"];
    for input in inputs {
        assert_eq!(trim_end(input), input.trim_end(), "{:?}", input);
    }
}
