use compile_to_rout::digits::{parse_hex_u32, push_decimal};
use compile_to_rout::error::DumpError;
use compile_to_rout::lines::split_lines;

fn decimal(v: u64) -> String {
    let mut out = String::new();
    push_decimal(&mut out, v);
    out
}

#[test]
fn hex_numbers_are_read() {
    assert_eq!(parse_hex_u32("0"), Some(0));
    assert_eq!(parse_hex_u32("1000"), Some(0x1000));
    assert_eq!(parse_hex_u32("AABBCCDD"), Some(0xAABBCCDD));
    assert_eq!(parse_hex_u32("aabbccdd"), Some(0xAABBCCDD));
    assert_eq!(parse_hex_u32("DeadBeef"), Some(3735928559));
    assert_eq!(parse_hex_u32("FFFFFFFF"), Some(u32::MAX));
    assert_eq!(parse_hex_u32("1f"), Some(31));
}

#[test]
fn hex_numbers_may_have_leading_zeros() {
    assert_eq!(parse_hex_u32("00000000000000FF"), Some(255));
    assert_eq!(parse_hex_u32("0000000FFFFFFFF"), Some(u32::MAX));
}

#[test]
fn hex_numbers_past_32_bits_are_refused() {
    assert_eq!(parse_hex_u32("100000000"), None);
    assert_eq!(parse_hex_u32("FFFFFFFFF"), None);
    assert_eq!(parse_hex_u32("123456789ABCDEF0123"), None);
}

#[test]
fn text_that_is_no_hex_number_is_refused() {
    assert_eq!(parse_hex_u32(""), None);
    assert_eq!(parse_hex_u32("G"), None);
    assert_eq!(parse_hex_u32("12 34"), None);
    assert_eq!(parse_hex_u32("0x10"), None);
    assert_eq!(parse_hex_u32("-1"), None);
    assert_eq!(parse_hex_u32("12\u{e9}"), None);
    assert_eq!(parse_hex_u32("\u{ff11}\u{ff12}"), None);
    assert_eq!(parse_hex_u32("/"), None);
    assert_eq!(parse_hex_u32(":"), None);
    assert_eq!(parse_hex_u32("@"), None);
    assert_eq!(parse_hex_u32("`"), None);
    assert_eq!(parse_hex_u32("g"), None);
}

#[test]
fn decimal_numerals_are_written() {
    assert_eq!(decimal(0), "0");
    assert_eq!(decimal(7), "7");
    assert_eq!(decimal(10), "10");
    assert_eq!(decimal(1234567890), "1234567890");
    assert_eq!(decimal(3735928559), "3735928559");
    assert_eq!(decimal(4294967295), "4294967295");
    assert_eq!(decimal(u64::MAX), "18446744073709551615");
}

#[test]
fn decimal_numeral_is_appended() {
    let mut out = String::from("n=");
    push_decimal(&mut out, 42);
    push_decimal(&mut out, 0);
    assert_eq!(out, "n=420");
}

#[test]
fn lines_end_at_line_feeds() {
    assert_eq!(split_lines("a\nb\nc"), vec!["a", "b", "c"]);
    assert_eq!(split_lines("a\nb\n"), vec!["a", "b"]);
    assert_eq!(split_lines("a\n\nb"), vec!["a", "", "b"]);
    assert_eq!(split_lines("one line"), vec!["one line"]);
}

#[test]
fn empty_text_has_no_lines() {
    assert_eq!(split_lines(""), Vec::<String>::new());
    assert_eq!(split_lines("\n"), vec![""]);
    assert_eq!(split_lines("\n\n"), vec!["", ""]);
}

#[test]
fn carriage_return_before_line_feed_is_dropped() {
    assert_eq!(split_lines("a\r\nb\r\n"), vec!["a", "b"]);
    assert_eq!(split_lines("\r\n"), vec![""]);
    assert_eq!(split_lines("a\r\r\nb"), vec!["a\r", "b"]);
}

#[test]
fn other_carriage_returns_stay() {
    assert_eq!(split_lines("a\rb\nc"), vec!["a\rb", "c"]);
    assert_eq!(split_lines("a\nb\r"), vec!["a", "b\r"]);
    assert_eq!(split_lines("\r"), vec!["\r"]);
    assert_eq!(split_lines("\r\r"), vec!["\r\r"]);
}

#[test]
fn lines_agree_with_the_standard_library() {
    for text in ["", "x", "x\n", "x\r\n", "\r\nx", "a\r\n\r\nb\r", "\n\r\n\r", "k\u{e9}\r\n\u{4e16}\n"] {
        let expected: Vec<String> = text.lines().map(String::from).collect();
        assert_eq!(split_lines(text), expected);
    }
}

#[test]
fn every_error_has_a_description() {
    let all = [
        DumpError::Pattern,
        DumpError::MalformedField,
        DumpError::AddressOverflow,
        DumpError::EmptyInput,
    ];
    for (i, e) in all.iter().enumerate() {
        assert!(!e.describe().is_empty());
        for other in &all[i + 1..] {
            assert_ne!(e.describe(), other.describe());
        }
    }
    assert_eq!(DumpError::EmptyInput.describe(), "no entries to write as a JSON array");
}
