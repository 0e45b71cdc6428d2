use niri_launcher::text::{chars_to_string, join_path, parse_unsigned_range, split_pieces, str_chars, trim_range, u8_decimal};

fn parse(s: &str, max: u32) -> Option<u32> {
    let cs = str_chars(s);
    parse_unsigned_range(&cs, 0, cs.len(), max)
}

#[test]
fn decimal_text_of_bytes() {
    assert_eq!(u8_decimal(0), "0");
    assert_eq!(u8_decimal(7), "7");
    assert_eq!(u8_decimal(42), "42");
    assert_eq!(u8_decimal(100), "100");
    assert_eq!(u8_decimal(255), "255");
}

#[test]
fn unsigned_parsing_like_from_str() {
    assert_eq!(parse("+12", 255), Some(12));
    assert_eq!(parse("0012", 255), Some(12));
    assert_eq!(parse("255", 255), Some(255));
    assert_eq!(parse("256", 255), None);
    assert_eq!(parse("", 255), None);
    assert_eq!(parse("+", 255), None);
    assert_eq!(parse("1 2", 255), None);
    assert_eq!(parse("99999999999", 255), None);
    assert_eq!(parse("4294967295", u32::MAX), Some(u32::MAX));
    for s in ["+12", "0012", "256", "", "+", "-0", "1 2", "٣"] {
        assert_eq!(parse(s, 255), s.parse::<u8>().ok().map(u32::from), "{}", s);
    }
}

#[test]
fn trims_unicode_white_space() {
    let cs = str_chars("\u{3000} a b\t\u{85}");
    let (lo, hi) = trim_range(&cs, 0, cs.len());
    assert_eq!(chars_to_string(&cs, lo, hi), "a b");
    let s = "\u{2003}x\u{200B}";
    let cs = str_chars(s);
    let (lo, hi) = trim_range(&cs, 0, cs.len());
    assert_eq!(chars_to_string(&cs, lo, hi), s.trim());
}

#[test]
fn splits_keep_empty_pieces() {
    assert_eq!(split_pieces("a::b", ':'), vec!["a", "", "b"]);
    assert_eq!(split_pieces("", ':'), vec![""]);
    assert_eq!(split_pieces("a:", ':'), vec!["a", ""]);
}

#[test]
fn joins_like_path_join() {
    for (base, part) in [("", "x"), ("/a/", "b"), ("/a", "/b"), ("/a", "b"), ("a", ""), ("", "")] {
        let expected = std::path::Path::new(base).join(part);
        assert_eq!(join_path(base, part), expected.to_str().unwrap(), "{} {}", base, part);
    }
}
