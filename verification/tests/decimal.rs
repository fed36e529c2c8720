use copilot_sessions::decimal::{is_float_text, parse_unsigned};
use copilot_sessions::text::{chars_of, split_lines, string_of, Trim};

fn float(s: &str) -> bool {
    let r = is_float_text(&chars_of(s));
    assert_eq!(r, s.parse::<f64>().is_ok(), "{s}");
    r
}

#[test]
fn float_literals_are_recognised() {
    for s in [
        "0", "22.3", "5.", ".5", "+1", "-1.5e10", "1E-3", "1e+3", "inf", "-Infinity", "NaN", "+nan",
    ] {
        assert!(float(s));
    }
    for s in [
        "", ".", "+", "-", "e5", "1e", "1e+", "1.2.3", "1,5", " 1", "1 ", "--1", "infin", "0x1",
        "1e5.0", "1_0", "١",
    ] {
        assert!(!float(s));
    }
}

fn unsigned(s: &str) -> Option<u64> {
    let r = parse_unsigned(&chars_of(s), u64::MAX);
    assert_eq!(r, s.parse::<u64>().ok(), "{s}");
    let small = parse_unsigned(&chars_of(s), u32::MAX as u64);
    assert_eq!(small, s.parse::<u32>().ok().map(|n| n as u64), "{s}");
    r
}

#[test]
fn unsigned_numbers_are_parsed() {
    assert_eq!(unsigned("0"), Some(0));
    assert_eq!(unsigned("+007"), Some(7));
    assert_eq!(unsigned("18446744073709551615"), Some(u64::MAX));
    assert_eq!(unsigned("18446744073709551616"), None);
    assert_eq!(unsigned("99999999999999999999999"), None);
    assert_eq!(unsigned("99999999999999999999999x"), None);
    assert_eq!(unsigned("4294967295"), Some(4294967295));
    for s in ["", "+", "-", "-1", "++1", "1 ", "1a", "٣"] {
        assert_eq!(unsigned(s), None);
    }
}

#[test]
fn lines_are_split_as_text_lines() {
    for s in [
        "", "\n", "a", "a\n", "a\r\n", "a\r", "\r\n\r\n", "a\n\nb", "a\rb\r\r\nc\r", "é\nü\n",
    ] {
        let expected: Vec<String> = s.lines().map(|l| l.to_string()).collect();
        assert_eq!(split_lines(&chars_of(s)), expected);
    }
}

#[test]
fn characters_make_up_the_text() {
    assert_eq!(string_of(&['a', 'é', '\u{1F600}']), "aé\u{1F600}");
    assert_eq!(chars_of("aé"), vec!['a', 'é']);
}

#[test]
fn white_space_is_unicode_white_space() {
    for u in 0..=0x10FFFF {
        if let Some(c) = char::from_u32(u) {
            assert_eq!(Trim::White.matches(c), c.is_whitespace(), "{u:x}");
        }
    }
}
