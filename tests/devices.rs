use std::path::PathBuf;

use prescurve::devices::{parse_reading, Backlight};
use prescurve::error::Error;

#[test]
fn reading_with_surrounding_space() {
    assert_eq!(parse_reading("  123\n"), Ok(123));
    assert_eq!(parse_reading("0"), Ok(0));
    assert_eq!(parse_reading("\t+42\r\n"), Ok(42));
    assert_eq!(parse_reading("4294967295"), Ok(u32::MAX));
    assert_eq!(parse_reading("007"), Ok(7));
}

#[test]
fn unreadable_text_is_an_io_error() {
    assert_eq!(parse_reading(""), Err(Error::Io));
    assert_eq!(parse_reading("  \n"), Err(Error::Io));
    assert_eq!(parse_reading("+"), Err(Error::Io));
    assert_eq!(parse_reading("12a"), Err(Error::Io));
    assert_eq!(parse_reading("-3"), Err(Error::Io));
    assert_eq!(parse_reading("1 2"), Err(Error::Io));
    assert_eq!(parse_reading("4294967296"), Err(Error::Io));
    assert_eq!(parse_reading("99999999999x"), Err(Error::Io));
}

#[test]
fn change_is_anything_but_the_request() {
    let b = Backlight { path: PathBuf::from("brightness"), max: 100, requested: 40 };
    assert!(!b.changed(40));
    assert!(b.changed(41));
    assert!(b.changed(0));
}

#[test]
fn unicode_white_space_is_trimmed() {
    assert_eq!(parse_reading("\u{a0}5"), Ok(5));
    assert_eq!(parse_reading("\u{3000}42\u{2028}"), Ok(42));
    assert_eq!(parse_reading("\u{85}+7\u{202f}"), Ok(7));
    assert_eq!(parse_reading("\u{1680}\u{2000}\u{200a}9\u{2029}\u{205f}\n"), Ok(9));
}

#[test]
fn other_unicode_around_digits_is_refused() {
    assert_eq!(parse_reading("\u{200b}5"), Err(Error::Io));
    assert_eq!(parse_reading("\u{feff}5"), Err(Error::Io));
    assert_eq!(parse_reading("5\u{a0}6"), Err(Error::Io));
    assert_eq!(parse_reading("\u{661}"), Err(Error::Io));
}

#[test]
fn trimmed_characters_are_exactly_the_white_space() {
    for code in 0..=0x10ffffu32 {
        if let Some(c) = char::from_u32(code) {
            if c.is_ascii_digit() || c == '+' {
                continue;
            }
            let text = format!("{c}7{c}");
            let expected = if c.is_whitespace() { Ok(7) } else { Err(Error::Io) };
            assert_eq!(parse_reading(&text), expected, "character U+{:04X}", code);
            assert_eq!(text.trim().parse::<u32>().is_ok(), c.is_whitespace());
        }
    }
}
