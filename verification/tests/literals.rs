//! The texts of Luau string literals.

use require_by_string::literals::{decode_long_string, decode_lua_string, LiteralError};
use require_by_string::luau::{string_literal_value, CallToken, Quotes};

fn decoded(literal: &str) -> String {
    decode_lua_string(literal).unwrap()
}

#[test]
fn plain_texts_stand_for_themselves() {
    assert_eq!(decoded(""), "");
    assert_eq!(decoded("@shared/módulo \"'"), "@shared/módulo \"'");
}

#[test]
fn simple_escapes_stand_for_one_character() {
    assert_eq!(
        decoded("\\a\\b\\f\\n\\r\\t\\v\\\\\\\"\\'"),
        "\u{7}\u{8}\u{c}\n\r\t\u{b}\\\"'"
    );
    assert_eq!(decoded("\\q\\/\\é"), "q/é");
}

#[test]
fn escaped_line_breaks_are_line_feeds() {
    assert_eq!(decoded("a\\\nb"), "a\nb");
    assert_eq!(decoded("a\\\rb"), "a\nb");
    assert_eq!(decoded("a\\\r\nb"), "a\nb");
    assert_eq!(decoded("a\\\n\rb"), "a\n\rb");
}

#[test]
fn skipped_white_space_leaves_nothing() {
    assert_eq!(decoded("a\\z \t\r\n\u{a0}\u{2003}b"), "ab");
    assert_eq!(decoded("a\\z"), "a");
    assert_eq!(decoded("a\\z\u{200b}b"), "a\u{200b}b");
}

#[test]
fn white_space_is_that_of_std() {
    for code in 0..=0x10ffff {
        if let Some(c) = char::from_u32(code) {
            let literal = format!("\\z{c}");
            let expected = if c.is_whitespace() {
                String::new()
            } else {
                c.to_string()
            };
            if c != '\\' {
                assert_eq!(decoded(&literal), expected, "{code:#x}");
            }
        }
    }
}

#[test]
fn hexadecimal_escapes_take_two_digits() {
    assert_eq!(decoded("\\x41\\x7f\\xfF"), "A\u{7f}\u{ff}");
    assert_eq!(decoded("\\x411"), "A1");
    assert_eq!(decode_lua_string("\\x4"), Err(LiteralError::InvalidHexadecimal));
    assert_eq!(decode_lua_string("\\xg0"), Err(LiteralError::InvalidHexadecimal));
    assert_eq!(decode_lua_string("\\x0g"), Err(LiteralError::InvalidHexadecimal));
}

#[test]
fn decimal_escapes_take_up_to_three_digits() {
    assert_eq!(decoded("\\65"), "A");
    assert_eq!(decoded("\\0659"), "A9");
    assert_eq!(decoded("\\7x"), "\u{7}x");
    assert_eq!(decoded("\\255"), "\u{ff}");
    assert_eq!(decode_lua_string("\\256"), Err(LiteralError::InvalidDecimal));
    assert_eq!(decode_lua_string("\\999"), Err(LiteralError::InvalidDecimal));
}

#[test]
fn unicode_escapes_stand_for_a_scalar_value() {
    assert_eq!(decoded("\\u{41}\\u{1F600}\\u{10ffff}"), "A\u{1f600}\u{10ffff}");
    assert_eq!(decoded("\\u{000041}"), "A");
    assert_eq!(decode_lua_string("\\u41"), Err(LiteralError::InvalidUnicode));
    assert_eq!(decode_lua_string("\\u"), Err(LiteralError::InvalidUnicode));
    assert_eq!(decode_lua_string("\\u{4g}"), Err(LiteralError::InvalidUnicode));
    assert_eq!(decode_lua_string("\\u{d800}"), Err(LiteralError::InvalidUnicode));
    assert_eq!(decode_lua_string("\\u{110000}"), Err(LiteralError::InvalidUnicode));
    assert_eq!(decode_lua_string("\\u{41"), Err(LiteralError::UnterminatedUnicode));
    assert_eq!(decode_lua_string("\\u{"), Err(LiteralError::UnterminatedUnicode));
    assert_eq!(decode_lua_string("\\u{0000041}"), Err(LiteralError::LongUnicode));
    assert_eq!(decode_lua_string("\\u{}"), Err(LiteralError::EmptyUnicode));
}

#[test]
fn a_lone_backslash_is_an_error() {
    assert_eq!(decode_lua_string("a\\"), Err(LiteralError::UnfinishedEscape));
}

#[test]
fn bracketed_texts_drop_the_first_line_break() {
    assert_eq!(decode_long_string("\nabc"), "abc");
    assert_eq!(decode_long_string("\r\nabc"), "abc");
    assert_eq!(decode_long_string("\n\rabc"), "abc");
    assert_eq!(decode_long_string("\rabc"), "abc");
    assert_eq!(decode_long_string("\n\nabc"), "\nabc");
    assert_eq!(decode_long_string(""), "");
}

#[test]
fn bracketed_texts_hold_no_carriage_return() {
    assert_eq!(decode_long_string("a\r\nb\rc\n\rd\ne\\n"), "a\nb\nc\nd\ne\\n");
    assert_eq!(decode_long_string("\r\r\r\n\n\r"), "\n\n\n");
}

fn token(literal: Option<(&str, Quotes)>) -> CallToken<String> {
    CallToken {
        literal: literal.map(|(text, quotes)| (text.to_owned(), quotes)),
        start: None,
        end: None,
    }
}

#[test]
fn quotes_decide_how_a_literal_is_read() {
    let value = |text, quotes| string_literal_value(&token(Some((text, quotes))));
    assert_eq!(value("\n\\n", Quotes::Brackets), Ok("\\n".to_owned()));
    assert_eq!(value("\\n", Quotes::Double), Ok("\n".to_owned()));
    assert_eq!(value("\\n", Quotes::Single), Ok("\n".to_owned()));
    assert_eq!(value("a", Quotes::Other), Err(LiteralError::UnsupportedQuotes));
    assert_eq!(string_literal_value(&token(None)), Err(LiteralError::NotAString));
}

#[test]
fn errors_have_a_sentence() {
    let sentences = [
        (LiteralError::NotAString, "expected a string literal token"),
        (LiteralError::UnsupportedQuotes, "unsupported string literal quote type"),
        (LiteralError::UnfinishedEscape, "string literal ended with an escape character"),
        (LiteralError::InvalidHexadecimal, "invalid hexadecimal escape in string literal"),
        (LiteralError::InvalidDecimal, "invalid decimal escape in string literal"),
        (LiteralError::InvalidUnicode, "invalid unicode escape in string literal"),
        (LiteralError::UnterminatedUnicode, "unterminated unicode escape in string literal"),
        (LiteralError::LongUnicode, "unicode escape is too long in string literal"),
        (LiteralError::EmptyUnicode, "empty unicode escape in string literal"),
    ];
    for (error, sentence) in sentences {
        assert_eq!(error.message(), sentence);
    }
}
