//! The text that a Luau string literal stands for.

use vstd::prelude::*;

use crate::text::chars_of;

verus! {

/// Why a string literal has no text.
#[derive(Clone, Copy, Debug, PartialEq, Eq, Structural)]
pub enum LiteralError {
    /// The token is not a string literal.
    NotAString,
    /// The quotes are none that a request can be written in.
    UnsupportedQuotes,
    /// The literal ends in a lone backslash.
    UnfinishedEscape,
    /// `\x` is not followed by two hexadecimal digits.
    InvalidHexadecimal,
    /// `\ddd` is above 255.
    InvalidDecimal,
    /// `\u` is not followed by braces around the digits of a character.
    InvalidUnicode,
    /// `\u{` has no closing brace.
    UnterminatedUnicode,
    /// `\u{...}` holds more than six digits.
    LongUnicode,
    /// `\u{}` holds no digit.
    EmptyUnicode,
}

/// The sentence for an error.
pub open spec fn literal_message(error: LiteralError) -> Seq<char> {
    match error {
        LiteralError::NotAString => "expected a string literal token"@,
        LiteralError::UnsupportedQuotes => "unsupported string literal quote type"@,
        LiteralError::UnfinishedEscape => "string literal ended with an escape character"@,
        LiteralError::InvalidHexadecimal => "invalid hexadecimal escape in string literal"@,
        LiteralError::InvalidDecimal => "invalid decimal escape in string literal"@,
        LiteralError::InvalidUnicode => "invalid unicode escape in string literal"@,
        LiteralError::UnterminatedUnicode => "unterminated unicode escape in string literal"@,
        LiteralError::LongUnicode => "unicode escape is too long in string literal"@,
        LiteralError::EmptyUnicode => "empty unicode escape in string literal"@,
    }
}

impl LiteralError {
    /// The sentence for this error.
    pub fn message(&self) -> (message: &'static str)
        ensures
            message@ == literal_message(*self),
    {
        match self {
            LiteralError::NotAString => "expected a string literal token",
            LiteralError::UnsupportedQuotes => "unsupported string literal quote type",
            LiteralError::UnfinishedEscape => "string literal ended with an escape character",
            LiteralError::InvalidHexadecimal => "invalid hexadecimal escape in string literal",
            LiteralError::InvalidDecimal => "invalid decimal escape in string literal",
            LiteralError::InvalidUnicode => "invalid unicode escape in string literal",
            LiteralError::UnterminatedUnicode => "unterminated unicode escape in string literal",
            LiteralError::LongUnicode => "unicode escape is too long in string literal",
            LiteralError::EmptyUnicode => "empty unicode escape in string literal",
        }
    }
}

/// `char::from_u32` gives the character of a Unicode scalar value and `None` for
/// every other number.
pub assume_specification[ char::from_u32 ](number: u32) -> (c: Option<char>)
    ensures
        vstd::utf8::is_scalar(number) ==> c is Some && c->0 as u32 == number,
        !vstd::utf8::is_scalar(number) ==> c is None,
;

/// The length of the line break that `text` starts with: both characters of a
/// pair, 0 where there is none.
pub open spec fn line_break(text: Seq<char>) -> nat {
    if text.len() == 0 || (text[0] != '\r' && text[0] != '\n') {
        0
    } else if text.len() > 1 && (text[1] == '\r' || text[1] == '\n') && text[0] != text[1] {
        2
    } else {
        1
    }
}

/// `text` with each line break written as one `\n`.
pub open spec fn unified_lines(text: Seq<char>) -> Seq<char>
    decreases text.len(),
{
    if text.len() == 0 {
        seq![]
    } else if line_break(text) > 0 {
        seq!['\n'] + unified_lines(text.skip(line_break(text) as int))
    } else {
        seq![text[0]] + unified_lines(text.drop_first())
    }
}

/// The text of a bracketed literal: a line break right after the opening bracket
/// does not count, and every other one is a `\n`.
pub open spec fn long_text(literal: Seq<char>) -> Seq<char> {
    unified_lines(literal.skip(line_break(literal) as int))
}

fn line_break_at(chars: &Vec<char>, at: usize) -> (length: usize)
    requires
        at <= chars@.len(),
    ensures
        length == line_break(chars@.skip(at as int)),
        at + length <= chars@.len(),
{
    if at >= chars.len() || (chars[at] != '\r' && chars[at] != '\n') {
        0
    } else if chars.len() - at > 1 && (chars[at + 1] == '\r' || chars[at + 1] == '\n') && chars[at]
        != chars[at + 1] {
        2
    } else {
        1
    }
}

/// Decodes what stands between the brackets of a `[[...]]` literal.
pub fn decode_long_string(value: &str) -> (decoded: String)
    ensures
        decoded@ == long_text(value@),
{
    let chars = chars_of(value);
    let mut decoded = String::new();
    assert(chars@.skip(0) == value@);
    let mut i: usize = line_break_at(&chars, 0);
    assert(decoded@ + unified_lines(chars@.skip(i as int)) == long_text(value@));
    while i < chars.len()
        invariant
            i <= chars@.len(),
            decoded@ + unified_lines(chars@.skip(i as int)) == long_text(value@),
        decreases chars@.len() - i,
    {
        let ghost before = decoded@;
        let ghost rest = chars@.skip(i as int);
        let length: usize = line_break_at(&chars, i);
        if length > 0 {
            decoded.push('\n');
            assert(rest.skip(length as int) == chars@.skip(i + length));
            assert(before + (seq!['\n'] + unified_lines(chars@.skip(i + length))) == decoded@
                + unified_lines(chars@.skip(i + length)));
            i += length;
        } else {
            decoded.push(chars[i]);
            assert(rest.drop_first() == chars@.skip(i + 1));
            assert(before + (seq![rest[0]] + unified_lines(chars@.skip(i + 1))) == decoded@
                + unified_lines(chars@.skip(i + 1)));
            i += 1;
        }
    }
    assert(decoded@ + unified_lines(chars@.skip(i as int)) == decoded@);
    decoded
}

/// The characters with the Unicode property White_Space.
pub open spec fn is_white_space(c: char) -> bool {
    ||| '\u{9}' <= c <= '\u{d}'
    ||| c == ' '
    ||| c == '\u{85}'
    ||| c == '\u{a0}'
    ||| c == '\u{1680}'
    ||| '\u{2000}' <= c <= '\u{200a}'
    ||| c == '\u{2028}'
    ||| c == '\u{2029}'
    ||| c == '\u{202f}'
    ||| c == '\u{205f}'
    ||| c == '\u{3000}'
}

fn white_space(c: char) -> (white: bool)
    ensures
        white == is_white_space(c),
{
    ('\u{9}' <= c && c <= '\u{d}') || c == ' ' || c == '\u{85}' || c == '\u{a0}' || c == '\u{1680}'
        || ('\u{2000}' <= c && c <= '\u{200a}') || c == '\u{2028}' || c == '\u{2029}' || c
        == '\u{202f}' || c == '\u{205f}' || c == '\u{3000}'
}

/// How many characters at the start of `text` are white space.
pub open spec fn white_run(text: Seq<char>) -> nat
    decreases text.len(),
{
    if text.len() > 0 && is_white_space(text[0]) {
        1 + white_run(text.drop_first())
    } else {
        0
    }
}

/// The value of a hexadecimal digit.
pub open spec fn digit_value(c: char) -> Option<u32> {
    if '0' <= c <= '9' {
        Some((c as u32 - '0' as u32) as u32)
    } else if 'a' <= c <= 'f' {
        Some((c as u32 - 'a' as u32 + 10) as u32)
    } else if 'A' <= c <= 'F' {
        Some((c as u32 - 'A' as u32 + 10) as u32)
    } else {
        None
    }
}

fn hexadecimal_digit(c: char) -> (value: Option<u32>)
    ensures
        value == digit_value(c),
        value matches Some(v) ==> v < 16,
{
    if '0' <= c && c <= '9' {
        Some(c as u32 - '0' as u32)
    } else if 'a' <= c && c <= 'f' {
        Some(c as u32 - 'a' as u32 + 10)
    } else if 'A' <= c && c <= 'F' {
        Some(c as u32 - 'A' as u32 + 10)
    } else {
        None
    }
}

/// How many characters at the start of `text` are digits with a value below
/// `base`, counted up to `limit`.
pub open spec fn digit_run(text: Seq<char>, base: nat, limit: nat) -> nat
    decreases limit,
{
    if limit > 0 && text.len() > 0 && digit_value(text[0]) is Some && digit_value(text[0])->0
        < base {
        1 + digit_run(text.drop_first(), base, (limit - 1) as nat)
    } else {
        0
    }
}

/// The number that a row of digits writes.
pub open spec fn number_of(digits: Seq<char>, base: nat) -> nat
    decreases digits.len(),
{
    if digits.len() == 0 {
        0
    } else {
        number_of(digits.drop_last(), base) * base + digit_value(digits.last())->0 as nat
    }
}

/// What one escape at the start of `text`, a backslash and what belongs to it,
/// stands for, and its length.
pub open spec fn escape_unit(text: Seq<char>) -> Result<(Seq<char>, nat), LiteralError> {
    if text.len() < 2 {
        Err(LiteralError::UnfinishedEscape)
    } else {
        let c = text[1];
        if c == 'a' {
            Ok((seq!['\u{7}'], 2))
        } else if c == 'b' {
            Ok((seq!['\u{8}'], 2))
        } else if c == 'f' {
            Ok((seq!['\u{c}'], 2))
        } else if c == 'n' {
            Ok((seq!['\n'], 2))
        } else if c == 'r' {
            Ok((seq!['\r'], 2))
        } else if c == 't' {
            Ok((seq!['\t'], 2))
        } else if c == 'v' {
            Ok((seq!['\u{b}'], 2))
        } else if c == 'z' {
            Ok((seq![], 2 + white_run(text.skip(2))))
        } else if c == '\r' {
            Ok((seq!['\n'], if text.len() > 2 && text[2] == '\n' { 3 } else { 2 }))
        } else if c == 'x' {
            hexadecimal_unit(text)
        } else if '0' <= c <= '9' {
            decimal_unit(text)
        } else if c == 'u' {
            unicode_unit(text)
        } else {
            Ok((seq![c], 2))
        }
    }
}

/// `\x` and two hexadecimal digits.
pub open spec fn hexadecimal_unit(text: Seq<char>) -> Result<(Seq<char>, nat), LiteralError> {
    if digit_run(text.skip(2), 16, 2) < 2 {
        Err(LiteralError::InvalidHexadecimal)
    } else {
        Ok((seq![number_of(text.subrange(2, 4), 16) as char], 4))
    }
}

/// A backslash and one to three decimal digits that write at most 255.
pub open spec fn decimal_unit(text: Seq<char>) -> Result<(Seq<char>, nat), LiteralError> {
    let length = digit_run(text.skip(1), 10, 3);
    let number = number_of(text.subrange(1, 1 + length as int), 10);
    if number > 255 {
        Err(LiteralError::InvalidDecimal)
    } else {
        Ok((seq![number as char], 1 + length))
    }
}

/// `\u{`, one to six hexadecimal digits that write a scalar value, and `}`.
pub open spec fn unicode_unit(text: Seq<char>) -> Result<(Seq<char>, nat), LiteralError> {
    if text.len() < 3 || text[2] != '{' {
        Err(LiteralError::InvalidUnicode)
    } else {
        let length = digit_run(text.skip(3), 16, 7);
        let number = number_of(text.subrange(3, 3 + length as int), 16);
        if length > 6 {
            Err(LiteralError::LongUnicode)
        } else if 3 + length >= text.len() {
            Err(LiteralError::UnterminatedUnicode)
        } else if text[3 + length as int] != '}' {
            Err(LiteralError::InvalidUnicode)
        } else if length == 0 {
            Err(LiteralError::EmptyUnicode)
        } else if !vstd::utf8::is_scalar(number as u32) {
            Err(LiteralError::InvalidUnicode)
        } else {
            Ok((seq![number as char], 4 + length))
        }
    }
}

/// What the start of a quoted literal stands for, and its length: an escape, or
/// one character that stands for itself.
pub open spec fn quoted_unit(text: Seq<char>) -> Result<(Seq<char>, nat), LiteralError> {
    if text[0] == '\\' {
        escape_unit(text)
    } else {
        Ok((seq![text[0]], 1))
    }
}

/// The text of a quoted literal: the texts of its units in a row, or the error of
/// the first unit that has none.
pub open spec fn quoted_text(literal: Seq<char>) -> Result<Seq<char>, LiteralError>
    decreases literal.len(),
{
    if literal.len() == 0 {
        Ok(seq![])
    } else {
        proof {
            lemma_unit_length(literal);
        }
        match quoted_unit(literal) {
            Err(e) => Err(e),
            Ok((text, length)) => after(text, quoted_text(literal.skip(length as int))),
        }
    }
}

/// `rest` with `text` in front of it.
pub open spec fn after(text: Seq<char>, rest: Result<Seq<char>, LiteralError>) -> Result<
    Seq<char>,
    LiteralError,
> {
    match rest {
        Ok(rest) => Ok(text + rest),
        Err(e) => Err(e),
    }
}

proof fn lemma_runs(text: Seq<char>, base: nat, limit: nat)
    ensures
        white_run(text) <= text.len(),
        digit_run(text, base, limit) <= text.len(),
        digit_run(text, base, limit) <= limit,
    decreases text.len() + limit,
{
    if text.len() > 0 {
        lemma_runs(text.drop_first(), base, if limit > 0 { (limit - 1) as nat } else { 0 });
    }
}

/// A unit takes at least one character and no more than there are.
pub proof fn lemma_unit_length(text: Seq<char>)
    requires
        text.len() > 0,
    ensures
        quoted_unit(text) matches Ok((_, length)) ==> 1 <= length <= text.len(),
{
    if text.len() >= 2 {
        lemma_runs(text.skip(2), 16, 2);
        lemma_runs(text.skip(1), 10, 3);
    }
    if text.len() >= 3 {
        lemma_runs(text.skip(3), 16, 7);
    }
}

proof fn lemma_step(
    literal: Seq<char>,
    at: int,
    decoded: Seq<char>,
    text: Seq<char>,
    length: nat,
)
    requires
        0 <= at < literal.len(),
        quoted_unit(literal.skip(at)) == Ok::<(Seq<char>, nat), LiteralError>((text, length)),
    ensures
        at + length <= literal.len(),
        length > 0,
        after(decoded, quoted_text(literal.skip(at))) == after(
            decoded + text,
            quoted_text(literal.skip(at + length)),
        ),
{
    lemma_unit_length(literal.skip(at));
    let rest = literal.skip(at);
    assert(rest.skip(length as int) == literal.skip(at + length));
    if let Ok(tail) = quoted_text(literal.skip(at + length)) {
        assert(decoded + (text + tail) == (decoded + text) + tail);
    }
}

/// Reads up to `limit` digits from `at` on. The row of digits ends before the
/// returned position.
fn read_digits(chars: &Vec<char>, at: usize, base: u32, limit: usize) -> (read: (u32, usize))
    requires
        at <= chars@.len(),
        2 <= base <= 16,
        limit <= 7,
    ensures
        read.1 == at + digit_run(chars@.skip(at as int), base as nat, limit as nat),
        read.1 <= chars@.len(),
        read.0 == number_of(chars@.subrange(at as int, read.1 as int), base as nat),
{
    let mut i: usize = at;
    let mut number: u32 = 0;
    let mut left: usize = limit;
    proof {
        vstd::arithmetic::power::lemma_pow0(16);
    }
    assert(chars@.subrange(at as int, at as int) == Seq::<char>::empty());
    while left > 0 && i < chars.len()
        invariant_except_break
            digit_run(chars@.skip(at as int), base as nat, limit as nat) == (i - at) + digit_run(
                chars@.skip(i as int),
                base as nat,
                left as nat,
            ),
        invariant
            at <= i <= chars@.len(),
            2 <= base <= 16,
            limit <= 7,
            left + (i - at) == limit,
            number == number_of(chars@.subrange(at as int, i as int), base as nat),
            number < vstd::arithmetic::power::pow(16, (i - at) as nat),
        ensures
            digit_run(chars@.skip(at as int), base as nat, limit as nat) == i - at,
        decreases left,
    {
        match hexadecimal_digit(chars[i]) {
            Some(value) if value < base => {
                let ghost rest = chars@.skip(i as int);
                assert(rest.drop_first() == chars@.skip(i + 1));
                let ghost row = chars@.subrange(at as int, i + 1);
                assert(row.drop_last() == chars@.subrange(at as int, i as int));
                proof {
                    lemma_digits_fit(number as nat, value as nat, base as nat, (i - at) as nat);
                }
                number = number * base + value;
                i += 1;
                left -= 1;
            },
            _ => {
                break;
            },
        }
    }
    (number, i)
}

proof fn lemma_digits_fit(number: nat, value: nat, base: nat, length: nat)
    requires
        number < vstd::arithmetic::power::pow(16, length),
        value < base <= 16,
        length < 7,
    ensures
        number * base + value < vstd::arithmetic::power::pow(16, length + 1),
        vstd::arithmetic::power::pow(16, length + 1) <= 0x1000_0000,
{
    reveal(vstd::arithmetic::power::pow);
    reveal_with_fuel(vstd::arithmetic::power::pow, 9);
    let bound = vstd::arithmetic::power::pow(16, length);
    assert(vstd::arithmetic::power::pow(16, length + 1) == 16 * bound);
    assert(number * base <= number * 16) by (nonlinear_arith)
        requires
            base <= 16,
    ;
}

/// The end of the white space that starts at `at`.
fn skip_white_space(chars: &Vec<char>, at: usize) -> (end: usize)
    requires
        at <= chars@.len(),
    ensures
        end == at + white_run(chars@.skip(at as int)),
        end <= chars@.len(),
{
    let mut i: usize = at;
    while i < chars.len() && white_space(chars[i])
        invariant
            at <= i <= chars@.len(),
            white_run(chars@.skip(at as int)) == (i - at) + white_run(chars@.skip(i as int)),
        decreases chars@.len() - i,
    {
        assert(chars@.skip(i as int).drop_first() == chars@.skip(i + 1));
        i += 1;
    }
    i
}

/// Reads the escape at `at`: the character that it stands for, none for `\z`, and
/// the position after it.
fn read_escape(chars: &Vec<char>, at: usize) -> (read: Result<(Option<char>, usize), LiteralError>)
    requires
        at < chars@.len(),
        chars@[at as int] == '\\',
    ensures
        match (read, quoted_unit(chars@.skip(at as int))) {
            (Ok((c, end)), Ok((text, length))) => {
                &&& end == at + length
                &&& text == match c {
                    Some(c) => seq![c],
                    None => Seq::<char>::empty(),
                }
            },
            (Err(e), Err(expected)) => e == expected,
            _ => false,
        },
{
    let ghost rest = chars@.skip(at as int);
    if chars.len() - at < 2 {
        return Err(LiteralError::UnfinishedEscape);
    }
    let c = chars[at + 1];
    let simple = if c == 'a' {
        Some('\u{7}')
    } else if c == 'b' {
        Some('\u{8}')
    } else if c == 'f' {
        Some('\u{c}')
    } else if c == 'n' {
        Some('\n')
    } else if c == 'r' {
        Some('\r')
    } else if c == 't' {
        Some('\t')
    } else if c == 'v' {
        Some('\u{b}')
    } else {
        None
    };
    if simple.is_some() {
        Ok((simple, at + 2))
    } else if c == 'z' {
        assert(rest.skip(2) == chars@.skip(at + 2));
        Ok((None, skip_white_space(chars, at + 2)))
    } else if c == '\r' {
        let end: usize = if chars.len() - at > 2 && chars[at + 2] == '\n' {
            at + 3
        } else {
            at + 2
        };
        Ok((Some('\n'), end))
    } else if c == 'x' {
        read_hexadecimal(chars, at)
    } else if '0' <= c && c <= '9' {
        read_decimal(chars, at)
    } else if c == 'u' {
        read_unicode(chars, at)
    } else {
        Ok((Some(c), at + 2))
    }
}

/// Reads `\x` and its digits.
fn read_hexadecimal(chars: &Vec<char>, at: usize) -> (read: Result<
    (Option<char>, usize),
    LiteralError,
>)
    requires
        at + 2 <= chars.len(),
    ensures
        match (read, hexadecimal_unit(chars@.skip(at as int))) {
            (Ok((c, end)), Ok((text, length))) => end == at + length && c is Some && text
                == seq![c->0],
            (Err(e), Err(expected)) => e == expected,
            _ => false,
        },
{
    let ghost rest = chars@.skip(at as int);
    assert(rest.skip(2) == chars@.skip(at + 2));
    let (number, end) = read_digits(chars, at + 2, 16, 2);
    proof {
        lemma_runs(rest.skip(2), 16, 2);
    }
    if end - at < 4 {
        return Err(LiteralError::InvalidHexadecimal);
    }
    assert(chars@.subrange(at + 2, end as int) == rest.subrange(2, 4));
    proof {
        assert(rest.subrange(2, 4) == rest.skip(2).take(2));
        lemma_number_fits(rest.subrange(2, 4), rest.skip(2), 16, 2);
    }
    Ok((Some((number as u8) as char), end))
}

/// Reads a backslash and its decimal digits.
fn read_decimal(chars: &Vec<char>, at: usize) -> (read: Result<
    (Option<char>, usize),
    LiteralError,
>)
    requires
        at + 2 <= chars.len(),
    ensures
        match (read, decimal_unit(chars@.skip(at as int))) {
            (Ok((c, end)), Ok((text, length))) => end == at + length && c is Some && text
                == seq![c->0],
            (Err(e), Err(expected)) => e == expected,
            _ => false,
        },
{
    let ghost rest = chars@.skip(at as int);
    assert(rest.skip(1) == chars@.skip(at + 1));
    let (number, end) = read_digits(chars, at + 1, 10, 3);
    assert(chars@.subrange(at + 1, end as int) == rest.subrange(1, end - at));
    if number > 255 {
        return Err(LiteralError::InvalidDecimal);
    }
    Ok((Some((number as u8) as char), end))
}

/// Reads `\u`, the braces and the digits between them.
fn read_unicode(chars: &Vec<char>, at: usize) -> (read: Result<
    (Option<char>, usize),
    LiteralError,
>)
    requires
        at + 2 <= chars.len(),
    ensures
        match (read, unicode_unit(chars@.skip(at as int))) {
            (Ok((c, end)), Ok((text, length))) => end == at + length && c is Some && text
                == seq![c->0],
            (Err(e), Err(expected)) => e == expected,
            _ => false,
        },
{
    let ghost rest = chars@.skip(at as int);
    if chars.len() - at < 3 || chars[at + 2] != '{' {
        return Err(LiteralError::InvalidUnicode);
    }
    assert(rest.skip(3) == chars@.skip(at + 3));
    let (number, end) = read_digits(chars, at + 3, 16, 7);
    assert(chars@.subrange(at + 3, end as int) == rest.subrange(3, end - at));
    let digits: usize = end - at - 3;
    if digits > 6 {
        Err(LiteralError::LongUnicode)
    } else if end >= chars.len() {
        Err(LiteralError::UnterminatedUnicode)
    } else if chars[end] != '}' {
        Err(LiteralError::InvalidUnicode)
    } else if digits == 0 {
        Err(LiteralError::EmptyUnicode)
    } else {
        match char::from_u32(number) {
            Some(c) => {
                proof {
                    vstd::utf8::char_is_scalar(c);
                    vstd::utf8::char_u32_cast(c, number);
                }
                Ok((Some(c), end + 1))
            },
            None => Err(LiteralError::InvalidUnicode),
        }
    }
}

/// Two hexadecimal digits write at most 255.
proof fn lemma_number_fits(digits: Seq<char>, text: Seq<char>, base: nat, limit: nat)
    requires
        base == 16,
        limit == 2,
        digits.len() == 2,
        text.len() >= 2,
        digits == text.take(2),
        digit_run(text, base, limit) == 2,
    ensures
        number_of(digits, base) <= 255,
{
    reveal_with_fuel(digit_run, 3);
    reveal_with_fuel(number_of, 3);
    assert(text.drop_first()[0] == digits[1]);
    assert(digits.drop_last()[0] == digits[0]);
}

/// Decodes what stands between the quotes of a `"..."` or `'...'` literal.
pub fn decode_lua_string(value: &str) -> (decoded: Result<String, LiteralError>)
    ensures
        match (decoded, quoted_text(value@)) {
            (Ok(text), Ok(expected)) => text@ == expected,
            (Err(e), Err(expected)) => e == expected,
            _ => false,
        },
{
    let chars = chars_of(value);
    let mut decoded = String::new();
    let mut i: usize = 0;
    assert(chars@.skip(0) == value@);
    assert(after(decoded@, quoted_text(value@)) == quoted_text(value@)) by {
        if let Ok(text) = quoted_text(value@) {
            assert(decoded@ + text == text);
        }
    }
    while i < chars.len()
        invariant
            i <= chars@.len(),
            after(decoded@, quoted_text(chars@.skip(i as int))) == quoted_text(value@),
        decreases chars@.len() - i,
    {
        if chars[i] == '\\' {
            match read_escape(&chars, i) {
                Err(e) => {
                    return Err(e);
                },
                Ok((c, end)) => {
                    let ghost before = decoded@;
                    proof {
                        let (text, length) = quoted_unit(chars@.skip(i as int))->Ok_0;
                        lemma_step(chars@, i as int, decoded@, text, length);
                    }
                    if let Some(c) = c {
                        decoded.push(c);
                        assert(decoded@ == before + seq![c]);
                    } else {
                        assert(decoded@ == before + Seq::<char>::empty());
                    }
                    i = end;
                },
            }
        } else {
            proof {
                lemma_step(chars@, i as int, decoded@, seq![chars@[i as int]], 1);
            }
            let ghost before = decoded@;
            decoded.push(chars[i]);
            assert(decoded@ == before + seq![chars@[i as int]]);
            i += 1;
        }
    }
    assert(decoded@ + Seq::<char>::empty() == decoded@);
    Ok(decoded)
}

/// A quoted literal without a backslash stands for what is written.
pub proof fn plain_literals_stand_for_themselves(literal: Seq<char>)
    requires
        !literal.contains('\\'),
    ensures
        quoted_text(literal) == Ok::<Seq<char>, LiteralError>(literal),
    decreases literal.len(),
{
    if literal.len() > 0 {
        assert(literal.contains(literal[0]));
        let rest = literal.skip(1);
        assert(!rest.contains('\\')) by {
            if rest.contains('\\') {
                let i = choose|i: int| 0 <= i < rest.len() && rest[i] == '\\';
                assert(literal[i + 1] == '\\');
            }
        }
        plain_literals_stand_for_themselves(rest);
        assert(seq![literal[0]] + rest == literal);
    } else {
        assert(literal == Seq::<char>::empty());
    }
}

/// Every line break in the text of a bracketed literal is a `\n`.
pub proof fn long_texts_hold_no_carriage_return(literal: Seq<char>)
    ensures
        !long_text(literal).contains('\r'),
{
    lemma_unified(literal.skip(line_break(literal) as int));
}

proof fn lemma_unified(text: Seq<char>)
    ensures
        !unified_lines(text).contains('\r'),
    decreases text.len(),
{
    if text.len() > 0 {
        let length = line_break(text);
        let first = if length > 0 {
            '\n'
        } else {
            text[0]
        };
        let rest = if length > 0 {
            unified_lines(text.skip(length as int))
        } else {
            unified_lines(text.drop_first())
        };
        if length > 0 {
            lemma_unified(text.skip(length as int));
        } else {
            lemma_unified(text.drop_first());
        }
        if unified_lines(text).contains('\r') {
            let i = choose|i: int|
                0 <= i < unified_lines(text).len() && unified_lines(text)[i] == '\r';
            assert(unified_lines(text) == seq![first] + rest);
            if i > 0 {
                assert(rest[i - 1] == '\r');
                assert(rest.contains('\r'));
            }
        }
    }
}

} // verus!
