//! What string literals stand for.

use vstd::prelude::*;

use crate::literals::{
    digit_run, digit_value, is_white_space, long_text, number_of, quoted_text, quoted_unit,
    unified_lines, white_run, LiteralError,
};

verus! {

/// A text in front of what the rest of a literal stands for.
pub open spec fn followed(text: Seq<char>, rest: Result<Seq<char>, LiteralError>) -> Result<
    Seq<char>,
    LiteralError,
> {
    match rest {
        Ok(rest) => Ok(text + rest),
        Err(e) => Err(e),
    }
}

/// A literal without characters stands for no text.
pub proof fn empty_literals_stand_for_nothing()
    ensures
        quoted_text(Seq::empty()) == Ok::<_, LiteralError>(Seq::<char>::empty()),
{
}

/// A character that is no backslash stands for itself.
pub proof fn characters_stand_for_themselves(c: char, rest: Seq<char>)
    requires
        c != '\\',
    ensures
        quoted_text(seq![c] + rest) == followed(seq![c], quoted_text(rest)),
{
    assert((seq![c] + rest).skip(1) =~= rest);
}

/// A backslash at the end is an error.
pub proof fn escapes_do_not_end_a_literal()
    ensures
        quoted_text(seq!['\\']) == Err::<Seq<char>, _>(LiteralError::UnfinishedEscape),
{
}

/// The control character that a letter stands for after a backslash.
pub open spec fn short_escape(c: char) -> Option<char> {
    if c == 'a' {
        Some('\u{7}')
    } else if c == 'b' {
        Some('\u{8}')
    } else if c == 't' {
        Some('\u{9}')
    } else if c == 'n' {
        Some('\u{a}')
    } else if c == 'v' {
        Some('\u{b}')
    } else if c == 'f' {
        Some('\u{c}')
    } else if c == 'r' {
        Some('\u{d}')
    } else {
        None
    }
}

/// Whether a character has a meaning of its own after a backslash that goes on beyond it.
pub open spec fn goes_on(c: char) -> bool {
    c == 'z' || c == 'x' || c == 'u' || '0' <= c <= '9' || c == '\r'
}

/// After a backslash some letters stand for control characters, and what has no meaning of
/// its own stands for itself, quotes, backslashes and line breaks too.
pub proof fn escapes_are_read(c: char, rest: Seq<char>)
    requires
        !goes_on(c),
    ensures
        quoted_text(seq!['\\', c] + rest) == followed(
            seq![
                match short_escape(c) {
                    Some(control) => control,
                    None => c,
                },
            ],
            quoted_text(rest),
        ),
{
    assert((seq!['\\', c] + rest).skip(2) =~= rest);
}

/// A backslash before a carriage return stands for a line break, together with a line feed
/// that follows.
pub proof fn escaped_line_breaks_are_line_feeds(rest: Seq<char>)
    ensures
        quoted_text(seq!['\\', '\r', '\n'] + rest) == followed(seq!['\n'], quoted_text(rest)),
        !(rest.len() > 0 && rest[0] == '\n') ==> quoted_text(seq!['\\', '\r'] + rest) == followed(
            seq!['\n'],
            quoted_text(rest),
        ),
{
    assert((seq!['\\', '\r', '\n'] + rest).skip(3) =~= rest);
    assert((seq!['\\', '\r'] + rest).skip(2) =~= rest);
}

/// Whether a character is white space.
pub open spec fn is_blank(c: char) -> bool {
    let code = c as u32;
    ||| 0x9 <= code <= 0xd
    ||| code == 0x20
    ||| code == 0x85
    ||| code == 0xa0
    ||| code == 0x1680
    ||| 0x2000 <= code <= 0x200a
    ||| code == 0x2028
    ||| code == 0x2029
    ||| code == 0x202f
    ||| code == 0x205f
    ||| code == 0x3000
}

/// `\z` and all white space after it stand for nothing.
pub proof fn blanks_after_z_do_not_count(blanks: Seq<char>, rest: Seq<char>)
    requires
        forall|i: int| 0 <= i < blanks.len() ==> is_blank(#[trigger] blanks[i]),
        rest.len() > 0 ==> !is_blank(rest[0]),
    ensures
        quoted_text(seq!['\\', 'z'] + blanks + rest) == quoted_text(rest),
{
    let literal = seq!['\\', 'z'] + blanks + rest;
    assert(literal.skip(2) =~= blanks + rest);
    lemma_white_run(blanks, rest);
    assert(literal.skip(2 + blanks.len() as int) =~= rest);
    match quoted_text(rest) {
        Ok(text) => {
            assert(Seq::<char>::empty() + text =~= text);
        },
        Err(_) => {},
    }
    assert(literal[0] == '\\' && literal[1] == 'z');
    assert(quoted_unit(literal) == Ok::<(Seq<char>, nat), LiteralError>(
        (Seq::<char>::empty(), 2 + blanks.len()),
    ));
}

proof fn lemma_white_run(blanks: Seq<char>, rest: Seq<char>)
    requires
        forall|i: int| 0 <= i < blanks.len() ==> is_blank(#[trigger] blanks[i]),
        rest.len() > 0 ==> !is_blank(rest[0]),
    ensures
        white_run(blanks + rest) == blanks.len(),
    decreases blanks.len(),
{
    let all = blanks + rest;
    if blanks.len() > 0 {
        assert(is_blank(blanks[0]));
        assert(all[0] == blanks[0]);
        lemma_blank(all[0]);
        assert(all.drop_first() =~= blanks.drop_first() + rest);
        assert forall|i: int| 0 <= i < blanks.drop_first().len() implies is_blank(
            #[trigger] blanks.drop_first()[i],
        ) by {
            assert(blanks.drop_first()[i] == blanks[i + 1]);
        }
        lemma_white_run(blanks.drop_first(), rest);
    } else {
        assert(all =~= rest);
        if rest.len() > 0 {
            lemma_blank(rest[0]);
        }
    }
}

/// White space is what Unicode calls so.
pub proof fn lemma_blank(c: char)
    ensures
        is_white_space(c) == is_blank(c),
{
}

/// The value of a hexadecimal digit.
pub open spec fn digit_of(c: char) -> Option<nat> {
    let code = c as u32;
    if 0x30 <= code <= 0x39 {
        Some((code - 0x30) as nat)
    } else if 0x41 <= code <= 0x46 {
        Some((code - 0x41 + 10) as nat)
    } else if 0x61 <= code <= 0x66 {
        Some((code - 0x61 + 10) as nat)
    } else {
        None
    }
}

/// Whether a character is a digit in a base.
pub open spec fn is_digit(c: char, base: nat) -> bool {
    digit_of(c) is Some && digit_of(c)->0 < base
}

proof fn lemma_digit(c: char)
    ensures
        digit_value(c) is Some <==> digit_of(c) is Some,
        digit_value(c) is Some ==> digit_value(c)->0 == digit_of(c)->0,
{
}

/// The number that a row of digits writes.
pub open spec fn written(digits: Seq<char>, base: nat) -> nat
    decreases digits.len(),
{
    if digits.len() == 0 {
        0
    } else {
        written(digits.drop_last(), base) * base + digit_of(digits.last())->0
    }
}

/// Whether a row of digits writes a number in a base.
pub open spec fn writes(digits: Seq<char>, base: nat, number: nat) -> bool {
    &&& forall|i: int| 0 <= i < digits.len() ==> is_digit(#[trigger] digits[i], base)
    &&& number == written(digits, base)
}

/// Whether a literal does not go on with a digit.
pub open spec fn ends_digits(rest: Seq<char>, base: nat) -> bool {
    rest.len() > 0 ==> !is_digit(rest[0], base)
}

proof fn lemma_writes(digits: Seq<char>, base: nat, number: nat)
    requires
        writes(digits, base, number),
        base <= 16,
    ensures
        number_of(digits, base) == number,
        forall|i: int|
            0 <= i < digits.len() ==> digit_value(#[trigger] digits[i]) is Some && digit_value(
                digits[i],
            )->0 < base,
    decreases digits.len(),
{
    assert forall|i: int| 0 <= i < digits.len() implies digit_value(#[trigger] digits[i]) is Some
        && digit_value(digits[i])->0 < base by {
        assert(is_digit(digits[i], base));
        lemma_digit(digits[i]);
    }
    if digits.len() > 0 {
        let before = digits.drop_last();
        assert forall|i: int| 0 <= i < before.len() implies is_digit(
            #[trigger] before[i],
            base,
        ) by {
            assert(before[i] == digits[i]);
        }
        lemma_writes(before, base, written(before, base));
        lemma_digit(digits.last());
    }
}

proof fn lemma_digit_run(digits: Seq<char>, rest: Seq<char>, base: nat, limit: nat)
    requires
        base <= 16,
        digits.len() <= limit,
        forall|i: int|
            0 <= i < digits.len() ==> digit_value(#[trigger] digits[i]) is Some && digit_value(
                digits[i],
            )->0 < base,
        digits.len() == limit || ends_digits(rest, base),
    ensures
        digit_run(digits + rest, base, limit) == digits.len(),
    decreases digits.len(),
{
    let all = digits + rest;
    if digits.len() > 0 {
        assert(all[0] == digits[0]);
        assert(all.drop_first() =~= digits.drop_first() + rest);
        assert forall|i: int| 0 <= i < digits.drop_first().len() implies digit_value(
            #[trigger] digits.drop_first()[i],
        ) is Some && digit_value(digits.drop_first()[i])->0 < base by {
            assert(digits.drop_first()[i] == digits[i + 1]);
        }
        lemma_digit_run(digits.drop_first(), rest, base, (limit - 1) as nat);
    } else {
        assert(all =~= rest);
        if rest.len() > 0 {
            lemma_digit(rest[0]);
        }
    }
}

/// Whether a character has a number.
pub open spec fn is_code(c: char, number: nat) -> bool {
    c as u32 == number
}

/// Whether a literal stands for the character with a number, followed by what the rest
/// stands for.
pub open spec fn stands_for_code(literal: Seq<char>, number: nat, rest: Seq<char>) -> bool {
    exists|c: char| #[trigger]
        is_code(c, number) && quoted_text(literal) == followed(seq![c], quoted_text(rest))
}

/// `\x` and two hexadecimal digits stand for the character with that number.
pub proof fn hexadecimal_escapes_are_read(digits: Seq<char>, number: nat, rest: Seq<char>)
    requires
        digits.len() == 2,
        writes(digits, 16, number),
    ensures
        stands_for_code(seq!['\\', 'x'] + digits + rest, number, rest),
{
    let literal = seq!['\\', 'x'] + digits + rest;
    lemma_writes(digits, 16, number);
    lemma_digit_run(digits, rest, 16, 2);
    assert(literal.skip(2) =~= digits + rest);
    assert(literal.subrange(2, 4) =~= digits);
    assert(literal.skip(4) =~= rest);
    lemma_two_digits(digits, number);
    let c = number as char;
    assert(is_code(c, number));
    assert(quoted_text(literal) == followed(seq![c], quoted_text(rest)));
}

proof fn lemma_two_digits(digits: Seq<char>, number: nat)
    requires
        digits.len() == 2,
        writes(digits, 16, number),
    ensures
        number < 256,
{
    lemma_writes(digits, 16, number);
    reveal_with_fuel(number_of, 3);
    assert(digits.drop_last().last() == digits[0]);
    assert(digit_value(digits[0])->0 < 16 && digit_value(digits[1])->0 < 16);
}

/// `\x` without two hexadecimal digits is an error.
pub proof fn short_hexadecimal_escapes_are_refused(digits: Seq<char>, number: nat, rest: Seq<char>)
    requires
        digits.len() < 2,
        writes(digits, 16, number),
        ends_digits(rest, 16),
    ensures
        quoted_text(seq!['\\', 'x'] + digits + rest) == Err::<Seq<char>, _>(
            LiteralError::InvalidHexadecimal,
        ),
{
    let literal = seq!['\\', 'x'] + digits + rest;
    lemma_writes(digits, 16, number);
    lemma_digit_run(digits, rest, 16, 2);
    assert(literal.skip(2) =~= digits + rest);
}

/// A backslash and up to three decimal digits, as many as there are, stand for the character
/// with that number, where it is at most 255.
pub proof fn decimal_escapes_are_read(digits: Seq<char>, number: nat, rest: Seq<char>)
    requires
        1 <= digits.len() <= 3,
        writes(digits, 10, number),
        digits.len() == 3 || ends_digits(rest, 10),
    ensures
        number <= 255 ==> stands_for_code(seq!['\\'] + digits + rest, number, rest),
        number > 255 ==> quoted_text(seq!['\\'] + digits + rest) == Err::<Seq<char>, _>(
            LiteralError::InvalidDecimal,
        ),
{
    let literal = seq!['\\'] + digits + rest;
    lemma_writes(digits, 10, number);
    lemma_digit_run(digits, rest, 10, 3);
    assert(literal.skip(1) =~= digits + rest);
    assert(literal.subrange(1, 1 + digits.len() as int) =~= digits);
    assert(literal.skip(1 + digits.len() as int) =~= rest);
    assert(literal[1] == digits[0]);
    assert(digit_value(digits[0]) is Some && digit_value(digits[0])->0 < 10);
    if number <= 255 {
        let c = number as char;
        assert(is_code(c, number));
        assert(quoted_text(literal) == followed(seq![c], quoted_text(rest)));
    }
}

/// `\u{`, one to six hexadecimal digits and `}` stand for the character with that number,
/// where there is one.
pub proof fn unicode_escapes_are_read(digits: Seq<char>, number: nat, rest: Seq<char>)
    requires
        digits.len() <= 6,
        writes(digits, 16, number),
    ensures
        digits.len() > 0 && vstd::utf8::is_scalar(number as u32) ==> stands_for_code(
            seq!['\\', 'u', '{'] + digits + seq!['}'] + rest,
            number,
            rest,
        ),
        digits.len() > 0 && !vstd::utf8::is_scalar(number as u32) ==> quoted_text(
            seq!['\\', 'u', '{'] + digits + seq!['}'] + rest,
        ) == Err::<Seq<char>, _>(LiteralError::InvalidUnicode),
        digits.len() == 0 ==> quoted_text(seq!['\\', 'u', '{'] + digits + seq!['}'] + rest)
            == Err::<Seq<char>, _>(LiteralError::EmptyUnicode),
{
    let literal = seq!['\\', 'u', '{'] + digits + seq!['}'] + rest;
    lemma_writes(digits, 16, number);
    assert(ends_digits(seq!['}'] + rest, 16)) by {
        assert((seq!['}'] + rest)[0] == '}');
    }
    lemma_digit_run(digits, seq!['}'] + rest, 16, 7);
    assert(literal.skip(3) =~= digits + (seq!['}'] + rest));
    assert(literal.subrange(3, 3 + digits.len() as int) =~= digits);
    assert(literal.skip(4 + digits.len() as int) =~= rest);
    assert(literal[3 + digits.len() as int] == '}');
    lemma_six_digits(digits, number);
    if digits.len() > 0 && vstd::utf8::is_scalar(number as u32) {
        let c = number as char;
        assert(c as u32 == number);
        assert(is_code(c, number));
        assert(quoted_text(literal) == followed(seq![c], quoted_text(rest)));
    }
}

proof fn lemma_six_digits(digits: Seq<char>, number: nat)
    requires
        digits.len() <= 6,
        writes(digits, 16, number),
    ensures
        number < 0x1000000,
{
    lemma_writes(digits, 16, number);
    lemma_bound(digits);
    vstd::arithmetic::power::lemma_pow_increases(16, digits.len(), 6);
    assert(vstd::arithmetic::power::pow(16, 6) == 0x1000000) by {
        reveal(vstd::arithmetic::power::pow);
        reveal_with_fuel(vstd::arithmetic::power::pow, 7);
    }
}

proof fn lemma_bound(digits: Seq<char>)
    requires
        forall|i: int|
            0 <= i < digits.len() ==> digit_value(#[trigger] digits[i]) is Some && digit_value(
                digits[i],
            )->0 < 16,
    ensures
        number_of(digits, 16) < vstd::arithmetic::power::pow(16, digits.len()),
    decreases digits.len(),
{
    if digits.len() == 0 {
        vstd::arithmetic::power::lemma_pow0(16);
    } else {
        let before = digits.drop_last();
        assert forall|i: int| 0 <= i < before.len() implies digit_value(
            #[trigger] before[i],
        ) is Some && digit_value(before[i])->0 < 16 by {
            assert(before[i] == digits[i]);
        }
        lemma_bound(before);
        assert(digit_value(digits[digits.len() - 1])->0 < 16);
        assert(vstd::arithmetic::power::pow(16, digits.len()) == 16
            * vstd::arithmetic::power::pow(16, (digits.len() - 1) as nat)) by {
            reveal(vstd::arithmetic::power::pow);
        }
    }
}

/// `\u` without a brace, with something else than a digit before its closing brace, or
/// without that brace is an error.
pub proof fn other_unicode_escapes_are_refused(digits: Seq<char>, number: nat, rest: Seq<char>)
    requires
        writes(digits, 16, number),
        ends_digits(rest, 16),
    ensures
        !(rest.len() > 0 && rest[0] == '{') ==> quoted_text(seq!['\\', 'u'] + rest) == Err::<
            Seq<char>,
            _,
        >(LiteralError::InvalidUnicode),
        digits.len() <= 6 && rest.len() > 0 && rest[0] != '}' ==> quoted_text(
            seq!['\\', 'u', '{'] + digits + rest,
        ) == Err::<Seq<char>, _>(LiteralError::InvalidUnicode),
        digits.len() <= 6 && rest.len() == 0 ==> quoted_text(
            seq!['\\', 'u', '{'] + digits + rest,
        ) == Err::<Seq<char>, _>(LiteralError::UnterminatedUnicode),
{
    let short = seq!['\\', 'u'] + rest;
    if rest.len() > 0 {
        assert(short[2] == rest[0]);
    }
    let literal = seq!['\\', 'u', '{'] + digits + rest;
    lemma_writes(digits, 16, number);
    if digits.len() <= 6 {
        lemma_digit_run(digits, rest, 16, 7);
        assert(literal.skip(3) =~= digits + rest);
        if rest.len() > 0 {
            assert(literal[3 + digits.len() as int] == rest[0]);
        }
    }
}

/// `\u{` with more than six digits is an error.
pub proof fn long_unicode_escapes_are_refused(digits: Seq<char>, number: nat, rest: Seq<char>)
    requires
        digits.len() == 7,
        writes(digits, 16, number),
    ensures
        quoted_text(seq!['\\', 'u', '{'] + digits + rest) == Err::<Seq<char>, _>(
            LiteralError::LongUnicode,
        ),
{
    let literal = seq!['\\', 'u', '{'] + digits + rest;
    lemma_writes(digits, 16, number);
    lemma_digit_run(digits, rest, 16, 7);
    assert(literal.skip(3) =~= digits + rest);
}

/// Whether two characters are a line break together.
pub open spec fn is_pair(a: char, b: char) -> bool {
    (a == '\r' && b == '\n') || (a == '\n' && b == '\r')
}

/// Whether a character breaks a line.
pub open spec fn is_break(c: char) -> bool {
    c == '\r' || c == '\n'
}

/// In a bracketed literal a line break, of one character or of a pair, stands for a line
/// feed, and any other character for itself; one line break at its start stands for
/// nothing.
pub proof fn bracketed_literals_hold_their_lines(a: char, b: char, rest: Seq<char>)
    ensures
        unified_lines(Seq::empty()) == Seq::<char>::empty(),
        !is_break(a) ==> unified_lines(seq![a] + rest) == seq![a] + unified_lines(rest),
        is_pair(a, b) ==> unified_lines(seq![a, b] + rest) == seq!['\n'] + unified_lines(rest),
        is_break(a) && !(rest.len() > 0 && is_pair(a, rest[0])) ==> unified_lines(seq![a] + rest)
            == seq!['\n'] + unified_lines(rest),
        !(rest.len() > 0 && is_break(rest[0])) ==> long_text(rest) == unified_lines(rest),
        is_pair(a, b) ==> long_text(seq![a, b] + rest) == unified_lines(rest),
        is_break(a) && !(rest.len() > 0 && is_pair(a, rest[0])) ==> long_text(seq![a] + rest)
            == unified_lines(rest),
{
    assert((seq![a] + rest).drop_first() =~= rest);
    assert((seq![a] + rest).skip(1) =~= rest);
    assert((seq![a, b] + rest).skip(2) =~= rest);
    assert(rest.skip(0) =~= rest);
    if rest.len() > 0 {
        assert((seq![a] + rest)[1] == rest[0]);
    }
}

} // verus!
