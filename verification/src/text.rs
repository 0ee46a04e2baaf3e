//! Decimal text of integers and small string helpers.

use vstd::prelude::*;
use vstd::string::{StrSliceExecFns, StringExecFns};

verus! {

/// The character of a single decimal digit `d` in `0..=9`.
pub open spec fn digit_char(d: int) -> char {
    ((48 + d) as u8) as char
}

/// The decimal digits of `n`, most significant first, without leading zeros.
pub open spec fn decimal_digits(n: nat) -> Seq<char>
    decreases n,
{
    if n < 10 {
        seq![digit_char(n as int)]
    } else {
        decimal_digits(n / 10).push(digit_char((n % 10) as int))
    }
}

/// The decimal text of `n`: a minus sign for negative numbers, then the digits.
pub open spec fn decimal_text(n: int) -> Seq<char> {
    if n < 0 {
        seq!['-'] + decimal_digits((-n) as nat)
    } else {
        decimal_digits(n as nat)
    }
}

/// The decimal form of `n` by `i128::to_string`. Trusted: the standard
/// library writes a `-` for a negative number and then the decimal digits,
/// without leading zeros or padding.
#[verifier::external_body]
pub(crate) fn decimal_string(n: i128) -> (text: String)
    ensures
        text@ == decimal_text(n as int),
{
    n.to_string()
}

/// Joins a prefix and a suffix into one owned string.
pub fn joined(prefix: &str, suffix: &str) -> (text: String)
    ensures
        text@ == prefix@ + suffix@,
{
    let mut text = String::from_str(prefix);
    text.append(suffix);
    text
}

/// Why a text is not the decimal form of an integer of some range.
#[derive(Clone, Copy, PartialEq, Eq, Debug, Structural)]
pub enum NumberError {
    /// The text is empty.
    Empty,
    /// The text holds something else than a sign in front and digits after.
    InvalidDigit,
    /// The number is above the range.
    PosOverflow,
    /// The number is below the range.
    NegOverflow,
}

/// The value of a decimal digit, and nothing for any other character.
pub open spec fn digit_value(c: char) -> Option<int> {
    if '0' <= c <= '9' {
        Some(c as int - 48)
    } else {
        None
    }
}

/// Reads the digits of `text` from position `at` on, continuing a number
/// that has reached `value` so far. Reading stops at the first character
/// that is no digit and at the first digit that takes the number out of
/// the range `min` to `max`.
pub open spec fn read_digits(
    text: Seq<char>,
    at: int,
    negative: bool,
    min: int,
    max: int,
    value: int,
) -> Result<int, NumberError>
    decreases text.len() - at,
{
    if at < 0 || at >= text.len() {
        Ok(value)
    } else {
        match digit_value(text[at]) {
            None => Err(NumberError::InvalidDigit),
            Some(digit) => {
                let next = if negative {
                    value * 10 - digit
                } else {
                    value * 10 + digit
                };
                if next > max {
                    Err(NumberError::PosOverflow)
                } else if next < min {
                    Err(NumberError::NegOverflow)
                } else {
                    read_digits(text, at + 1, negative, min, max, next)
                }
            },
        }
    }
}

/// Reads `text` as an integer between `min` and `max`: a `+` or, where the
/// range has negative numbers, a `-` may come first, then at least one
/// decimal digit and nothing else.
pub open spec fn read_integer(text: Seq<char>, min: int, max: int) -> Result<int, NumberError> {
    if text.len() == 0 {
        Err(NumberError::Empty)
    } else if text.len() == 1 && (text[0] == '+' || text[0] == '-') {
        Err(NumberError::InvalidDigit)
    } else if text[0] == '+' {
        read_digits(text, 1, false, min, max, 0)
    } else if text[0] == '-' && min < 0 {
        read_digits(text, 1, true, min, max, 0)
    } else {
        read_digits(text, 0, false, min, max, 0)
    }
}

/// Reads `text` as an integer between `min` and `max`.
pub fn parse_integer(text: &str, min: i64, max: i64) -> (parsed: Result<i64, NumberError>)
    requires
        min <= 0 <= max,
    ensures
        match parsed {
            Ok(value) => min <= value <= max && read_integer(text@, min as int, max as int) == Ok::<
                int,
                NumberError,
            >(value as int),
            Err(error) => read_integer(text@, min as int, max as int) == Err::<int, NumberError>(
                error,
            ),
        },
{
    let mut value: i64 = 0;
    let mut negative = false;
    let mut signed_start = false;
    let mut any_digit = false;
    for c in iter: text.chars()
        invariant
            iter.seq() == text@,
            min <= 0 <= max,
            min <= value <= max,
            !any_digit ==> value == 0 && iter.index() == (if signed_start {
                1int
            } else {
                0int
            }),
            any_digit ==> iter.index() > (if signed_start {
                1int
            } else {
                0int
            }),
            negative ==> signed_start,
            iter.index() > 0 ==> read_integer(text@, min as int, max as int) == (if signed_start
                && text@.len() == 1 {
                Err::<int, NumberError>(NumberError::InvalidDigit)
            } else {
                read_digits(text@, iter.index() as int, negative, min as int, max as int, value as int)
            }),
    {
        let first = !any_digit && !signed_start;
        if first && c == '+' {
            signed_start = true;
        } else if first && c == '-' && min < 0 {
            signed_start = true;
            negative = true;
        } else if '0' <= c && c <= '9' {
            let digit: i128 = (c as u32 - 48) as i128;
            let next: i128 = if negative {
                value as i128 * 10 - digit
            } else {
                value as i128 * 10 + digit
            };
            if next > max as i128 {
                return Err(NumberError::PosOverflow);
            } else if next < min as i128 {
                return Err(NumberError::NegOverflow);
            }
            value = next as i64;
            any_digit = true;
        } else {
            return Err(NumberError::InvalidDigit);
        }
    }
    if any_digit {
        Ok(value)
    } else if signed_start {
        Err(NumberError::InvalidDigit)
    } else {
        Err(NumberError::Empty)
    }
}

/// What is said of a text that is not a number.
pub open spec fn number_error_text(error: NumberError) -> Seq<char> {
    match error {
        NumberError::Empty => "cannot parse integer from empty string"@,
        NumberError::InvalidDigit => "invalid digit found in string"@,
        NumberError::PosOverflow => "number too large to fit in target type"@,
        NumberError::NegOverflow => "number too small to fit in target type"@,
    }
}

/// What is said of a text that is not a number.
pub fn number_error_message(error: NumberError) -> (message: &'static str)
    ensures
        message@ == number_error_text(error),
{
    match error {
        NumberError::Empty => "cannot parse integer from empty string",
        NumberError::InvalidDigit => "invalid digit found in string",
        NumberError::PosOverflow => "number too large to fit in target type",
        NumberError::NegOverflow => "number too small to fit in target type",
    }
}

/// Whether two texts are the same.
pub fn same_text(a: &str, b: &str) -> (same: bool)
    ensures
        same == (a@ == b@),
{
    String::from_str(a) == String::from_str(b)
}

/// `fill` written `count` times over.
pub open spec fn repeated(fill: Seq<char>, count: nat) -> Seq<char>
    decreases count,
{
    if count == 0 {
        Seq::empty()
    } else {
        repeated(fill, (count - 1) as nat) + fill
    }
}

/// Number of fills that bring a text of `length` characters to `width`.
pub open spec fn padding(length: nat, width: nat) -> nat {
    if length < width {
        (width - length) as nat
    } else {
        0
    }
}

/// `text` set to the right of a column of `width` characters, the room to
/// its left taken by `fill`, once for each character that is missing.
pub open spec fn right_aligned(text: Seq<char>, width: nat, fill: Seq<char>) -> Seq<char> {
    repeated(fill, padding(text.len(), width)) + text
}

/// `fill` written `count` times over.
pub fn repeat(fill: &str, count: usize) -> (text: String)
    ensures
        text@ == repeated(fill@, count as nat),
{
    let mut text = String::new();
    let mut done: usize = 0;
    while done < count
        invariant
            done <= count,
            text@ == repeated(fill@, done as nat),
        decreases count - done,
    {
        text.append(fill);
        done += 1;
    }
    text
}

/// `text` set to the right of a column of `width` characters.
pub fn align_right(text: &str, width: usize, fill: &str) -> (aligned: String)
    ensures
        aligned@ == right_aligned(text@, width as nat, fill@),
{
    let length = text.unicode_len();
    let missing = if length < width {
        width - length
    } else {
        0
    };
    let mut aligned = repeat(fill, missing);
    aligned.append(text);
    aligned
}

/// The decimal form of `num` set to the right of a column of `width`
/// characters, with blanks to its left.
pub fn number_column(num: i128, width: usize) -> (aligned: String)
    ensures
        aligned@ == right_aligned(decimal_text(num as int), width as nat, " "@),
{
    let digits = decimal_string(num);
    align_right(digits.as_str(), width, " ")
}

} // verus!
