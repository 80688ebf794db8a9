//! Text as the quests read and write it: lines of bytes, and numbers written
//! out in decimal.

use vstd::prelude::*;

verus! {

/// The byte that ends a line.
pub const NEWLINE: u8 = 10;

/// Where the line that starts at `start` ends: the index of the first
/// newline at or after `start`, or the length of the text if none follows.
pub open spec fn line_end(text: Seq<u8>, start: int) -> int
    decreases text.len() - start,
{
    if start < 0 || start >= text.len() || text[start] == NEWLINE {
        start
    } else {
        line_end(text, start + 1)
    }
}

/// The line that starts at `start` ends at or after `start` and within the
/// text, holds no newline, and ends at a newline or with the text.
pub proof fn lemma_line_end(text: Seq<u8>, start: int)
    requires
        0 <= start <= text.len(),
    ensures
        start <= line_end(text, start) <= text.len(),
        forall|i: int| start <= i < line_end(text, start) ==> text[i] != NEWLINE,
        line_end(text, start) < text.len() ==> text[line_end(text, start)] == NEWLINE,
    decreases text.len() - start,
{
    if start < text.len() && text[start] != NEWLINE {
        lemma_line_end(text, start + 1);
    }
}

/// Finds where the line that starts at `start` ends.
pub fn find_line_end(input: &[u8], start: usize) -> (end: usize)
    requires
        start <= input@.len(),
    ensures
        end == line_end(input@, start as int),
        start <= end <= input@.len(),
{
    let mut end = start;
    while end < input.len() && input[end] != NEWLINE
        invariant
            start <= end <= input@.len(),
            line_end(input@, start as int) == line_end(input@, end as int),
        decreases input@.len() - end,
    {
        end += 1;
    }
    end
}

/// The byte that may stand before a newline at the end of a line.
pub const CARRIAGE_RETURN: u8 = 13;

/// The line of `text` from `start` up to the line's end at `end`, without
/// what ends it: a carriage return just before the newline is no part of
/// the line. A last line that no newline follows is taken whole.
pub open spec fn line_between(text: Seq<u8>, start: int, end: int) -> Seq<u8> {
    if start < end < text.len() && text[end - 1] == CARRIAGE_RETURN {
        text.subrange(start, end - 1)
    } else {
        text.subrange(start, end)
    }
}

/// The digit `0`; the other nine digits follow it.
pub const ZERO: u8 = 48;

/// The digit `9`.
pub const NINE: u8 = 57;

/// The sign `+`.
pub const PLUS: u8 = 43;

/// The sign `-`.
pub const MINUS: u8 = 45;

/// Whether `symbol` is one of the ten decimal digits.
pub open spec fn is_digit(symbol: u8) -> bool {
    ZERO <= symbol <= NINE
}

/// The number that a run of decimal digits stands for.
pub open spec fn digits_value(digits: Seq<u8>) -> nat
    decreases digits.len(),
{
    if digits.len() == 0 {
        0
    } else {
        digits_value(digits.drop_last()) * 10 + (digits.last() - ZERO) as nat
    }
}

/// Whether `text` is the decimal form of an integer: an optional sign, `+`
/// or `-`, and after it one or more digits and nothing else.
pub open spec fn is_integer(text: Seq<u8>) -> bool {
    let digits = unsigned_part(text);
    digits.len() > 0 && forall|i: int| 0 <= i < digits.len() ==> is_digit(#[trigger] digits[i])
}

/// `text` without its sign, if it begins with one.
pub open spec fn unsigned_part(text: Seq<u8>) -> Seq<u8> {
    if text.len() > 0 && (text[0] == PLUS || text[0] == MINUS) {
        text.skip(1)
    } else {
        text
    }
}

/// The integer that `text` stands for, where it is the decimal form of one.
pub open spec fn integer_value(text: Seq<u8>) -> int {
    if text.len() > 0 && text[0] == MINUS {
        -(digits_value(unsigned_part(text)) as int)
    } else {
        digits_value(unsigned_part(text)) as int
    }
}

/// The `i32` that `text` stands for: `None` where `text` is not the decimal
/// form of an integer, or the integer does not fit.
pub open spec fn parsed_i32(text: Seq<u8>) -> Option<i32> {
    if is_integer(text) && i32::MIN <= integer_value(text) <= i32::MAX {
        Some(integer_value(text) as i32)
    } else {
        None
    }
}

/// A run of digits stands for at least as much as any run it begins with.
pub proof fn lemma_digits_value_grows(digits: Seq<u8>, shorter: int)
    requires
        0 <= shorter <= digits.len(),
    ensures
        digits_value(digits.take(shorter)) <= digits_value(digits),
    decreases digits.len(),
{
    if shorter < digits.len() {
        lemma_digits_value_grows(digits.drop_last(), shorter);
        assert(digits.drop_last().take(shorter) =~= digits.take(shorter));
    } else {
        assert(digits.take(shorter) =~= digits);
    }
}

/// Reads the `i32` that the symbols of `input` from `start` up to `end`
/// stand for in decimal: an optional sign and one or more digits.
pub fn parse_i32(input: &[u8], start: usize, end: usize) -> (value: Option<i32>)
    requires
        start <= end <= input@.len(),
    ensures
        value == parsed_i32(input@.subrange(start as int, end as int)),
{
    let ghost text = input@.subrange(start as int, end as int);
    if start == end {
        return None;
    }
    let negative = input[start] == MINUS;
    let first = if negative || input[start] == PLUS {
        start + 1
    } else {
        start
    };
    let ghost digits = unsigned_part(text);
    if first == end {
        return None;
    }
    let mut magnitude: i64 = 0;
    let mut at: usize = first;
    while at < end
        invariant
            start <= first <= at <= end <= input@.len(),
            text == input@.subrange(start as int, end as int),
            digits == unsigned_part(text),
            digits == input@.subrange(first as int, end as int),
            forall|i: int| 0 <= i < at - first ==> is_digit(#[trigger] digits[i]),
            magnitude == digits_value(digits.take(at - first)),
            magnitude <= 0x8000_0000,
        decreases end - at,
    {
        let symbol = input[at];
        assert(digits[at - first] == symbol);
        if symbol < ZERO || symbol > NINE {
            return None;
        }
        proof {
            let longer = digits.take(at - first + 1);
            assert(longer.drop_last() =~= digits.take(at - first));
        }
        magnitude = magnitude * 10 + (symbol - ZERO) as i64;
        if magnitude > 0x8000_0000 {
            proof {
                lemma_digits_value_grows(digits, at - first + 1);
            }
            return None;
        }
        at += 1;
    }
    assert(digits.take(at - first) =~= digits);
    if negative {
        Some((-magnitude) as i32)
    } else if magnitude == 0x8000_0000 {
        None
    } else {
        Some(magnitude as i32)
    }
}

/// The character for a single decimal digit `d < 10`.
pub open spec fn digit_char(d: nat) -> char {
    (('0' as nat) + d) as char
}

/// The decimal digits of `n`, most significant first, without leading zeros.
pub open spec fn decimal(n: nat) -> Seq<char>
    decreases n,
{
    if n < 10 {
        seq![digit_char(n)]
    } else {
        decimal(n / 10).push(digit_char(n % 10))
    }
}

/// The character for a single hexadecimal digit `d < 16`, in upper case.
pub open spec fn hex_digit_char(d: nat) -> char {
    if d < 10 {
        digit_char(d)
    } else {
        (('A' as nat) + d - 10) as char
    }
}

/// The hexadecimal digits of `n` in upper case, most significant first,
/// without leading zeros.
pub open spec fn upper_hex(n: nat) -> Seq<char>
    decreases n,
{
    if n < 16 {
        seq![hex_digit_char(n)]
    } else {
        upper_hex(n / 16).push(hex_digit_char(n % 16))
    }
}

/// `digits` with zeros put in front until it is at least `width` long.
pub open spec fn zero_padded(digits: Seq<char>, width: nat) -> Seq<char> {
    if digits.len() >= width {
        digits
    } else {
        Seq::new((width - digits.len()) as nat, |i: int| '0') + digits
    }
}

/// Writes `n` in decimal.
///
/// Trusted: calls `usize::to_string` of std, and claims that it yields the
/// decimal digits of `n` with no sign, padding or separators.
#[verifier::external_body]
pub(crate) fn decimal_string(n: usize) -> (s: String)
    ensures
        s@ == decimal(n as nat),
{
    n.to_string()
}

/// Writes `n` in upper-case hexadecimal.
///
/// Trusted: calls std's `format!` with the pattern `{:X}`, and claims that it
/// yields the hexadecimal digits of `n` in upper case, with no prefix or
/// padding.
#[verifier::external_body]
pub(crate) fn upper_hex_string(n: u8) -> (s: String)
    ensures
        s@ == upper_hex(n as nat),
{
    format!("{:X}", n)
}

/// Writes `n` in decimal, at least two digits wide.
///
/// Trusted: calls std's `format!` with the pattern `{:02}`, and claims that it
/// yields the decimal digits of `n` with zeros in front up to a width of two.
#[verifier::external_body]
pub(crate) fn two_digit_string(n: usize) -> (s: String)
    ensures
        s@ == zero_padded(decimal(n as nat), 2),
{
    format!("{:02}", n)
}

} // verus!
