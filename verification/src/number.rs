//! Integer literals: an optional sign and decimal digits.

use crate::scan::{is_digit, is_sign, signs};
use vstd::prelude::*;

verus! {

/// The byte `-`.
pub const MINUS: u8 = 0x2d;

/// The number that a sequence of decimal digits writes.
pub open spec fn digits_value(digits: Seq<u8>) -> int
    decreases digits.len(),
{
    if digits.len() == 0 {
        0
    } else {
        10 * digits_value(digits.drop_last()) + (digits.last() - 0x30)
    }
}

/// Whether every byte is a decimal digit.
pub open spec fn all_digits(digits: Seq<u8>) -> bool {
    forall|i: int| 0 <= i < digits.len() ==> is_digit(#[trigger] digits[i])
}

/// The text without its sign, if it has one.
pub open spec fn digits_of(text: Seq<u8>) -> Seq<u8> {
    if text.len() > 0 && is_sign(text[0]) {
        text.drop_first()
    } else {
        text
    }
}

/// Whether the text is an integer literal: an optional sign, `+` or `-`,
/// and then at least one decimal digit and nothing else.
pub open spec fn is_literal(text: Seq<u8>) -> bool {
    digits_of(text).len() > 0 && all_digits(digits_of(text))
}

/// The integer that a literal writes.
pub open spec fn literal_value(text: Seq<u8>) -> int {
    if text.len() > 0 && text[0] == MINUS {
        -digits_value(digits_of(text))
    } else {
        digits_value(digits_of(text))
    }
}

/// What reading a text as a signed 64-bit integer gives.
#[derive(Clone, Copy, Debug, PartialEq, Eq, Structural)]
pub enum Reading {
    /// The text is a literal, and this is its value.
    Value(i64),
    /// The text is a literal whose value is below `i64::MIN` or above
    /// `i64::MAX`.
    Overflow,
    /// The text is no literal.
    Malformed,
}

/// The reading of `text`.
pub open spec fn reading(text: Seq<u8>) -> Reading {
    if !is_literal(text) {
        Reading::Malformed
    } else if i64::MIN <= literal_value(text) <= i64::MAX {
        Reading::Value(literal_value(text) as i64)
    } else {
        Reading::Overflow
    }
}

/// Reads `text` as a signed 64-bit integer.
pub fn read(text: &[u8]) -> (r: Reading)
    ensures
        r == reading(text@),
{
    let n: usize = text.len();
    let negative: bool = n > 0 && text[0] == MINUS;
    let start: usize = if n > 0 && signs(text[0]) {
        1
    } else {
        0
    };
    let ghost digits = digits_of(text@);
    assert(digits =~= text@.subrange(start as int, n as int));
    if start == n {
        return Reading::Malformed;
    }
    let limit: u64 = if negative {
        9223372036854775808
    } else {
        9223372036854775807
    };
    let mut value: u64 = 0;
    let mut over: bool = false;
    let mut i: usize = start;
    while i < n
        invariant
            start <= i <= n,
            n == text@.len(),
            digits == text@.subrange(start as int, n as int),
            digits == digits_of(text@),
            all_digits(digits.take(i - start)),
            9223372036854775807 <= limit <= 9223372036854775808,
            !over ==> value == digits_value(digits.take(i - start)) && value <= limit,
            over ==> digits_value(digits.take(i - start)) > limit,
        decreases n - i,
    {
        let b: u8 = text[i];
        if !(0x30 <= b && b <= 0x39) {
            assert(!is_digit(digits[i - start]));
            return Reading::Malformed;
        }
        let digit: u64 = (b - 0x30) as u64;
        proof {
            let longer = digits.take(i + 1 - start);
            assert(longer.drop_last() =~= digits.take(i - start));
            assert(longer.last() == b);
        }
        if !over {
            if value > 922337203685477580 {
                over = true;
            } else {
                let next: u64 = value * 10 + digit;
                if next > limit {
                    over = true;
                } else {
                    value = next;
                }
            }
        }
        i = i + 1;
    }
    assert(digits.take(n - start) =~= digits);
    if over {
        Reading::Overflow
    } else if negative {
        if value == 9223372036854775808 {
            Reading::Value(i64::MIN)
        } else {
            Reading::Value(-(value as i64))
        }
    } else {
        Reading::Value(value as i64)
    }
}

} // verus!
