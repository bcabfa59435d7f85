//! Whole numbers written as text: an optional sign, then digits and nothing else.

use vstd::prelude::*;
use crate::digits::{
    all_digits, chars_of, digit_of, digits_value, is_digit, is_negative, lemma_digits_pushed,
    lemma_prefix_grows, scan_digits, sign_length,
};

verus! {

/// The largest size that a negative whole number can have.
const SIZE_LIMIT: u64 = 9_223_372_036_854_775_808;

/// Whether `text` is a whole number: an optional sign, then digits and nothing else.
pub open spec fn is_whole(text: Seq<char>) -> bool {
    let digits = text.skip(sign_length(text));
    digits.len() >= 1 && all_digits(digits)
}

/// The whole number that `text` spells, if it spells one that a cell can hold.
pub open spec fn whole_of(text: Seq<char>) -> Option<i64> {
    let size = digits_value(text.skip(sign_length(text)));
    let number = if is_negative(text) {
        -size
    } else {
        size
    };
    if is_whole(text) && i64::MIN <= number <= i64::MAX {
        Some(number as i64)
    } else {
        None
    }
}

/// Reads a whole number from its text.
///
/// Returns the number that the text spells, and nothing where it spells none that fits.
pub fn parse_whole(text: &str) -> (number: Option<i64>)
    ensures
        number == whole_of(text@),
{
    let chars = chars_of(text);
    let length = chars.len();
    let negative = length > 0 && chars[0] == '-';
    let start: usize = if length > 0 && (chars[0] == '+' || chars[0] == '-') {
        1
    } else {
        0
    };
    let end = scan_digits(&chars, start);
    let ghost digits = chars@.skip(start as int);
    proof {
        assert(chars@.subrange(start as int, end as int) =~= digits.take(end - start));
        if end == length {
            assert(digits.take(end - start) =~= digits);
        } else {
            assert(digits[end - start] == chars@[end as int]);
        }
    }
    if end == start || end != length {
        return None;
    }
    let mut size: u64 = 0;
    let mut at: usize = start;
    while at < end
        invariant
            start <= at <= end,
            end == chars@.len(),
            chars@ == text@,
            start == sign_length(text@),
            digits == chars@.skip(start as int),
            all_digits(digits),
            size <= SIZE_LIMIT,
            size == digits_value(digits.take(at - start)),
        decreases end - at,
    {
        let c = chars[at];
        proof {
            assert(c == digits[at - start]);
            assert(is_digit(digits[at - start]));
            assert(digits.take(at - start + 1) =~= digits.take(at - start).push(c));
            lemma_digits_pushed(digits.take(at - start), c);
        }
        let digit: u64 = digit_of(c);
        if size > (SIZE_LIMIT - digit) / 10 {
            proof {
                lemma_prefix_grows(digits, at - start + 1, digits.len() as int);
                assert(digits.take(digits.len() as int) =~= digits);
            }
            return None;
        }
        size = size * 10 + digit;
        at += 1;
    }
    proof {
        assert(digits.take(end - start) =~= digits);
    }
    if negative {
        if size == SIZE_LIMIT {
            Some(i64::MIN)
        } else {
            Some(-(size as i64))
        }
    } else if size == SIZE_LIMIT {
        None
    } else {
        Some(size as i64)
    }
}

} // verus!
