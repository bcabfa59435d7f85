//! Rows of decimal digits, and the numbers they spell.

use vstd::prelude::*;
use vstd::arithmetic::div_mod::lemma_div_denominator;

verus! {

/// Whether `c` is one of the ten decimal digits.
pub open spec fn is_digit(c: char) -> bool {
    '0' <= c && c <= '9'
}

/// The number that a decimal digit stands for.
pub open spec fn digit_value(c: char) -> int {
    c as int - '0' as int
}

/// Whether `digits` holds decimal digits only.
pub open spec fn all_digits(digits: Seq<char>) -> bool {
    forall|i: int| 0 <= i < digits.len() ==> is_digit(#[trigger] digits[i])
}

/// The number that a row of decimal digits spells.
pub open spec fn digits_value(digits: Seq<char>) -> int
    decreases digits.len(),
{
    if digits.len() == 0 {
        0
    } else {
        digits_value(digits.drop_last()) * 10 + digit_value(digits.last())
    }
}

/// Ten to the power `n`.
pub open spec fn pow10(n: nat) -> int
    decreases n,
{
    if n == 0 {
        1
    } else {
        10 * pow10((n - 1) as nat)
    }
}

/// Where the run of digits that begins at `from` ends.
pub open spec fn digit_run(text: Seq<char>, from: int) -> int
    decreases text.len() - from,
{
    if 0 <= from < text.len() && is_digit(text[from]) {
        digit_run(text, from + 1)
    } else {
        from
    }
}

/// The length of the sign that `text` begins with: one or none.
pub open spec fn sign_length(text: Seq<char>) -> int {
    if text.len() > 0 && (text[0] == '+' || text[0] == '-') {
        1
    } else {
        0
    }
}

/// Whether `text` begins with a minus sign.
pub open spec fn is_negative(text: Seq<char>) -> bool {
    text.len() > 0 && text[0] == '-'
}

/// A power of ten is at least one.
pub(crate) proof fn lemma_pow10_positive(n: nat)
    ensures
        pow10(n) >= 1,
    decreases n,
{
    if n > 0 {
        lemma_pow10_positive((n - 1) as nat);
    }
}

/// A higher power of ten is no smaller.
pub(crate) proof fn lemma_pow10_grows(low: nat, high: nat)
    requires
        low <= high,
    ensures
        pow10(low) <= pow10(high),
    decreases high,
{
    if low < high {
        lemma_pow10_grows(low, (high - 1) as nat);
        lemma_pow10_positive((high - 1) as nat);
    }
}

/// One digit more behind a row of digits spells ten times the number, plus the digit.
pub proof fn lemma_digits_pushed(digits: Seq<char>, c: char)
    ensures
        digits_value(digits.push(c)) == digits_value(digits) * 10 + digit_value(c),
{
    assert(digits.push(c).drop_last() =~= digits);
}

/// A row of digits spells a number that is not negative and has no more digits than the row.
pub(crate) proof fn lemma_digits_bound(digits: Seq<char>)
    requires
        all_digits(digits),
    ensures
        0 <= digits_value(digits) < pow10(digits.len()),
    decreases digits.len(),
{
    if digits.len() > 0 {
        let rest = digits.drop_last();
        assert(all_digits(rest)) by {
            assert forall|i: int| 0 <= i < rest.len() implies is_digit(#[trigger] rest[i]) by {
                assert(rest[i] == digits[i]);
            }
        }
        lemma_digits_bound(rest);
        assert(is_digit(digits[digits.len() - 1]));
    }
}

/// The first digits of a row of digits are digits.
pub(crate) proof fn lemma_taken_digits(digits: Seq<char>, kept: int)
    requires
        all_digits(digits),
        0 <= kept <= digits.len(),
    ensures
        all_digits(digits.take(kept)),
{
    assert forall|i: int| 0 <= i < digits.take(kept).len() implies is_digit(
        #[trigger] digits.take(kept)[i],
    ) by {
        assert(digits.take(kept)[i] == digits[i]);
    }
}

/// Taking one digit more never makes the number smaller.
pub(crate) proof fn lemma_prefix_grows(digits: Seq<char>, fewer: int, more: int)
    requires
        all_digits(digits),
        0 <= fewer <= more <= digits.len(),
    ensures
        digits_value(digits.take(fewer)) <= digits_value(digits.take(more)),
    decreases more - fewer,
{
    if fewer < more {
        lemma_prefix_grows(digits, fewer, more - 1);
        assert(digits.take(more) =~= digits.take(more - 1).push(digits[more - 1]));
        lemma_digits_pushed(digits.take(more - 1), digits[more - 1]);
        lemma_taken_digits(digits, more - 1);
        lemma_digits_bound(digits.take(more - 1));
        assert(is_digit(digits[more - 1]));
    }
}

/// Dropping the last digits of a number divides it by a power of ten.
pub(crate) proof fn lemma_prefix_divides(digits: Seq<char>, kept: int)
    requires
        all_digits(digits),
        0 <= kept <= digits.len(),
    ensures
        digits_value(digits) / pow10((digits.len() - kept) as nat) == digits_value(
            digits.take(kept),
        ),
    decreases digits.len(),
{
    if kept == digits.len() {
        assert(digits.take(kept) =~= digits);
    } else {
        let rest = digits.drop_last();
        let dropped = (digits.len() - kept) as nat;
        lemma_taken_digits(digits, digits.len() - 1);
        assert(rest =~= digits.take(digits.len() - 1));
        lemma_prefix_divides(rest, kept);
        assert(rest.take(kept) =~= digits.take(kept));
        lemma_digits_bound(rest);
        lemma_digits_bound(digits);
        lemma_pow10_positive((dropped - 1) as nat);
        assert(is_digit(digits[digits.len() - 1]));
        let value = digits_value(digits);
        assert(value / 10 == digits_value(rest));
        lemma_div_denominator(value, 10, pow10((dropped - 1) as nat));
    }
}

/// The characters of `text`, one by one.
pub(crate) fn chars_of(text: &str) -> (chars: Vec<char>)
    ensures
        chars@ == text@,
{
    let mut chars: Vec<char> = Vec::new();
    for c in walk: text.chars()
        invariant
            chars@ == walk.seq().take(walk.index() as int),
    {
        chars.push(c);
    }
    chars
}

/// Tells whether a character is a decimal digit.
pub(crate) fn is_decimal_digit(c: char) -> (digit: bool)
    ensures
        digit == is_digit(c),
{
    '0' <= c && c <= '9'
}

/// Reads the number that a decimal digit stands for.
pub(crate) fn digit_of(c: char) -> (value: u64)
    requires
        is_digit(c),
    ensures
        value == digit_value(c),
{
    let code: u32 = c as u32;
    (code - 48) as u64
}

/// Finds the end of the run of digits that begins at `from`.
pub(crate) fn scan_digits(chars: &Vec<char>, from: usize) -> (end: usize)
    requires
        from <= chars@.len(),
    ensures
        end == digit_run(chars@, from as int),
        from <= end <= chars@.len(),
        all_digits(chars@.subrange(from as int, end as int)),
        end == chars@.len() || !is_digit(chars@[end as int]),
{
    let mut end: usize = from;
    while end < chars.len() && is_decimal_digit(chars[end])
        invariant
            from <= end <= chars@.len(),
            digit_run(chars@, from as int) == digit_run(chars@, end as int),
            forall|i: int| from <= i < end ==> is_digit(#[trigger] chars@[i]),
        decreases chars@.len() - end,
    {
        end += 1;
    }
    end
}

} // verus!
