//! Weights written as text.
//!
//! A weight is written as a decimal number: an optional sign, digits with an optional point,
//! and an optional power of ten after the letter `e`. The words `inf`, `infinity` and `nan`,
//! in either case and with an optional sign, name a weight that is no finite number. A number
//! is kept to nine decimal places, the digits beyond them cut off; one that is too large for a
//! weight to count in billionths is no finite weight either.

use vstd::prelude::*;
use vstd::arithmetic::div_mod::lemma_basic_div;
use crate::digits::{
    all_digits, chars_of, digit_of, digit_run, digits_value, is_digit, is_negative,
    lemma_digits_bound, lemma_digits_pushed, lemma_pow10_grows, lemma_pow10_positive,
    lemma_prefix_divides, lemma_prefix_grows, lemma_taken_digits, pow10, scan_digits, sign_length,
};
use crate::score::{Weight, NANOS_PER_UNIT};

verus! {

/// Decimal places that a weight keeps.
pub const WEIGHT_PLACES: u32 = 9;

/// How the weight is written that a run takes where it is told none.
pub const DEFAULT_WEIGHT_TEXT: &'static str = "1.0";

/// The number that `digits` spell, times ten to the power `shift`, rounded toward zero.
pub open spec fn scaled_value(digits: Seq<char>, shift: int) -> int {
    if shift >= 0 {
        digits_value(digits) * pow10(shift as nat)
    } else {
        digits_value(digits) / pow10((-shift) as nat)
    }
}

/// Whether `c` is the lower-case letter `lower` or its capital.
pub open spec fn same_letter(c: char, lower: char) -> bool {
    c == lower || c as int + 32 == lower as int
}

/// Whether `text` spells the lower-case `word`, in either case.
pub open spec fn spells(text: Seq<char>, word: Seq<char>) -> bool {
    &&& text.len() == word.len()
    &&& forall|i: int| 0 <= i < word.len() ==> same_letter(#[trigger] text[i], word[i])
}

/// Whether `body` is one of the words for a number that is not finite.
pub open spec fn names_non_finite(body: Seq<char>) -> bool {
    ||| spells(body, seq!['i', 'n', 'f'])
    ||| spells(body, seq!['i', 'n', 'f', 'i', 'n', 'i', 't', 'y'])
    ||| spells(body, seq!['n', 'a', 'n'])
}

/// Where the digits before the point end.
pub open spec fn whole_end(text: Seq<char>) -> int {
    digit_run(text, sign_length(text))
}

/// Where the digits after the point begin: behind the point, or where the whole digits end if
/// there is no point.
pub open spec fn fraction_start(text: Seq<char>) -> int {
    let at = whole_end(text);
    if at < text.len() && text[at] == '.' {
        at + 1
    } else {
        at
    }
}

/// Where the digits after the point end.
pub open spec fn fraction_end(text: Seq<char>) -> int {
    digit_run(text, fraction_start(text))
}

/// Whether the letter `e` follows the digits.
pub open spec fn has_exponent(text: Seq<char>) -> bool {
    let at = fraction_end(text);
    at < text.len() && (text[at] == 'e' || text[at] == 'E')
}

/// Whether the power of ten is written with a minus sign.
pub open spec fn exponent_negative(text: Seq<char>) -> bool {
    let at = fraction_end(text) + 1;
    at < text.len() && text[at] == '-'
}

/// Where the digits of the power of ten begin: behind the letter `e` and its sign.
pub open spec fn exponent_start(text: Seq<char>) -> int {
    let at = fraction_end(text) + 1;
    if at < text.len() && (text[at] == '+' || text[at] == '-') {
        at + 1
    } else {
        at
    }
}

/// Where the digits of the power of ten end.
pub open spec fn exponent_end(text: Seq<char>) -> int {
    digit_run(text, exponent_start(text))
}

/// The digits before the point.
pub open spec fn whole_digits(text: Seq<char>) -> Seq<char> {
    text.subrange(sign_length(text), whole_end(text))
}

/// The digits after the point.
pub open spec fn fraction_digits(text: Seq<char>) -> Seq<char> {
    text.subrange(fraction_start(text), fraction_end(text))
}

/// The power of ten that the number is written with: zero if it is written with none.
pub open spec fn exponent_value(text: Seq<char>) -> int {
    if has_exponent(text) {
        let size = digits_value(text.subrange(exponent_start(text), exponent_end(text)));
        if exponent_negative(text) {
            -size
        } else {
            size
        }
    } else {
        0
    }
}

/// Whether `text` is a decimal number: at least one digit before or after the point, then
/// nothing more, or the letter `e` with at least one digit behind its optional sign.
pub open spec fn is_number(text: Seq<char>) -> bool {
    &&& whole_digits(text).len() + fraction_digits(text).len() >= 1
    &&& if has_exponent(text) {
        exponent_start(text) < exponent_end(text) && exponent_end(text) == text.len()
    } else {
        fraction_end(text) == text.len()
    }
}

/// The size of a decimal number in billionths, the digits beyond the ninth decimal place cut
/// off.
pub open spec fn number_nanos(text: Seq<char>) -> int {
    scaled_value(
        whole_digits(text) + fraction_digits(text),
        exponent_value(text) + WEIGHT_PLACES - fraction_digits(text).len(),
    )
}

/// The weight that `text` spells, if it spells one.
pub open spec fn weight_of(text: Seq<char>) -> Option<Weight> {
    if names_non_finite(text.skip(sign_length(text))) {
        Some(Weight::NonFinite)
    } else if is_number(text) {
        let size = number_nanos(text);
        let nanos = if is_negative(text) {
            -size
        } else {
            size
        };
        if i64::MIN <= nanos <= i64::MAX {
            Some(Weight::Finite(nanos as i64))
        } else {
            Some(Weight::NonFinite)
        }
    } else {
        None
    }
}

/// The weight that `text` stands for: the one it spells, and one where it spells none.
pub open spec fn weight_or_unit(text: Seq<char>) -> Weight {
    match weight_of(text) {
        Some(weight) => weight,
        None => Weight::unit(),
    }
}

/// The largest size in billionths that a finite weight can have, a negative one.
const SIZE_LIMIT: u64 = 9_223_372_036_854_775_808;

/// Beyond this size a power of ten is counted no further: every number written with a larger
/// one is zero or too large.
const EXPONENT_CAP: i128 = 100_000_000_000_000_000_000;

/// The number that the first `kept` of `digits` spell, with zeros for the digits that `digits`
/// does not have.
spec fn cut_value(digits: Seq<char>, kept: int) -> int {
    if kept <= 0 {
        0
    } else if kept <= digits.len() {
        digits_value(digits.take(kept))
    } else {
        digits_value(digits) * pow10((kept - digits.len()) as nat)
    }
}

/// A size in billionths, if a finite weight can have it.
spec fn within_limit(size: int) -> Option<u64> {
    if size <= SIZE_LIMIT {
        Some(size as u64)
    } else {
        None
    }
}

proof fn lemma_pow10_nineteen()
    ensures
        pow10(19) == 10_000_000_000_000_000_000,
{
    reveal_with_fuel(pow10, 20);
}

/// Cutting a row of digits is scaling its number by a power of ten, rounded toward zero.
proof fn lemma_cut_is_scaled(digits: Seq<char>, kept: int)
    requires
        all_digits(digits),
    ensures
        cut_value(digits, kept) == scaled_value(digits, kept - digits.len()),
{
    lemma_digits_bound(digits);
    if kept <= 0 {
        lemma_pow10_grows(digits.len(), (digits.len() - kept) as nat);
        lemma_basic_div(digits_value(digits), pow10((digits.len() - kept) as nat));
    } else if kept < digits.len() {
        lemma_prefix_divides(digits, kept);
    } else if kept == digits.len() {
        assert(digits.take(kept) =~= digits);
        assert(digits_value(digits) * 1 == digits_value(digits));
    }
}

proof fn lemma_cut_not_negative(digits: Seq<char>, kept: int)
    requires
        all_digits(digits),
    ensures
        cut_value(digits, kept) >= 0,
{
    lemma_digits_bound(digits);
    if 0 < kept <= digits.len() {
        lemma_taken_digits(digits, kept);
        lemma_digits_bound(digits.take(kept));
    } else if kept > digits.len() {
        let zeros = (kept - digits.len()) as nat;
        lemma_pow10_positive(zeros);
        assert(digits_value(digits) * pow10(zeros) >= 0) by (nonlinear_arith)
            requires
                digits_value(digits) >= 0,
                pow10(zeros) >= 1,
        ;
    }
}

/// A number with nineteen zeros or more behind its digits is zero or beyond the limit.
proof fn lemma_far_cut(digits: Seq<char>, kept: int)
    requires
        all_digits(digits),
        kept >= digits.len() + 19,
    ensures
        within_limit(cut_value(digits, kept)) == (if digits_value(digits) == 0 {
            Some(0u64)
        } else {
            None
        }),
{
    lemma_digits_bound(digits);
    lemma_pow10_nineteen();
    let zeros = (kept - digits.len()) as nat;
    lemma_pow10_grows(19, zeros);
    let value = digits_value(digits);
    if value == 0 {
        assert(value * pow10(zeros) == 0);
    } else {
        assert(value * pow10(zeros) >= pow10(zeros)) by (nonlinear_arith)
            requires
                value >= 1,
                pow10(zeros) >= 1,
        ;
    }
}

fn is_letter(c: char, lower: char) -> (same: bool)
    requires
        'a' <= lower && lower <= 'z',
    ensures
        same == same_letter(c, lower),
{
    let code: u32 = c as u32;
    let lower_code: u32 = lower as u32;
    c == lower || code + 32 == lower_code
}

/// Whether the characters from `from` on name a number that is not finite.
fn is_non_finite_word(chars: &Vec<char>, from: usize) -> (named: bool)
    requires
        from <= chars@.len(),
    ensures
        named == names_non_finite(chars@.skip(from as int)),
{
    let ghost body = chars@.skip(from as int);
    let length = chars.len() - from;
    if length == 3 {
        let inf = is_letter(chars[from], 'i') && is_letter(chars[from + 1], 'n') && is_letter(
            chars[from + 2],
            'f',
        );
        let nan = is_letter(chars[from], 'n') && is_letter(chars[from + 1], 'a') && is_letter(
            chars[from + 2],
            'n',
        );
        proof {
            assert(body[0] == chars@[from as int]);
            assert(body[1] == chars@[from + 1]);
            assert(body[2] == chars@[from + 2]);
        }
        inf || nan
    } else if length == 8 {
        let infinity = is_letter(chars[from], 'i') && is_letter(chars[from + 1], 'n')
            && is_letter(chars[from + 2], 'f') && is_letter(chars[from + 3], 'i') && is_letter(
            chars[from + 4],
            'n',
        ) && is_letter(chars[from + 5], 'i') && is_letter(chars[from + 6], 't') && is_letter(
            chars[from + 7],
            'y',
        );
        proof {
            assert(body[0] == chars@[from as int]);
            assert(body[1] == chars@[from + 1]);
            assert(body[2] == chars@[from + 2]);
            assert(body[3] == chars@[from + 3]);
            assert(body[4] == chars@[from + 4]);
            assert(body[5] == chars@[from + 5]);
            assert(body[6] == chars@[from + 6]);
            assert(body[7] == chars@[from + 7]);
        }
        infinity
    } else {
        false
    }
}

/// Reads the size of a power of ten from its digits, counting no further than `EXPONENT_CAP`.
fn read_exponent(chars: &Vec<char>, from: usize, to: usize) -> (size: i128)
    requires
        from <= to <= chars@.len(),
        all_digits(chars@.subrange(from as int, to as int)),
    ensures
        0 <= size <= EXPONENT_CAP,
        size == if digits_value(chars@.subrange(from as int, to as int)) < EXPONENT_CAP {
            digits_value(chars@.subrange(from as int, to as int))
        } else {
            EXPONENT_CAP as int
        },
{
    let ghost digits = chars@.subrange(from as int, to as int);
    let mut size: i128 = 0;
    let mut at: usize = from;
    while at < to
        invariant
            from <= at <= to,
            to <= chars@.len(),
            digits == chars@.subrange(from as int, to as int),
            all_digits(digits),
            0 <= size <= EXPONENT_CAP,
            size == if digits_value(digits.take(at - from)) < EXPONENT_CAP {
                digits_value(digits.take(at - from))
            } else {
                EXPONENT_CAP as int
            },
        decreases to - at,
    {
        proof {
            let read = digits.take(at - from);
            assert(digits.take(at - from + 1) =~= read.push(digits[at - from]));
            lemma_digits_pushed(read, digits[at - from]);
            lemma_taken_digits(digits, at - from);
            lemma_digits_bound(read);
            assert(is_digit(digits[at - from]));
            assert(digits[at - from] == chars@[at as int]);
        }
        let digit: u64 = digit_of(chars[at]);
        size = size * 10 + digit as i128;
        if size > EXPONENT_CAP {
            size = EXPONENT_CAP;
        }
        at += 1;
    }
    proof {
        assert(digits.take(to - from) =~= digits);
    }
    size
}

/// Reads the first `kept` digits of a number as one whole number, with zeros for the digits
/// that the number does not have, as far as the result stays within the limit.
fn read_digits(
    chars: &Vec<char>,
    whole_from: usize,
    whole_to: usize,
    fraction_from: usize,
    fraction_to: usize,
    kept: i128,
) -> (size: Option<u64>)
    requires
        whole_from <= whole_to <= fraction_from <= fraction_to <= chars@.len(),
        all_digits(chars@.subrange(whole_from as int, whole_to as int)),
        all_digits(chars@.subrange(fraction_from as int, fraction_to as int)),
    ensures
        size == within_limit(
            cut_value(
                chars@.subrange(whole_from as int, whole_to as int) + chars@.subrange(
                    fraction_from as int,
                    fraction_to as int,
                ),
                kept as int,
            ),
        ),
        size matches Some(nanos) ==> nanos <= SIZE_LIMIT,
{
    let ghost whole = chars@.subrange(whole_from as int, whole_to as int);
    let ghost fraction = chars@.subrange(fraction_from as int, fraction_to as int);
    let ghost digits = whole + fraction;
    let whole_count: usize = whole_to - whole_from;
    let count: usize = whole_count + (fraction_to - fraction_from);
    proof {
        assert(all_digits(digits)) by {
            assert forall|i: int| 0 <= i < digits.len() implies is_digit(#[trigger] digits[i]) by {
                if i < whole.len() {
                    assert(digits[i] == whole[i]);
                } else {
                    assert(digits[i] == fraction[i - whole.len()]);
                }
            }
        }
        lemma_digits_bound(digits);
    }
    if kept <= 0 {
        return Some(0);
    }
    let mut size: u64 = 0;
    let mut taken: usize = 0;
    while taken < count && (taken as i128) < kept
        invariant
            whole_from <= whole_to <= fraction_from <= fraction_to <= chars@.len(),
            whole == chars@.subrange(whole_from as int, whole_to as int),
            fraction == chars@.subrange(fraction_from as int, fraction_to as int),
            digits == whole + fraction,
            all_digits(digits),
            whole_count == whole.len(),
            count == digits.len(),
            taken <= count,
            taken <= kept,
            size <= SIZE_LIMIT,
            size == digits_value(digits.take(taken as int)),
        decreases count - taken,
    {
        let c = if taken < whole_count {
            chars[whole_from + taken]
        } else {
            chars[fraction_from + (taken - whole_count)]
        };
        proof {
            assert(c == digits[taken as int]);
            assert(is_digit(digits[taken as int]));
            assert(digits.take(taken + 1) =~= digits.take(taken as int).push(c));
            lemma_digits_pushed(digits.take(taken as int), c);
        }
        let digit: u64 = digit_of(c);
        if size > (SIZE_LIMIT - digit) / 10 {
            proof {
                // The digits read so far are beyond the limit, and so is the whole number.
                let read = digits_value(digits.take(taken + 1));
                assert(read > SIZE_LIMIT);
                if kept <= count {
                    lemma_prefix_grows(digits, taken + 1, kept as int);
                } else {
                    lemma_prefix_grows(digits, taken + 1, count as int);
                    assert(digits.take(count as int) =~= digits);
                    let zeros = (kept - count) as nat;
                    lemma_pow10_positive(zeros);
                    assert(digits_value(digits) * pow10(zeros) >= digits_value(digits))
                        by (nonlinear_arith)
                        requires
                            digits_value(digits) >= 0,
                            pow10(zeros) >= 1,
                    ;
                }
            }
            return None;
        }
        size = size * 10 + digit;
        taken += 1;
    }
    if (count as i128) >= kept {
        return Some(size);
    }
    proof {
        assert(digits.take(count as int) =~= digits);
    }
    if size == 0 {
        proof {
            assert(digits_value(digits) * pow10((kept - count) as nat) == 0) by (nonlinear_arith)
                requires
                    digits_value(digits) == 0,
            ;
        }
        return Some(0);
    }
    let zeros: i128 = kept - count as i128;
    if zeros > 18 {
        proof {
            lemma_far_cut(digits, kept as int);
        }
        return None;
    }
    let ghost value = digits_value(digits);
    let mut added: i128 = 0;
    while added < zeros
        invariant
            0 <= added <= zeros,
            zeros == kept - count,
            zeros >= 1,
            count == digits.len(),
            digits == chars@.subrange(whole_from as int, whole_to as int) + chars@.subrange(
                fraction_from as int,
                fraction_to as int,
            ),
            value == digits_value(digits),
            value >= 1,
            size <= SIZE_LIMIT,
            size == value * pow10(added as nat),
        decreases zeros - added,
    {
        proof {
            assert(pow10((added + 1) as nat) == 10 * pow10(added as nat));
            assert(value * (10 * pow10(added as nat)) == (value * pow10(added as nat)) * 10)
                by (nonlinear_arith);
        }
        if size > SIZE_LIMIT / 10 {
            proof {
                lemma_pow10_grows((added + 1) as nat, zeros as nat);
                assert(value * pow10(zeros as nat) >= value * pow10((added + 1) as nat))
                    by (nonlinear_arith)
                    requires
                        value >= 1,
                        pow10(zeros as nat) >= pow10((added + 1) as nat),
                ;
                assert(cut_value(digits, kept as int) == value * pow10(zeros as nat));
            }
            return None;
        }
        size = size * 10;
        added += 1;
    }
    proof {
        assert(cut_value(digits, kept as int) == value * pow10(zeros as nat));
    }
    Some(size)
}

/// Where the parts of a decimal number stand in its text.
struct Shape {
    whole_from: usize,
    whole_to: usize,
    fraction_from: usize,
    fraction_to: usize,
    exponent_from: usize,
    exponent_to: usize,
    raised: bool,
    lowered: bool,
}

impl Shape {
    /// Whether the shape is that of the decimal number `text`.
    spec fn fits(self, text: Seq<char>) -> bool {
        &&& self.whole_from == sign_length(text)
        &&& self.whole_to == whole_end(text)
        &&& self.fraction_from == fraction_start(text)
        &&& self.fraction_to == fraction_end(text)
        &&& self.raised == has_exponent(text)
        &&& self.raised ==> {
            &&& self.lowered == exponent_negative(text)
            &&& self.exponent_from == exponent_start(text)
            &&& self.exponent_to == exponent_end(text)
        }
        &&& self.whole_from <= self.whole_to <= self.fraction_from <= self.fraction_to
            <= self.exponent_from <= self.exponent_to <= text.len()
        &&& all_digits(whole_digits(text))
        &&& all_digits(fraction_digits(text))
        &&& all_digits(text.subrange(self.exponent_from as int, self.exponent_to as int))
    }
}

/// Finds the parts of a decimal number, if the characters are one.
fn scan_number(chars: &Vec<char>) -> (shape: Option<Shape>)
    ensures
        shape is Some == is_number(chars@),
        shape matches Some(found) ==> found.fits(chars@),
{
    let length = chars.len();
    let whole_from: usize = if length > 0 && (chars[0] == '+' || chars[0] == '-') {
        1
    } else {
        0
    };
    let whole_to = scan_digits(chars, whole_from);
    let fraction_from: usize = if whole_to < length && chars[whole_to] == '.' {
        whole_to + 1
    } else {
        whole_to
    };
    let fraction_to = scan_digits(chars, fraction_from);
    if (whole_to - whole_from) + (fraction_to - fraction_from) == 0 {
        return None;
    }
    if fraction_to < length && (chars[fraction_to] == 'e' || chars[fraction_to] == 'E') {
        let sign_at = fraction_to + 1;
        let lowered = sign_at < length && chars[sign_at] == '-';
        let exponent_from: usize = if sign_at < length && (chars[sign_at] == '+' || chars[sign_at]
            == '-') {
            sign_at + 1
        } else {
            sign_at
        };
        let exponent_to = scan_digits(chars, exponent_from);
        if exponent_to == exponent_from || exponent_to != length {
            return None;
        }
        Some(
            Shape {
                whole_from,
                whole_to,
                fraction_from,
                fraction_to,
                exponent_from,
                exponent_to,
                raised: true,
                lowered,
            },
        )
    } else if fraction_to != length {
        None
    } else {
        proof {
            assert(all_digits(chars@.subrange(length as int, length as int)));
        }
        Some(
            Shape {
                whole_from,
                whole_to,
                fraction_from,
                fraction_to,
                exponent_from: length,
                exponent_to: length,
                raised: false,
                lowered: false,
            },
        )
    }
}

/// Reads the size in billionths of the decimal number with the given shape, as far as it stays
/// within the limit.
fn read_size(chars: &Vec<char>, shape: &Shape) -> (size: Option<u64>)
    requires
        shape.fits(chars@),
    ensures
        number_nanos(chars@) >= 0,
        size == within_limit(number_nanos(chars@)),
        size matches Some(nanos) ==> nanos <= SIZE_LIMIT,
{
    let mut exponent: i128 = 0;
    if shape.raised {
        let written = read_exponent(chars, shape.exponent_from, shape.exponent_to);
        exponent = if shape.lowered {
            -written
        } else {
            written
        };
    }
    let kept: i128 = (shape.whole_to - shape.whole_from) as i128 + exponent + WEIGHT_PLACES as i128;
    let size = read_digits(
        chars,
        shape.whole_from,
        shape.whole_to,
        shape.fraction_from,
        shape.fraction_to,
        kept,
    );
    proof {
        let whole = whole_digits(chars@);
        let fraction = fraction_digits(chars@);
        let digits = whole + fraction;
        let meant = whole.len() + exponent_value(chars@) + WEIGHT_PLACES;
        assert(all_digits(digits)) by {
            assert forall|i: int| 0 <= i < digits.len() implies is_digit(#[trigger] digits[i]) by {
                if i < whole.len() {
                    assert(digits[i] == whole[i]);
                } else {
                    assert(digits[i] == fraction[i - whole.len()]);
                }
            }
        }
        lemma_cut_is_scaled(digits, meant);
        lemma_cut_not_negative(digits, meant);
        assert(meant - digits.len() == exponent_value(chars@) + WEIGHT_PLACES - fraction.len());
        if kept != meant && exponent > 0 {
            // The power of ten was counted no further than the cap: zero or too large either way.
            lemma_far_cut(digits, kept as int);
            lemma_far_cut(digits, meant);
        }
    }
    size
}

/// Reads a weight from its text.
///
/// Returns the weight that the text spells, and nothing where it spells none.
pub fn parse_weight(text: &str) -> (weight: Option<Weight>)
    ensures
        weight == weight_of(text@),
{
    let chars = chars_of(text);
    let length = chars.len();
    let negative = length > 0 && chars[0] == '-';
    let start: usize = if length > 0 && (chars[0] == '+' || chars[0] == '-') {
        1
    } else {
        0
    };
    if is_non_finite_word(&chars, start) {
        return Some(Weight::NonFinite);
    }
    match scan_number(&chars) {
        Some(shape) => match read_size(&chars, &shape) {
            Some(size) => {
                if negative {
                    if size == SIZE_LIMIT {
                        Some(Weight::Finite(i64::MIN))
                    } else {
                        Some(Weight::Finite(-(size as i64)))
                    }
                } else if size == SIZE_LIMIT {
                    Some(Weight::NonFinite)
                } else {
                    Some(Weight::Finite(size as i64))
                }
            },
            None => Some(Weight::NonFinite),
        },
        None => None,
    }
}

/// Reads a weight from its text, taking the weight one for a text that spells no weight.
pub fn weight_or_default(text: &str) -> (weight: Weight)
    ensures
        weight == weight_or_unit(text@),
{
    match parse_weight(text) {
        Some(weight) => weight,
        None => Weight::one(),
    }
}

/// The decimal places that a weight keeps are those that billionths count.
pub proof fn lemma_places_make_a_unit()
    ensures
        pow10(WEIGHT_PLACES as nat) == NANOS_PER_UNIT,
{
    reveal_with_fuel(pow10, 10);
}

/// The weight that a run takes where it is told none is the weight one.
pub proof fn lemma_default_weight_is_one()
    ensures
        weight_of(DEFAULT_WEIGHT_TEXT@) == Some(Weight::unit()),
        weight_or_unit(DEFAULT_WEIGHT_TEXT@) == Weight::unit(),
{
    reveal_strlit("1.0");
    let text = DEFAULT_WEIGHT_TEXT@;
    assert(text == "1.0"@);
    assert(text.len() == 3);
    assert(text[0] == '1' && text[1] == '.' && text[2] == '0');
    reveal_with_fuel(digit_run, 4);
    assert(whole_end(text) == 1);
    assert(fraction_end(text) == 3);
    assert(whole_digits(text) =~= seq!['1']);
    assert(fraction_digits(text) =~= seq!['0']);
    assert(whole_digits(text) + fraction_digits(text) =~= seq!['1', '0']);
    reveal_with_fuel(digits_value, 4);
    assert(seq!['1', '0'].drop_last() =~= seq!['1']);
    assert(seq!['1'].drop_last() =~= Seq::<char>::empty());
    reveal_with_fuel(pow10, 10);
    assert(number_nanos(text) == 1_000_000_000);
    let body = text.skip(0);
    assert(body[0] == '1');
    assert(!names_non_finite(body)) by {
        if spells(body, seq!['i', 'n', 'f']) {
            assert(same_letter(body[0], seq!['i', 'n', 'f'][0]));
        }
        if spells(body, seq!['n', 'a', 'n']) {
            assert(same_letter(body[0], seq!['n', 'a', 'n'][0]));
        }
    }
}

} // verus!
