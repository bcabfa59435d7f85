//! What the report writes, the reader of weights reads back.

use vstd::prelude::*;
use crate::digits::{
    all_digits, digit_run, digit_value, digits_value, is_digit, is_negative, lemma_digits_pushed,
    pow10, sign_length,
};
use crate::numeral::{
    exponent_value, fraction_digits, fraction_end, fraction_start, has_exponent, is_number,
    names_non_finite, number_nanos, spells, weight_of, whole_digits, whole_end,
};
use crate::report::{
    decimal_text, digit_char, natural_text, non_finite_text, places_text, weight_text,
};
use crate::score::Weight;

verus! {

proof fn lemma_digit_char(digit: int)
    requires
        0 <= digit < 10,
    ensures
        is_digit(digit_char(digit)),
        digit_value(digit_char(digit)) == digit,
{
}

/// A natural number is written in digits, at least one, and they spell the number.
proof fn lemma_natural_text(number: nat)
    ensures
        natural_text(number).len() >= 1,
        all_digits(natural_text(number)),
        digits_value(natural_text(number)) == number,
    decreases number,
{
    if number < 10 {
        lemma_digit_char(number as int);
        let text = natural_text(number);
        assert(text.drop_last() =~= Seq::<char>::empty());
        assert(digits_value(text.drop_last()) == 0);
    } else {
        lemma_natural_text(number / 10);
        lemma_digit_char((number % 10) as int);
        lemma_digits_pushed(natural_text(number / 10), digit_char((number % 10) as int));
    }
}

proof fn lemma_pow10_adds(a: nat, b: nat)
    ensures
        pow10(a + b) == pow10(a) * pow10(b),
    decreases a,
{
    if a == 0 {
        assert(pow10(0) * pow10(b) == pow10(b));
    } else {
        lemma_pow10_adds((a - 1) as nat, b);
        assert(pow10(a + b) == 10 * pow10((a - 1 + b) as nat));
        assert(10 * (pow10((a - 1) as nat) * pow10(b)) == (10 * pow10((a - 1) as nat)) * pow10(b))
            by (nonlinear_arith);
    }
}

/// The digits of two rows, one behind the other, spell the first number shifted by the length
/// of the second row, plus the second number.
proof fn lemma_digits_joined(first: Seq<char>, second: Seq<char>)
    ensures
        digits_value(first + second) == digits_value(first) * pow10(second.len()) + digits_value(
            second,
        ),
    decreases second.len(),
{
    if second.len() == 0 {
        assert(first + second =~= first);
        assert(digits_value(first) * 1 == digits_value(first));
    } else {
        let rest = second.drop_last();
        lemma_digits_joined(first, rest);
        assert((first + second).drop_last() =~= first + rest);
        assert((first + second).last() == second.last());
        assert((digits_value(first) * pow10(rest.len())) * 10 == digits_value(first) * (10 * pow10(
            rest.len(),
        ))) by (nonlinear_arith);
    }
}

/// The power of ten that a decimal place counts, in billionths.
spec fn place_of(unit: nat) -> nat {
    if unit == 100_000_000 {
        8
    } else if unit == 10_000_000 {
        7
    } else if unit == 1_000_000 {
        6
    } else if unit == 100_000 {
        5
    } else if unit == 10_000 {
        4
    } else if unit == 1_000 {
        3
    } else if unit == 100 {
        2
    } else if unit == 10 {
        1
    } else {
        0
    }
}

spec fn is_place(unit: nat) -> bool {
    unit == 100_000_000 || unit == 10_000_000 || unit == 1_000_000 || unit == 100_000 || unit
        == 10_000 || unit == 1_000 || unit == 100 || unit == 10 || unit == 1
}

proof fn lemma_place_unit(unit: nat)
    requires
        is_place(unit),
    ensures
        pow10(place_of(unit)) == unit,
{
    reveal_with_fuel(pow10, 10);
}

/// Decimal places are written in digits that, shifted to the place of the first, spell the
/// number they stand for.
proof fn lemma_places_text(rest: nat, unit: nat)
    requires
        is_place(unit),
        rest < 10 * unit,
    ensures
        all_digits(places_text(rest, unit)),
        places_text(rest, unit).len() <= place_of(unit) + 1,
        rest > 0 ==> places_text(rest, unit).len() >= 1,
        digits_value(places_text(rest, unit)) * pow10(
            (place_of(unit) + 1 - places_text(rest, unit).len()) as nat,
        ) == rest,
    decreases unit,
{
    let text = places_text(rest, unit);
    if rest == 0 {
        assert(text =~= Seq::<char>::empty());
        assert(0 * pow10((place_of(unit) + 1) as nat) == 0);
    } else {
        let digit = (rest / unit) as int;
        let left = rest % unit;
        let tail = places_text(left, unit / 10);
        let head = seq![digit_char(digit)];
        assert(0 <= digit < 10);
        lemma_digit_char(digit);
        assert(text == head + tail);
        if unit >= 10 {
            lemma_places_text(left, unit / 10);
        } else {
            assert(left == 0);
            assert(tail =~= Seq::<char>::empty());
            assert(digits_value(tail) == 0);
        }
        assert(all_digits(text)) by {
            assert forall|i: int| 0 <= i < text.len() implies is_digit(#[trigger] text[i]) by {
                if i > 0 {
                    assert(text[i] == tail[i - 1]);
                }
            }
        }
        lemma_digits_joined(head, tail);
        assert(digits_value(head) == digit) by {
            assert(head.drop_last() =~= Seq::<char>::empty());
            assert(digits_value(head.drop_last()) == 0);
        }
        let place = place_of(unit);
        let room = (place - tail.len()) as nat;
        lemma_place_unit(unit);
        lemma_pow10_adds(tail.len(), room);
        assert(digits_value(tail) * pow10(room) == left) by {
            if unit >= 10 {
                assert(place_of(unit / 10) + 1 == place);
            } else {
                assert(0 * pow10(room) == 0);
            }
        }
        assert((digit * pow10(tail.len()) + digits_value(tail)) * pow10(room) == digit * (pow10(
            tail.len(),
        ) * pow10(room)) + digits_value(tail) * pow10(room)) by (nonlinear_arith);
        assert(rest == digit * unit + left) by {
            vstd::arithmetic::div_mod::lemma_fundamental_div_mod(rest as int, unit as int);
            assert(unit * digit == digit * unit) by (nonlinear_arith);
        }
    }
}

/// A run of digits ends where the digits end.
proof fn lemma_digit_run(text: Seq<char>, from: int, to: int)
    requires
        0 <= from <= to <= text.len(),
        forall|i: int| from <= i < to ==> is_digit(#[trigger] text[i]),
        to == text.len() || !is_digit(text[to]),
    ensures
        digit_run(text, from) == to,
    decreases to - from,
{
    if from < to {
        lemma_digit_run(text, from + 1, to);
    }
}

/// A decimal number as the report writes it is a number to the reader of weights, of the very
/// size that was written.
proof fn lemma_decimal_reads_back(nanos: int)
    ensures
        !names_non_finite(decimal_text(nanos).skip(sign_length(decimal_text(nanos)))),
        is_number(decimal_text(nanos)),
        is_negative(decimal_text(nanos)) == (nanos < 0),
        number_nanos(decimal_text(nanos)) == if nanos < 0 {
            -nanos
        } else {
            nanos
        },
{
    let size = if nanos < 0 {
        -nanos
    } else {
        nanos
    };
    let sign = if nanos < 0 {
        seq!['-']
    } else {
        Seq::<char>::empty()
    };
    let whole_number = (size / 1_000_000_000) as nat;
    let part = (size % 1_000_000_000) as nat;
    let whole = natural_text(whole_number);
    let text = decimal_text(nanos);
    let start = sign.len() as int;
    let point = start + whole.len();
    lemma_natural_text(whole_number);
    reveal_with_fuel(pow10, 10);
    assert(pow10(9) == 1_000_000_000);
    assert forall|i: int| start <= i < point implies is_digit(#[trigger] text[i]) && text[i]
        == whole[i - start] by {
        assert(is_digit(whole[i - start]));
    }
    assert(is_digit(text[start]));
    assert(sign_length(text) == start);
    assert(is_negative(text) == (nanos < 0));
    let body = text.skip(start);
    assert(!names_non_finite(body)) by {
        assert(body[0] == text[start]);
        assert(!crate::numeral::same_letter(body[0], 'i'));
        assert(!crate::numeral::same_letter(body[0], 'n'));
        if spells(body, seq!['i', 'n', 'f']) {
            assert(crate::numeral::same_letter(body[0], seq!['i', 'n', 'f'][0]));
        }
        if spells(body, seq!['i', 'n', 'f', 'i', 'n', 'i', 't', 'y']) {
            assert(crate::numeral::same_letter(
                body[0],
                seq!['i', 'n', 'f', 'i', 'n', 'i', 't', 'y'][0],
            ));
        }
        if spells(body, seq!['n', 'a', 'n']) {
            assert(crate::numeral::same_letter(body[0], seq!['n', 'a', 'n'][0]));
        }
    }
    if part == 0 {
        assert(text.len() == point);
        lemma_digit_run(text, start, point);
        assert(whole_end(text) == point);
        assert(fraction_start(text) == point);
        assert(fraction_end(text) == point);
        assert(!has_exponent(text));
        assert(whole_digits(text) =~= whole);
        assert(fraction_digits(text) =~= Seq::<char>::empty());
        assert(whole_digits(text) + fraction_digits(text) =~= whole);
        assert(exponent_value(text) == 0);
        assert(number_nanos(text) == whole_number * pow10(9));
    } else {
        let places = places_text(part, 100_000_000);
        lemma_places_text(part, 100_000_000);
        assert(text == sign + whole + seq!['.'] + places);
        assert(text[point] == '.');
        assert(!is_digit(text[point]));
        lemma_digit_run(text, start, point);
        assert(whole_end(text) == point);
        assert(fraction_start(text) == point + 1);
        assert forall|i: int| point + 1 <= i < text.len() implies is_digit(#[trigger] text[i]) by {
            assert(text[i] == places[i - point - 1]);
            assert(is_digit(places[i - point - 1]));
        }
        lemma_digit_run(text, point + 1, text.len() as int);
        assert(fraction_end(text) == text.len());
        assert(!has_exponent(text));
        assert(whole_digits(text) =~= whole);
        assert(fraction_digits(text) =~= places);
        assert(exponent_value(text) == 0);
        let room = (9 - places.len()) as nat;
        lemma_digits_joined(whole, places);
        lemma_pow10_adds(places.len(), room);
        assert((whole_number * pow10(places.len()) + digits_value(places)) * pow10(room)
            == whole_number * (pow10(places.len()) * pow10(room)) + digits_value(places) * pow10(
            room,
        )) by (nonlinear_arith);
        assert(number_nanos(text) == whole_number * pow10(9) + part);
    }
}

/// What is written for a weight reads back as that weight.
pub proof fn lemma_written_weight_reads_back(weight: Weight)
    ensures
        weight_of(weight_text(weight)) == Some(weight),
{
    match weight {
        Weight::Finite(nanos) => {
            lemma_decimal_reads_back(nanos as int);
        },
        Weight::NonFinite => {
            let text = non_finite_text();
            assert(sign_length(text) == 0);
            assert(text.skip(0) =~= text);
            assert(spells(text, seq!['n', 'a', 'n']));
        },
    }
}

} // verus!
