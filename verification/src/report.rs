//! The lines of a report: the weights of the run, then one line per ranked idea.
//!
//! Numbers are written in decimal, exactly: a minus sign where the number is negative, the
//! whole part, and where the number is not whole a point and the decimal places down to the
//! last one that is not zero.

use vstd::prelude::*;
use vstd::string::StringExecFns;
use crate::idea::IdeaItem;
use crate::score::{Score, Weight, WeightSet};

verus! {

/// The character that writes a digit.
pub open spec fn digit_char(digit: int) -> char {
    if digit == 0 {
        '0'
    } else if digit == 1 {
        '1'
    } else if digit == 2 {
        '2'
    } else if digit == 3 {
        '3'
    } else if digit == 4 {
        '4'
    } else if digit == 5 {
        '5'
    } else if digit == 6 {
        '6'
    } else if digit == 7 {
        '7'
    } else if digit == 8 {
        '8'
    } else {
        '9'
    }
}

/// A natural number in decimal, without leading zeros.
pub open spec fn natural_text(number: nat) -> Seq<char>
    decreases number,
{
    if number < 10 {
        seq![digit_char(number as int)]
    } else {
        natural_text(number / 10).push(digit_char((number % 10) as int))
    }
}

/// The decimal places of `rest`, the first of them counting `unit`, down to the last one that
/// is not zero.
pub open spec fn places_text(rest: nat, unit: nat) -> Seq<char>
    decreases unit,
{
    if rest == 0 || unit == 0 {
        Seq::<char>::empty()
    } else {
        seq![digit_char((rest / unit) as int)] + places_text(rest % unit, unit / 10)
    }
}

/// A count of billionths as a decimal number.
pub open spec fn decimal_text(nanos: int) -> Seq<char> {
    let size = if nanos < 0 {
        -nanos
    } else {
        nanos
    };
    let sign = if nanos < 0 {
        seq!['-']
    } else {
        Seq::<char>::empty()
    };
    let whole = natural_text((size / 1_000_000_000) as nat);
    let part = (size % 1_000_000_000) as nat;
    if part == 0 {
        sign + whole
    } else {
        sign + whole + seq!['.'] + places_text(part, 100_000_000)
    }
}

/// How a number that is not finite is written.
pub open spec fn non_finite_text() -> Seq<char> {
    seq!['N', 'a', 'N']
}

/// How a weight is written.
pub open spec fn weight_text(weight: Weight) -> Seq<char> {
    match weight {
        Weight::Finite(nanos) => decimal_text(nanos as int),
        Weight::NonFinite => non_finite_text(),
    }
}

/// How a score is written.
pub open spec fn score_text(score: Score) -> Seq<char> {
    match score {
        Score::Finite(nanos) => decimal_text(nanos as int),
        Score::Unordered => non_finite_text(),
    }
}

/// The text that names the weights of a run: a heading, and on a line of its own the three
/// weights.
pub open spec fn settings_text(weights: WeightSet) -> Seq<char> {
    "Settings:\nfun="@ + weight_text(weights.fun) + ", diff="@ + weight_text(weights.difficulty)
        + ", market="@ + weight_text(weights.market)
}

/// The line of one idea: its score, a colon and a blank, and its label.
pub open spec fn idea_text(score: Score, idea: Seq<char>) -> Seq<char> {
    score_text(score) + ": "@ + idea
}

fn digit_text(digit: u8) -> (text: &'static str)
    requires
        digit < 10,
    ensures
        text@ == seq![digit_char(digit as int)],
{
    proof {
        reveal_strlit("0");
        reveal_strlit("1");
        reveal_strlit("2");
        reveal_strlit("3");
        reveal_strlit("4");
        reveal_strlit("5");
        reveal_strlit("6");
        reveal_strlit("7");
        reveal_strlit("8");
        reveal_strlit("9");
    }
    let text = match digit {
        0 => "0",
        1 => "1",
        2 => "2",
        3 => "3",
        4 => "4",
        5 => "5",
        6 => "6",
        7 => "7",
        8 => "8",
        _ => "9",
    };
    assert(text@ =~= seq![digit_char(digit as int)]);
    text
}

fn append_natural(text: &mut String, number: u128)
    ensures
        final(text)@ == old(text)@ + natural_text(number as nat),
    decreases number,
{
    if number >= 10 {
        append_natural(text, number / 10);
    }
    text.append(digit_text((number % 10) as u8));
    assert(text@ =~= old(text)@ + natural_text(number as nat));
}

/// Whether `unit` is what one of the nine decimal places counts, in billionths.
spec fn is_place(unit: u32) -> bool {
    unit == 100_000_000 || unit == 10_000_000 || unit == 1_000_000 || unit == 100_000 || unit
        == 10_000 || unit == 1_000 || unit == 100 || unit == 10 || unit == 1
}

fn append_places(text: &mut String, rest: u32, unit: u32)
    requires
        is_place(unit),
        rest < 10 * unit,
    ensures
        final(text)@ == old(text)@ + places_text(rest as nat, unit as nat),
    decreases unit,
{
    if rest != 0 && unit != 0 {
        text.append(digit_text((rest / unit) as u8));
        if unit >= 10 {
            append_places(text, rest % unit, unit / 10);
        }
    }
    assert(text@ =~= old(text)@ + places_text(rest as nat, unit as nat));
}

fn append_decimal(text: &mut String, nanos: i128)
    ensures
        final(text)@ == old(text)@ + decimal_text(nanos as int),
{
    let size: u128 = if nanos >= 0 {
        nanos as u128
    } else if nanos == i128::MIN {
        0x8000_0000_0000_0000_0000_0000_0000_0000
    } else {
        (-nanos) as u128
    };
    if nanos < 0 {
        proof {
            reveal_strlit("-");
        }
        text.append("-");
    }
    append_natural(text, size / 1_000_000_000);
    let part: u32 = (size % 1_000_000_000) as u32;
    if part != 0 {
        proof {
            reveal_strlit(".");
        }
        text.append(".");
        append_places(text, part, 100_000_000);
    }
    assert(text@ =~= old(text)@ + decimal_text(nanos as int));
}

fn append_non_finite(text: &mut String)
    ensures
        final(text)@ == old(text)@ + non_finite_text(),
{
    proof {
        reveal_strlit("NaN");
    }
    text.append("NaN");
    assert(text@ =~= old(text)@ + non_finite_text());
}

fn append_weight(text: &mut String, weight: Weight)
    ensures
        final(text)@ == old(text)@ + weight_text(weight),
{
    match weight {
        Weight::Finite(nanos) => append_decimal(text, nanos as i128),
        Weight::NonFinite => append_non_finite(text),
    }
}

/// Writes a weight.
pub fn show_weight(weight: Weight) -> (text: String)
    ensures
        text@ == weight_text(weight),
{
    let mut text = String::new();
    append_weight(&mut text, weight);
    assert(text@ =~= weight_text(weight));
    text
}

/// Writes a score.
pub fn show_score(score: Score) -> (text: String)
    ensures
        text@ == score_text(score),
{
    let mut text = String::new();
    match score {
        Score::Finite(nanos) => append_decimal(&mut text, nanos),
        Score::Unordered => append_non_finite(&mut text),
    }
    assert(text@ =~= score_text(score));
    text
}

/// Writes the weights of a run.
pub fn show_settings(weights: &WeightSet) -> (text: String)
    ensures
        text@ == settings_text(*weights),
{
    let mut text = String::new();
    text.append("Settings:\nfun=");
    append_weight(&mut text, weights.fun);
    text.append(", diff=");
    append_weight(&mut text, weights.difficulty);
    text.append(", market=");
    append_weight(&mut text, weights.market);
    assert(text@ =~= settings_text(*weights));
    text
}

/// Writes the line of one idea.
pub fn show_idea(idea: &IdeaItem) -> (text: String)
    ensures
        text@ == idea_text(idea.score, idea.idea@),
{
    let mut text = show_score(idea.score);
    text.append(": ");
    text.append(idea.idea.as_str());
    text
}

/// Writes a report: the weights of the run, then the ideas line by line in the sequence given.
pub fn report(weights: &WeightSet, ideas: &Vec<IdeaItem>) -> (lines: Vec<String>)
    ensures
        lines@.len() == ideas@.len() + 1,
        lines@[0]@ == settings_text(*weights),
        forall|row: int|
            0 <= row < ideas@.len() ==> (#[trigger] lines@[row + 1])@ == idea_text(
                ideas@[row].score,
                ideas@[row].idea@,
            ),
{
    let mut lines: Vec<String> = Vec::new();
    lines.push(show_settings(weights));
    let mut row: usize = 0;
    while row < ideas.len()
        invariant
            row <= ideas@.len(),
            lines@.len() == row + 1,
            lines@[0]@ == settings_text(*weights),
            forall|done: int|
                0 <= done < row ==> (#[trigger] lines@[done + 1])@ == idea_text(
                    ideas@[done].score,
                    ideas@[done].idea@,
                ),
        decreases ideas@.len() - row,
    {
        let ghost written = lines@;
        lines.push(show_idea(&ideas[row]));
        proof {
            assert forall|done: int| 0 <= done < row + 1 implies (#[trigger] lines@[done + 1])@
                == idea_text(ideas@[done].score, ideas@[done].idea@) by {
                if done < row {
                    assert(lines@[done + 1] == written[done + 1]);
                }
            }
        }
        row += 1;
    }
    lines
}

} // verus!
