//! Defaults for cells that a table leaves empty.
//!
//! A table may lack a value in any cell. A numeric cell without a value counts as one, a text
//! cell without a value as the empty text; no cell makes a table unreadable. A numeric cell
//! whose text is no whole number is a cell without a value.

use vstd::prelude::*;
use crate::whole::{parse_whole, whole_of};

verus! {

/// The value that stands in for a numeric cell without a value.
pub const DEFAULT_NUMBER: i64 = 1;

/// The number a numeric cell counts as: its own value, or `DEFAULT_NUMBER` where it has none.
pub open spec fn number_or_default(cell: Option<i64>) -> i64 {
    match cell {
        Some(value) => value,
        None => DEFAULT_NUMBER,
    }
}

/// The text a text cell counts as: its own, or the empty text where it has none.
pub open spec fn text_or_empty(cell: Option<String>) -> Seq<char> {
    match cell {
        Some(text) => text@,
        None => Seq::<char>::empty(),
    }
}

/// The value of a numeric cell given as text: the whole number it spells, if it holds text and
/// the text spells one.
pub open spec fn number_in(cell: Option<String>) -> Option<i64> {
    match cell {
        Some(text) => whole_of(text@),
        None => None,
    }
}

/// The values of the cells of a numeric column given as text.
pub open spec fn numbers_in(cells: Seq<Option<String>>) -> Seq<Option<i64>> {
    Seq::new(cells.len(), |row: int| number_in(cells[row]))
}

/// The numbers that the cells of a numeric column count as.
pub open spec fn numbers_or_default(cells: Seq<Option<i64>>) -> Seq<i64> {
    Seq::new(cells.len(), |row: int| number_or_default(cells[row]))
}

/// The texts that the cells of a text column count as.
pub open spec fn texts_or_empty(cells: Seq<Option<String>>) -> Seq<Seq<char>> {
    Seq::new(cells.len(), |row: int| text_or_empty(cells[row]))
}

/// Reads a numeric cell, taking `DEFAULT_NUMBER` for a missing value.
pub fn coerce_number(cell: Option<i64>) -> (value: i64)
    ensures
        value == number_or_default(cell),
{
    match cell {
        Some(value) => value,
        None => DEFAULT_NUMBER,
    }
}

/// Reads a text cell, taking the empty text for a missing value.
pub fn coerce_text(cell: Option<String>) -> (text: String)
    ensures
        text@ == text_or_empty(cell),
{
    match cell {
        Some(text) => text,
        None => String::new(),
    }
}

/// Reads a numeric column cell by cell.
pub fn coerce_numbers(cells: &Vec<Option<i64>>) -> (column: Vec<i64>)
    ensures
        column@ == numbers_or_default(cells@),
{
    let mut column: Vec<i64> = Vec::new();
    let mut row: usize = 0;
    while row < cells.len()
        invariant
            row <= cells@.len(),
            column@.len() == row,
            forall|done: int|
                0 <= done < row ==> #[trigger] column@[done] == number_or_default(cells@[done]),
        decreases cells@.len() - row,
    {
        column.push(coerce_number(cells[row]));
        row += 1;
    }
    assert(column@ =~= numbers_or_default(cells@));
    column
}

/// Reads a text column cell by cell.
pub fn coerce_texts(cells: &Vec<Option<String>>) -> (column: Vec<String>)
    ensures
        column@.len() == cells@.len(),
        forall|row: int|
            0 <= row < cells@.len() ==> (#[trigger] column@[row])@ == texts_or_empty(cells@)[row],
{
    let mut column: Vec<String> = Vec::new();
    let mut row: usize = 0;
    while row < cells.len()
        invariant
            row <= cells@.len(),
            column@.len() == row,
            forall|done: int|
                0 <= done < row ==> (#[trigger] column@[done])@ == text_or_empty(cells@[done]),
        decreases cells@.len() - row,
    {
        let text = match &cells[row] {
            Some(text) => text.clone(),
            None => String::new(),
        };
        column.push(text);
        row += 1;
    }
    column
}

/// Reads the value of a numeric cell from its text: a cell whose text is no whole number has
/// no value.
pub fn read_number(cell: &Option<String>) -> (value: Option<i64>)
    ensures
        value == number_in(*cell),
{
    match cell {
        Some(text) => parse_whole(text.as_str()),
        None => None,
    }
}

/// Reads the values of a numeric column from the text of its cells.
pub fn read_numbers(cells: &Vec<Option<String>>) -> (values: Vec<Option<i64>>)
    ensures
        values@ == numbers_in(cells@),
{
    let mut values: Vec<Option<i64>> = Vec::new();
    let mut row: usize = 0;
    while row < cells.len()
        invariant
            row <= cells@.len(),
            values@.len() == row,
            forall|done: int| 0 <= done < row ==> #[trigger] values@[done] == number_in(cells@[done]),
        decreases cells@.len() - row,
    {
        values.push(read_number(&cells[row]));
        row += 1;
    }
    assert(values@ =~= numbers_in(cells@));
    values
}

} // verus!
