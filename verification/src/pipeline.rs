//! The whole way from the cells of a table to the lines of its report.

use vstd::prelude::*;
use crate::coerce::{
    coerce_numbers, coerce_texts, numbers_in, numbers_or_default, read_numbers, texts_or_empty,
};
use crate::idea::{
    all_ordered, collect_ideas, column_values, columns_aligned, rank_ideas, rows_ordered,
    stored_values, update_scores, RankError,
};
use crate::order::ranking;
use crate::report::{idea_text, report, settings_text};
use crate::score::WeightSet;

verus! {

/// The numbers that the cells of a numeric column count as, the cells given as text: the whole
/// number that a cell spells, and the default for a cell that is empty or spells none.
pub open spec fn column_numbers(cells: Seq<Option<String>>) -> Seq<i64> {
    numbers_or_default(numbers_in(cells))
}

/// Ranks the ideas of a table given by the text in the cells of its four columns, and writes
/// the report: the weights of the run, then one line per idea, from the highest score to the
/// lowest, ideas of equal score in the sequence of the table.
///
/// A cell without a value counts as its column's default, and so does a numeric cell whose text
/// is no whole number. Columns of differing length are refused, and so is a table in which some
/// row gets a score without an order.
pub fn ranked_report(
    ideas: &Vec<Option<String>>,
    fun: &Vec<Option<String>>,
    difficulty: &Vec<Option<String>>,
    market: &Vec<Option<String>>,
    weights: &WeightSet,
) -> (result: Result<Vec<String>, RankError>)
    ensures
        match result {
            Ok(lines) => {
                &&& columns_aligned(ideas@.len(), fun@.len(), difficulty@.len(), market@.len())
                &&& rows_ordered(
                    column_numbers(fun@),
                    column_numbers(difficulty@),
                    column_numbers(market@),
                    *weights,
                )
                &&& lines@.len() == ideas@.len() + 1
                &&& lines@[0]@ == settings_text(*weights)
                &&& forall|place: int|
                    0 <= place < ideas@.len() ==> {
                        let row = ranking(
                            column_values(
                                column_numbers(fun@),
                                column_numbers(difficulty@),
                                column_numbers(market@),
                                *weights,
                            ),
                        )[place];
                        (#[trigger] lines@[place + 1])@ == idea_text(
                            weights.score_of(
                                column_numbers(fun@)[row],
                                column_numbers(difficulty@)[row],
                                column_numbers(market@)[row],
                            ),
                            texts_or_empty(ideas@)[row],
                        )
                    }
            },
            Err(error) => if columns_aligned(
                ideas@.len(),
                fun@.len(),
                difficulty@.len(),
                market@.len(),
            ) {
                &&& error == RankError::ScoreComparison
                &&& !rows_ordered(
                    column_numbers(fun@),
                    column_numbers(difficulty@),
                    column_numbers(market@),
                    *weights,
                )
            } else {
                error == RankError::LengthMismatch
            },
        },
{
    let labels = coerce_texts(ideas);
    let fun_column = coerce_numbers(&read_numbers(fun));
    let difficulty_column = coerce_numbers(&read_numbers(difficulty));
    let market_column = coerce_numbers(&read_numbers(market));
    let mut table = match collect_ideas(
        &labels,
        &fun_column,
        &difficulty_column,
        &market_column,
        weights,
    ) {
        Ok(table) => table,
        Err(error) => {
            return Err(error);
        },
    };
    let ghost collected = table@;
    update_scores(&mut table, weights);
    let ghost totals = column_values(fun_column@, difficulty_column@, market_column@, *weights);
    proof {
        assert forall|row: int| 0 <= row < table@.len() implies (#[trigger] table@[row])@
            == collected[row]@ by {
            assert(collected[row].scored_under(*weights));
        }
        assert(stored_values(table@) =~= totals);
        if all_ordered(table@) {
            assert forall|row: int| 0 <= row < fun_column@.len() implies #[trigger] weights.score_of(
                fun_column@[row],
                difficulty_column@[row],
                market_column@[row],
            ) is Finite by {
                assert(table@[row]@.score is Finite);
            }
        }
        if rows_ordered(fun_column@, difficulty_column@, market_column@, *weights) {
            assert forall|row: int| 0 <= row < table@.len() implies (#[trigger] table@[row]).score is Finite by {
                assert(table@[row]@.score == weights.score_of(
                    fun_column@[row],
                    difficulty_column@[row],
                    market_column@[row],
                ));
            }
        }
    }
    let ranked = match rank_ideas(&table) {
        Ok(ranked) => ranked,
        Err(error) => {
            return Err(error);
        },
    };
    let lines = report(weights, &ranked);
    proof {
        crate::order::lemma_ranking_exists(totals);
        assert forall|place: int| 0 <= place < ideas@.len() implies {
            let row = ranking(totals)[place];
            (#[trigger] lines@[place + 1])@ == idea_text(
                weights.score_of(fun_column@[row], difficulty_column@[row], market_column@[row]),
                texts_or_empty(ideas@)[row],
            )
        } by {
            let row = ranking(totals)[place];
            assert(0 <= row < table@.len());
            assert(ranked@[place]@ == table@[row]@);
            assert(table@[row]@ == collected[row]@);
        }
    }
    Ok(lines)
}

} // verus!
