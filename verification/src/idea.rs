//! Ideas with their fields and scores, and the ranking of a table of ideas.

use vstd::prelude::*;
use crate::order::{is_ranking, ranking, score_values, stable_order};
use crate::score::{Score, WeightSet};

verus! {

/// One candidate idea: its label, its three fields and the score last computed for it.
#[derive(Clone, Debug, PartialEq, Eq)]
pub struct IdeaItem {
    /// The label of the idea.
    pub idea: String,
    /// How much fun the idea promises.
    pub fun: i64,
    /// How difficult the idea is.
    pub difficulty: i64,
    /// What market the idea has.
    pub market: i64,
    /// The score last computed from the three fields.
    pub score: Score,
}

/// What an idea holds, as mathematical values.
pub struct IdeaView {
    /// The label of the idea.
    pub idea: Seq<char>,
    /// How much fun the idea promises.
    pub fun: int,
    /// How difficult the idea is.
    pub difficulty: int,
    /// What market the idea has.
    pub market: int,
    /// The score last computed from the three fields.
    pub score: Score,
}

impl View for IdeaItem {
    type V = IdeaView;

    open spec fn view(&self) -> IdeaView {
        IdeaView {
            idea: self.idea@,
            fun: self.fun as int,
            difficulty: self.difficulty as int,
            market: self.market as int,
            score: self.score,
        }
    }
}

/// Why a table of ideas could not be ranked.
#[derive(Clone, Copy, Debug, PartialEq, Eq, Structural)]
pub enum RankError {
    /// The columns of the table differ in length.
    LengthMismatch,
    /// Some score has no place in an ordering.
    ScoreComparison,
}

impl RankError {
    /// What the error says to the one who runs the ranking.
    pub open spec fn text(self) -> Seq<char> {
        match self {
            RankError::LengthMismatch => "the columns of the table differ in length"@,
            RankError::ScoreComparison => "a score is no finite number and cannot be ranked"@,
        }
    }

    /// Says what went wrong.
    pub fn describe(&self) -> (text: String)
        ensures
            text@ == self.text(),
    {
        match self {
            RankError::LengthMismatch => "the columns of the table differ in length".to_owned(),
            RankError::ScoreComparison => {
                "a score is no finite number and cannot be ranked".to_owned()
            },
        }
    }
}

/// Whether four columns have one length.
pub open spec fn columns_aligned(ideas: nat, fun: nat, difficulty: nat, market: nat) -> bool {
    ideas == fun && fun == difficulty && difficulty == market
}

/// The idea that row `row` of four aligned columns describes, scored under `weights`.
pub open spec fn idea_at(
    ideas: Seq<String>,
    fun: Seq<i64>,
    difficulty: Seq<i64>,
    market: Seq<i64>,
    weights: WeightSet,
    row: int,
) -> IdeaView {
    IdeaView {
        idea: ideas[row]@,
        fun: fun[row] as int,
        difficulty: difficulty[row] as int,
        market: market[row] as int,
        score: weights.score_of(fun[row], difficulty[row], market[row]),
    }
}

/// The number behind a score: its billionths, and zero for a score without an order.
pub open spec fn score_value(score: Score) -> int {
    match score {
        Score::Finite(nanos) => nanos as int,
        Score::Unordered => 0,
    }
}

/// The numbers behind the scores stored in a table of ideas.
pub open spec fn stored_values(ideas: Seq<IdeaItem>) -> Seq<int> {
    Seq::new(ideas.len(), |row: int| score_value(ideas[row].score))
}

/// Whether every idea of the table stores a score that can be ordered.
pub open spec fn all_ordered(ideas: Seq<IdeaItem>) -> bool {
    forall|row: int| 0 <= row < ideas.len() ==> (#[trigger] ideas[row]).score is Finite
}

impl IdeaItem {
    /// Whether the score stored in the idea is the one that `weights` give to its fields.
    pub open spec fn scored_under(self, weights: WeightSet) -> bool {
        self.score == weights.score_of(self.fun, self.difficulty, self.market)
    }

    /// An idea with the score that `weights` give it.
    pub fn new(idea: String, fun: i64, difficulty: i64, market: i64, weights: &WeightSet) -> (item:
        IdeaItem)
        ensures
            item@ == (IdeaView {
                idea: idea@,
                fun: fun as int,
                difficulty: difficulty as int,
                market: market as int,
                score: weights.score_of(fun, difficulty, market),
            }),
            item.scored_under(*weights),
    {
        let score = weights.score(fun, difficulty, market);
        IdeaItem { idea, fun, difficulty, market, score }
    }
}

/// Builds the table of ideas from its four columns, scoring each row under `weights`.
///
/// Columns of differing length are refused.
pub fn collect_ideas(
    ideas: &Vec<String>,
    fun: &Vec<i64>,
    difficulty: &Vec<i64>,
    market: &Vec<i64>,
    weights: &WeightSet,
) -> (result: Result<Vec<IdeaItem>, RankError>)
    ensures
        match result {
            Ok(table) => {
                &&& columns_aligned(ideas@.len(), fun@.len(), difficulty@.len(), market@.len())
                &&& table@.len() == ideas@.len()
                &&& forall|row: int|
                    0 <= row < table@.len() ==> (#[trigger] table@[row])@ == idea_at(
                        ideas@,
                        fun@,
                        difficulty@,
                        market@,
                        *weights,
                        row,
                    )
                &&& forall|row: int|
                    0 <= row < table@.len() ==> (#[trigger] table@[row]).scored_under(*weights)
            },
            Err(error) => {
                &&& error == RankError::LengthMismatch
                &&& !columns_aligned(ideas@.len(), fun@.len(), difficulty@.len(), market@.len())
            },
        },
{
    let count = ideas.len();
    if fun.len() != count || difficulty.len() != count || market.len() != count {
        return Err(RankError::LengthMismatch);
    }
    let mut table: Vec<IdeaItem> = Vec::new();
    let mut row: usize = 0;
    while row < count
        invariant
            row <= count,
            count == ideas@.len(),
            count == fun@.len(),
            count == difficulty@.len(),
            count == market@.len(),
            table@.len() == row,
            forall|done: int|
                0 <= done < row ==> (#[trigger] table@[done])@ == idea_at(
                    ideas@,
                    fun@,
                    difficulty@,
                    market@,
                    *weights,
                    done,
                ),
            forall|done: int| 0 <= done < row ==> (#[trigger] table@[done]).scored_under(*weights),
        decreases count - row,
    {
        let item = IdeaItem::new(ideas[row].clone(), fun[row], difficulty[row], market[row], weights);
        table.push(item);
        row += 1;
    }
    Ok(table)
}

/// Computes the score of every idea anew from its fields and `weights`; nothing else changes.
pub fn update_scores(ideas: &mut Vec<IdeaItem>, weights: &WeightSet)
    ensures
        final(ideas)@.len() == old(ideas)@.len(),
        forall|row: int|
            0 <= row < old(ideas)@.len() ==> (#[trigger] final(ideas)@[row])@ == (IdeaView {
                score: weights.score_of(
                    old(ideas)@[row].fun,
                    old(ideas)@[row].difficulty,
                    old(ideas)@[row].market,
                ),
                ..old(ideas)@[row]@
            }),
        forall|row: int|
            0 <= row < old(ideas)@.len() ==> (#[trigger] final(ideas)@[row]).scored_under(*weights),
{
    let count = ideas.len();
    let mut row: usize = 0;
    while row < count
        invariant
            row <= count,
            count == old(ideas)@.len(),
            ideas@.len() == count,
            forall|done: int|
                0 <= done < row ==> (#[trigger] ideas@[done])@ == (IdeaView {
                    score: weights.score_of(
                        old(ideas)@[done].fun,
                        old(ideas)@[done].difficulty,
                        old(ideas)@[done].market,
                    ),
                    ..old(ideas)@[done]@
                }),
            forall|ahead: int| row <= ahead < count ==> ideas@[ahead] == old(ideas)@[ahead],
        decreases count - row,
    {
        let score = weights.score(ideas[row].fun, ideas[row].difficulty, ideas[row].market);
        ideas[row].score = score;
        row += 1;
    }
}

/// Ranks a table of ideas by the scores stored in it, from the highest to the lowest, ideas of
/// equal score in the sequence of the table. The ideas themselves stay as they are, and so do
/// their scores.
///
/// A table that holds a score without an order is refused.
pub fn rank_ideas(ideas: &Vec<IdeaItem>) -> (result: Result<Vec<IdeaItem>, RankError>)
    ensures
        match result {
            Ok(ranked) => {
                &&& all_ordered(ideas@)
                &&& ranked@.len() == ideas@.len()
                &&& forall|place: int|
                    0 <= place < ranked@.len() ==> (#[trigger] ranked@[place])@
                        == ideas@[ranking(stored_values(ideas@))[place]]@
                &&& forall|place: int, later: int|
                    0 <= place <= later < ranked@.len() ==> score_value(
                        (#[trigger] ranked@[place]).score,
                    ) >= score_value((#[trigger] ranked@[later]).score)
            },
            Err(error) => {
                &&& error == RankError::ScoreComparison
                &&& !all_ordered(ideas@)
            },
        },
{
    let count = ideas.len();
    let mut values: Vec<i128> = Vec::new();
    let mut row: usize = 0;
    while row < count
        invariant
            row <= count,
            count == ideas@.len(),
            values@.len() == row,
            forall|done: int|
                0 <= done < row ==> (#[trigger] ideas@[done]).score == Score::Finite(values@[done]),
        decreases count - row,
    {
        match ideas[row].score {
            Score::Finite(nanos) => {
                values.push(nanos);
            },
            Score::Unordered => {
                return Err(RankError::ScoreComparison);
            },
        }
        row += 1;
    }
    let order = stable_order(&values);
    let ghost listed = ranking(stored_values(ideas@));
    proof {
        assert(score_values(values@) =~= stored_values(ideas@));
    }
    let mut ranked: Vec<IdeaItem> = Vec::new();
    let mut place: usize = 0;
    while place < count
        invariant
            place <= count,
            count == ideas@.len(),
            order@.len() == count,
            is_ranking(stored_values(ideas@), listed),
            forall|at: int| 0 <= at < count ==> listed[at] == #[trigger] order@[at],
            ranked@.len() == place,
            forall|done: int|
                0 <= done < place ==> (#[trigger] ranked@[done])@ == ideas@[listed[done]]@,
        decreases count - place,
    {
        assert(0 <= listed[place as int] < count);
        let item = &ideas[order[place]];
        ranked.push(
            IdeaItem {
                idea: item.idea.clone(),
                fun: item.fun,
                difficulty: item.difficulty,
                market: item.market,
                score: item.score,
            },
        );
        place += 1;
    }
    proof {
        let stored = stored_values(ideas@);
        assert forall|place: int, later: int| 0 <= place <= later < ranked@.len() implies score_value(
            (#[trigger] ranked@[place]).score,
        ) >= score_value((#[trigger] ranked@[later]).score) by {
            assert(ranked@[place]@ == ideas@[listed[place]]@);
            assert(ranked@[later]@ == ideas@[listed[later]]@);
            assert(0 <= listed[place] < count && 0 <= listed[later] < count);
            assert(stored[listed[place]] == score_value(ideas@[listed[place]].score));
            assert(stored[listed[later]] == score_value(ideas@[listed[later]].score));
            if place < later {
                assert(crate::order::ranks_before(stored, listed[place], listed[later]));
            }
        }
    }
    Ok(ranked)
}

/// The numbers behind the scores that `weights` give to the rows of three aligned columns.
pub open spec fn column_values(
    fun: Seq<i64>,
    difficulty: Seq<i64>,
    market: Seq<i64>,
    weights: WeightSet,
) -> Seq<int> {
    Seq::new(
        fun.len(),
        |row: int| score_value(weights.score_of(fun[row], difficulty[row], market[row])),
    )
}

/// Whether `weights` give every row of three aligned columns a score that can be ordered.
pub open spec fn rows_ordered(
    fun: Seq<i64>,
    difficulty: Seq<i64>,
    market: Seq<i64>,
    weights: WeightSet,
) -> bool {
    forall|row: int|
        0 <= row < fun.len() ==> #[trigger] weights.score_of(
            fun[row],
            difficulty[row],
            market[row],
        ) is Finite
}

/// Scores every row of a table given by its four columns and ranks the rows: each label with its
/// score, from the highest score to the lowest, rows of equal score in the sequence of the table.
///
/// Columns of differing length are refused, and so is a table in which some row gets a score
/// without an order.
pub fn calculate_scores(
    fun: Vec<i64>,
    difficulty: Vec<i64>,
    market: Vec<i64>,
    ideas: Vec<String>,
    weights: &WeightSet,
) -> (result: Result<Vec<(String, Score)>, RankError>)
    ensures
        match result {
            Ok(ranked) => {
                &&& columns_aligned(ideas@.len(), fun@.len(), difficulty@.len(), market@.len())
                &&& rows_ordered(fun@, difficulty@, market@, *weights)
                &&& ranked@.len() == ideas@.len()
                &&& forall|place: int|
                    0 <= place < ranked@.len() ==> {
                        let row = ranking(column_values(fun@, difficulty@, market@, *weights))[place];
                        &&& (#[trigger] ranked@[place]).0@ == ideas@[row]@
                        &&& ranked@[place].1 == weights.score_of(
                            fun@[row],
                            difficulty@[row],
                            market@[row],
                        )
                    }
                &&& forall|place: int, later: int|
                    0 <= place <= later < ranked@.len() ==> score_value((#[trigger] ranked@[place]).1)
                        >= score_value((#[trigger] ranked@[later]).1)
            },
            Err(error) => if columns_aligned(
                ideas@.len(),
                fun@.len(),
                difficulty@.len(),
                market@.len(),
            ) {
                &&& error == RankError::ScoreComparison
                &&& !rows_ordered(fun@, difficulty@, market@, *weights)
            } else {
                error == RankError::LengthMismatch
            },
        },
{
    let table = match collect_ideas(&ideas, &fun, &difficulty, &market, weights) {
        Ok(table) => table,
        Err(error) => {
            return Err(error);
        },
    };
    let ghost totals = column_values(fun@, difficulty@, market@, *weights);
    proof {
        assert(stored_values(table@) =~= totals);
        if all_ordered(table@) {
            assert forall|row: int| 0 <= row < fun@.len() implies #[trigger] weights.score_of(
                fun@[row],
                difficulty@[row],
                market@[row],
            ) is Finite by {
                assert(table@[row]@.score is Finite);
            }
        }
        if rows_ordered(fun@, difficulty@, market@, *weights) {
            assert forall|row: int| 0 <= row < table@.len() implies (#[trigger] table@[row]).score is Finite by {
                assert(table@[row]@.score == weights.score_of(
                    fun@[row],
                    difficulty@[row],
                    market@[row],
                ));
            }
        }
    }
    let sorted = match rank_ideas(&table) {
        Ok(sorted) => sorted,
        Err(error) => {
            return Err(error);
        },
    };
    let count = sorted.len();
    let ghost listed = ranking(totals);
    proof {
        crate::order::lemma_ranking_exists(totals);
    }
    let mut ranked: Vec<(String, Score)> = Vec::new();
    let mut place: usize = 0;
    while place < count
        invariant
            place <= count,
            count == sorted@.len(),
            ranked@.len() == place,
            forall|done: int|
                0 <= done < place ==> (#[trigger] ranked@[done]).0@ == sorted@[done].idea@
                    && ranked@[done].1 == sorted@[done].score,
        decreases count - place,
    {
        ranked.push((sorted[place].idea.clone(), sorted[place].score));
        place += 1;
    }
    proof {
        assert forall|place: int| 0 <= place < ranked@.len() implies {
            let row = listed[place];
            &&& (#[trigger] ranked@[place]).0@ == ideas@[row]@
            &&& ranked@[place].1 == weights.score_of(fun@[row], difficulty@[row], market@[row])
        } by {
            let row = listed[place];
            assert(0 <= row < count);
            assert(sorted@[place]@ == table@[row]@);
        }
        assert forall|place: int, later: int| 0 <= place <= later < ranked@.len() implies score_value(
            (#[trigger] ranked@[place]).1,
        ) >= score_value((#[trigger] ranked@[later]).1) by {
            assert(ranked@[place].1 == sorted@[place].score);
            assert(ranked@[later].1 == sorted@[later].score);
        }
    }
    Ok(ranked)
}

} // verus!
