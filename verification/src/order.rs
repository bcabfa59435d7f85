//! The order in which scored rows are ranked: from the highest score to the lowest, rows of equal
//! score in the sequence in which they were given.

use vstd::prelude::*;
use vstd::set_lib::*;

verus! {

/// Whether row `i` comes ahead of row `j`: it scores higher, or the same and stands earlier.
pub open spec fn ranks_before(scores: Seq<int>, i: int, j: int) -> bool {
    scores[i] > scores[j] || (scores[i] == scores[j] && i < j)
}

/// Whether `order` lists the rows of `scores`, one row number per place, so that every row
/// listed earlier comes ahead of every row listed later.
pub open spec fn is_ranking(scores: Seq<int>, order: Seq<int>) -> bool {
    &&& order.len() == scores.len()
    &&& forall|k: int| 0 <= k < order.len() ==> 0 <= #[trigger] order[k] < scores.len()
    &&& forall|k: int, l: int|
        0 <= k < l < order.len() ==> ranks_before(scores, #[trigger] order[k], #[trigger] order[l])
}

/// The ranking of `scores`: there is exactly one, see `lemma_ranking_exists` and
/// `lemma_ranking_unique`.
pub open spec fn ranking(scores: Seq<int>) -> Seq<int> {
    choose|order: Seq<int>| is_ranking(scores, order)
}

/// The scores of a vector as mathematical integers.
pub open spec fn score_values(scores: Seq<i128>) -> Seq<int> {
    scores.map_values(|score: i128| score as int)
}

/// The row numbers of a vector as mathematical integers.
pub open spec fn row_numbers(order: Seq<usize>) -> Seq<int> {
    order.map_values(|row: usize| row as int)
}

/// A ranking lists every row, and none twice.
pub proof fn lemma_ranking_lists_every_row(scores: Seq<int>, order: Seq<int>, row: int)
    requires
        is_ranking(scores, order),
        0 <= row < scores.len(),
    ensures
        order.contains(row),
        order.no_duplicates(),
{
    let rows = set_int_range(0, scores.len() as int);
    assert(order.no_duplicates()) by {
        assert forall|k: int, l: int| 0 <= k < order.len() && 0 <= l < order.len() && k != l implies order[k]
            != order[l] by {
            if k < l {
                assert(ranks_before(scores, order[k], order[l]));
            } else {
                assert(ranks_before(scores, order[l], order[k]));
            }
        }
    }
    order.unique_seq_to_set();
    lemma_int_range(0, scores.len() as int);
    assert(order.to_set().subset_of(rows)) by {
        assert forall|r: int| order.to_set().contains(r) implies rows.contains(r) by {
            let k = choose|k: int| 0 <= k < order.len() && order[k] == r;
            assert(0 <= order[k] < scores.len());
        }
    }
    lemma_len_subset(order.to_set(), rows);
    lemma_subset_equality(order.to_set(), rows);
    assert(rows.contains(row));
    assert(order.to_set().contains(row));
}

/// Two rankings of the same scores are the same.
pub proof fn lemma_ranking_unique(scores: Seq<int>, first: Seq<int>, second: Seq<int>)
    requires
        is_ranking(scores, first),
        is_ranking(scores, second),
    ensures
        first == second,
{
    assert forall|k: int| 0 <= k < first.len() implies first[k] == second[k] by {
        lemma_same_place(scores, first, second, k);
    }
    assert(first =~= second);
}

proof fn lemma_same_place(scores: Seq<int>, first: Seq<int>, second: Seq<int>, place: int)
    requires
        is_ranking(scores, first),
        is_ranking(scores, second),
        0 <= place < scores.len(),
    ensures
        first[place] == second[place],
    decreases place,
{
    assert forall|k: int| 0 <= k < place implies first[k] == second[k] by {
        lemma_same_place(scores, first, second, k);
    }
    let a = first[place];
    let b = second[place];
    if a != b {
        lemma_ranking_lists_every_row(scores, second, a);
        lemma_ranking_lists_every_row(scores, first, b);
        let at = choose|k: int| 0 <= k < second.len() && second[k] == a;
        let bt = choose|k: int| 0 <= k < first.len() && first[k] == b;
        // Neither row stands before `place` in the other ranking: the rankings agree there.
        if at < place {
            assert(ranks_before(scores, first[at], first[place]));
        }
        if bt < place {
            assert(ranks_before(scores, second[bt], second[place]));
        }
        assert(ranks_before(scores, second[place], second[at]));
        assert(ranks_before(scores, first[place], first[bt]));
    }
}

/// The place at which a row with score `score` enters `order`: behind every row that scores at
/// least as much, ahead of every row that scores less.
proof fn lemma_slot(scores: Seq<int>, order: Seq<int>, score: int, upto: int) -> (slot: int)
    requires
        is_ranking(scores, order),
        0 <= upto <= order.len(),
    ensures
        0 <= slot <= upto,
        forall|k: int| 0 <= k < slot ==> scores[#[trigger] order[k]] >= score,
        forall|k: int| slot <= k < upto ==> scores[#[trigger] order[k]] < score,
    decreases upto,
{
    if upto == 0 {
        0
    } else if scores[order[upto - 1]] >= score {
        assert forall|k: int| 0 <= k < upto implies scores[#[trigger] order[k]] >= score by {
            if k < upto - 1 {
                assert(ranks_before(scores, order[k], order[upto - 1]));
            }
        }
        upto
    } else {
        lemma_slot(scores, order, score, upto - 1)
    }
}

/// Every sequence of scores has a ranking.
pub proof fn lemma_ranking_exists(scores: Seq<int>)
    ensures
        is_ranking(scores, ranking(scores)),
    decreases scores.len(),
{
    if scores.len() == 0 {
        assert(is_ranking(scores, Seq::<int>::empty()));
    } else {
        let earlier = scores.drop_last();
        let row = scores.len() - 1;
        lemma_ranking_exists(earlier);
        let order = ranking(earlier);
        let slot = lemma_slot(earlier, order, scores[row], order.len() as int);
        lemma_ranking_grows(scores, order, slot);
    }
}

/// Entering the last row at its place turns a ranking of the earlier rows into one of all rows.
proof fn lemma_ranking_grows(scores: Seq<int>, order: Seq<int>, slot: int)
    requires
        scores.len() > 0,
        is_ranking(scores.drop_last(), order),
        0 <= slot <= order.len(),
        forall|k: int| 0 <= k < slot ==> scores[#[trigger] order[k]] >= scores.last(),
        forall|k: int| slot <= k < order.len() ==> scores[#[trigger] order[k]] < scores.last(),
    ensures
        is_ranking(scores, order.insert(slot, scores.len() - 1)),
{
    let earlier = scores.drop_last();
    let row = scores.len() - 1;
    let grown = order.insert(slot, row);
    assert forall|k: int, l: int| 0 <= k < l < grown.len() implies ranks_before(
        scores,
        #[trigger] grown[k],
        #[trigger] grown[l],
    ) by {
        let from_k = if k < slot { k } else { k - 1 };
        let from_l = if l < slot { l } else { l - 1 };
        if k != slot && l != slot {
            assert(ranks_before(earlier, order[from_k], order[from_l]));
        } else if k == slot {
            assert(scores[order[from_l]] < scores.last());
        } else {
            assert(scores[order[from_k]] >= scores.last());
        }
    }
}

/// Scores never rise along the ranking.
pub proof fn lemma_ranking_descends(scores: Seq<int>, earlier: int, later: int)
    requires
        0 <= earlier <= later < scores.len(),
    ensures
        scores[ranking(scores)[earlier]] >= scores[ranking(scores)[later]],
{
    lemma_ranking_exists(scores);
    if earlier < later {
        assert(ranks_before(scores, ranking(scores)[earlier], ranking(scores)[later]));
    }
}

/// Rows of equal score keep their sequence: of two such rows the earlier one is ranked at the
/// earlier place.
pub proof fn lemma_ranking_stable(scores: Seq<int>, place: int, other: int)
    requires
        0 <= place < scores.len(),
        0 <= other < scores.len(),
        scores[ranking(scores)[place]] == scores[ranking(scores)[other]],
        ranking(scores)[place] < ranking(scores)[other],
    ensures
        place < other,
{
    lemma_ranking_exists(scores);
    if other < place {
        assert(ranks_before(scores, ranking(scores)[other], ranking(scores)[place]));
    }
}

/// Whether `order` lists the rows from `from` up to `to`, one row number per place, so that
/// every row listed earlier comes ahead of every row listed later.
spec fn ranks_rows(scores: Seq<int>, order: Seq<int>, from: int, to: int) -> bool {
    &&& order.len() == to - from
    &&& forall|k: int| 0 <= k < order.len() ==> from <= #[trigger] order[k] < to
    &&& forall|k: int, l: int|
        0 <= k < l < order.len() ==> ranks_before(scores, #[trigger] order[k], #[trigger] order[l])
}

/// Merges the rankings of two neighbouring runs of rows into the ranking of both.
fn merge_rows(
    scores: &Vec<i128>,
    left: &Vec<usize>,
    right: &Vec<usize>,
    Ghost(from): Ghost<int>,
    Ghost(mid): Ghost<int>,
    Ghost(to): Ghost<int>,
) -> (merged: Vec<usize>)
    requires
        0 <= from <= mid <= to <= scores@.len(),
        ranks_rows(score_values(scores@), row_numbers(left@), from, mid),
        ranks_rows(score_values(scores@), row_numbers(right@), mid, to),
    ensures
        ranks_rows(score_values(scores@), row_numbers(merged@), from, to),
{
    let ghost values = score_values(scores@);
    let ghost first = row_numbers(left@);
    let ghost second = row_numbers(right@);
    let mut merged: Vec<usize> = Vec::new();
    let mut i: usize = 0;
    let mut j: usize = 0;
    while i < left.len() || j < right.len()
        invariant
            0 <= from <= mid <= to <= scores@.len(),
            values == score_values(scores@),
            first == row_numbers(left@),
            second == row_numbers(right@),
            ranks_rows(values, first, from, mid),
            ranks_rows(values, second, mid, to),
            i <= left@.len(),
            j <= right@.len(),
            merged@.len() == i + j,
            forall|k: int| 0 <= k < merged@.len() ==> from <= #[trigger] merged@[k] < to,
            forall|k: int, l: int|
                0 <= k < l < merged@.len() ==> ranks_before(
                    values,
                    #[trigger] merged@[k] as int,
                    #[trigger] merged@[l] as int,
                ),
            forall|k: int, a: int|
                0 <= k < merged@.len() && i <= a < first.len() ==> ranks_before(
                    values,
                    #[trigger] merged@[k] as int,
                    #[trigger] first[a],
                ),
            forall|k: int, b: int|
                0 <= k < merged@.len() && j <= b < second.len() ==> ranks_before(
                    values,
                    #[trigger] merged@[k] as int,
                    #[trigger] second[b],
                ),
        decreases left@.len() - i + right@.len() - j,
    {
        proof {
            if i < left@.len() {
                assert(from <= first[i as int] < mid);
            }
            if j < right@.len() {
                assert(mid <= second[j as int] < to);
            }
        }
        let from_left = if j == right.len() {
            true
        } else if i == left.len() {
            false
        } else {
            scores[left[i]] >= scores[right[j]]
        };
        if from_left {
            let row = left[i];
            proof {
                assert(row == first[i as int]);
                assert forall|a: int| i < a < first.len() implies ranks_before(
                    values,
                    row as int,
                    #[trigger] first[a],
                ) by {
                    assert(ranks_before(values, first[i as int], first[a]));
                }
                assert forall|b: int| j <= b < second.len() implies ranks_before(
                    values,
                    row as int,
                    #[trigger] second[b],
                ) by {
                    assert(mid <= second[b] < to);
                    if j < b {
                        assert(ranks_before(values, second[j as int], second[b]));
                    }
                }
            }
            merged.push(row);
            i += 1;
        } else {
            let row = right[j];
            proof {
                assert(row == second[j as int]);
                assert forall|b: int| j < b < second.len() implies ranks_before(
                    values,
                    row as int,
                    #[trigger] second[b],
                ) by {
                    assert(ranks_before(values, second[j as int], second[b]));
                }
                assert forall|a: int| i <= a < first.len() implies ranks_before(
                    values,
                    row as int,
                    #[trigger] first[a],
                ) by {
                    assert(from <= first[a] < mid);
                    if i < a {
                        assert(ranks_before(values, first[i as int], first[a]));
                    }
                }
            }
            merged.push(row);
            j += 1;
        }
    }
    merged
}

/// Ranks the rows from `from` up to `to` among themselves.
fn order_rows(scores: &Vec<i128>, from: usize, to: usize) -> (order: Vec<usize>)
    requires
        from <= to <= scores@.len(),
    ensures
        ranks_rows(score_values(scores@), row_numbers(order@), from as int, to as int),
    decreases to - from,
{
    if to - from == 0 {
        Vec::new()
    } else if to - from == 1 {
        let mut order: Vec<usize> = Vec::new();
        order.push(from);
        order
    } else {
        let mid: usize = from + (to - from) / 2;
        let left = order_rows(scores, from, mid);
        let right = order_rows(scores, mid, to);
        merge_rows(scores, &left, &right, Ghost(from as int), Ghost(mid as int), Ghost(to as int))
    }
}

/// Ranks rows by their scores: the row numbers from the highest score to the lowest, rows of
/// equal score in the sequence in which they were given.
pub fn stable_order(scores: &Vec<i128>) -> (order: Vec<usize>)
    ensures
        row_numbers(order@) == ranking(score_values(scores@)),
        is_ranking(score_values(scores@), row_numbers(order@)),
{
    let order = order_rows(scores, 0, scores.len());
    proof {
        let values = score_values(scores@);
        lemma_ranking_exists(values);
        lemma_ranking_unique(values, row_numbers(order@), ranking(values));
    }
    order
}

} // verus!
