//! Weights and scores as exact decimal numbers.
//!
//! Every number is a whole count of billionths, so sums and products are exact and two scores
//! always compare the same way. A weight or a score that is no finite number is kept as such and
//! never takes part in an ordering.

use vstd::prelude::*;

verus! {

/// How many billionths make one.
pub const NANOS_PER_UNIT: i64 = 1_000_000_000;

/// The multiplier of one scoring field.
#[derive(Clone, Copy, Debug, PartialEq, Eq, Structural)]
pub enum Weight {
    /// A finite weight, counted in billionths.
    Finite(i64),
    /// A weight that is no finite number.
    NonFinite,
}

/// The priority computed for one idea: higher is better.
#[derive(Clone, Copy, Debug, PartialEq, Eq, Structural)]
pub enum Score {
    /// A finite score, counted in billionths.
    Finite(i128),
    /// A score that has no place in an ordering.
    Unordered,
}

/// The three weights of one run.
#[derive(Clone, Copy, Debug, PartialEq, Eq, Structural)]
pub struct WeightSet {
    /// The weight of the fun that an idea promises.
    pub fun: Weight,
    /// The weight of the difficulty of an idea.
    pub difficulty: Weight,
    /// The weight of the market that an idea has.
    pub market: Weight,
}

/// The linear combination of the three fields with their weights.
pub open spec fn weighted_sum(
    fun: int,
    difficulty: int,
    market: int,
    fun_weight: int,
    difficulty_weight: int,
    market_weight: int,
) -> int {
    fun * fun_weight + difficulty * difficulty_weight + market * market_weight
}

/// Whether `value` can be held as a finite score.
pub open spec fn fits_score(value: int) -> bool {
    i128::MIN <= value <= i128::MAX
}

impl Weight {
    /// The weight one.
    pub open spec fn unit() -> Weight {
        Weight::Finite(NANOS_PER_UNIT)
    }

    /// The weight one.
    pub fn one() -> (weight: Weight)
        ensures
            weight == Weight::unit(),
    {
        Weight::Finite(NANOS_PER_UNIT)
    }
}

impl Score {
    /// Whether the score can be compared with others.
    pub fn is_ordered(&self) -> (ordered: bool)
        ensures
            ordered == (*self is Finite),
    {
        match self {
            Score::Finite(_) => true,
            Score::Unordered => false,
        }
    }
}

impl WeightSet {
    /// The weights of a run that is told none: every weight is one.
    pub open spec fn units() -> WeightSet {
        WeightSet { fun: Weight::unit(), difficulty: Weight::unit(), market: Weight::unit() }
    }

    /// Whether all three weights are finite.
    pub open spec fn all_finite(self) -> bool {
        self.fun is Finite && self.difficulty is Finite && self.market is Finite
    }

    /// The score of an idea with the given fields under these weights: the weighted sum where
    /// every weight is finite and the sum can be held, and no orderable score otherwise.
    pub open spec fn score_of(self, fun: i64, difficulty: i64, market: i64) -> Score {
        match (self.fun, self.difficulty, self.market) {
            (Weight::Finite(wf), Weight::Finite(wd), Weight::Finite(wm)) => {
                let total = weighted_sum(
                    fun as int,
                    difficulty as int,
                    market as int,
                    wf as int,
                    wd as int,
                    wm as int,
                );
                if fits_score(total) {
                    Score::Finite(total as i128)
                } else {
                    Score::Unordered
                }
            },
            _ => Score::Unordered,
        }
    }

    /// Puts three weights together.
    pub fn new(fun: Weight, difficulty: Weight, market: Weight) -> (weights: WeightSet)
        ensures
            weights == (WeightSet { fun, difficulty, market }),
    {
        WeightSet { fun, difficulty, market }
    }

    /// Scores one idea.
    pub fn score(&self, fun: i64, difficulty: i64, market: i64) -> (score: Score)
        ensures
            score == self.score_of(fun, difficulty, market),
    {
        match (self.fun, self.difficulty, self.market) {
            (Weight::Finite(wf), Weight::Finite(wd), Weight::Finite(wm)) => {
                let a: i128 = term(fun, wf);
                let b: i128 = term(difficulty, wd);
                let c: i128 = term(market, wm);
                match exact_total(a, b, c) {
                    Some(total) => Score::Finite(total),
                    None => Score::Unordered,
                }
            },
            _ => Score::Unordered,
        }
    }
}

impl Default for WeightSet {
    /// Every weight is one.
    fn default() -> (weights: WeightSet)
        ensures
            weights == WeightSet::units(),
    {
        WeightSet { fun: Weight::one(), difficulty: Weight::one(), market: Weight::one() }
    }
}

/// The largest magnitude that the product of a field and a weight can reach.
spec fn term_bound() -> int {
    0x4000_0000_0000_0000_0000_0000_0000_0000
}

proof fn lemma_term_bound(field: int, weight: int)
    by (nonlinear_arith)
    requires
        -0x8000_0000_0000_0000 <= field <= 0x7fff_ffff_ffff_ffff,
        -0x8000_0000_0000_0000 <= weight <= 0x7fff_ffff_ffff_ffff,
    ensures
        -term_bound() < field * weight <= term_bound(),
{
    if field >= 0 && weight >= 0 {
        assert(field * weight <= 0x7fff_ffff_ffff_ffff * 0x7fff_ffff_ffff_ffff);
    } else if field >= 0 && weight < 0 {
        assert(field * (-weight) <= 0x7fff_ffff_ffff_ffff * 0x8000_0000_0000_0000);
    } else if field < 0 && weight >= 0 {
        assert((-field) * weight <= 0x8000_0000_0000_0000 * 0x7fff_ffff_ffff_ffff);
    } else {
        assert((-field) * (-weight) <= 0x8000_0000_0000_0000 * 0x8000_0000_0000_0000);
        assert((-field) * (-weight) > 0);
    }
}

/// One field times its weight.
fn term(field: i64, weight: i64) -> (product: i128)
    ensures
        product == field * weight,
        -term_bound() < product <= term_bound(),
{
    proof {
        lemma_term_bound(field as int, weight as int);
    }
    let wide_field: i128 = field as i128;
    let wide_weight: i128 = weight as i128;
    wide_field * wide_weight
}

/// The sum of three terms, where it can be held.
fn exact_total(a: i128, b: i128, c: i128) -> (total: Option<i128>)
    requires
        -term_bound() < a <= term_bound(),
        -term_bound() < b <= term_bound(),
        -term_bound() < c <= term_bound(),
    ensures
        total == (if fits_score(a + b + c) {
            Some((a + b + c) as i128)
        } else {
            None
        }),
{
    match a.checked_add(b) {
        Some(first) => first.checked_add(c),
        None => {
            // Both terms stand at the bound: only a negative third term brings the sum back.
            match a.checked_add(c) {
                Some(rest) => rest.checked_add(b),
                None => None,
            }
        },
    }
}

/// A finite score is the weighted sum of the three fields, and every weight behind it is finite.
pub proof fn lemma_finite_score_is_weighted_sum(
    weights: WeightSet,
    fun: i64,
    difficulty: i64,
    market: i64,
)
    requires
        weights.score_of(fun, difficulty, market) is Finite,
    ensures
        weights.all_finite(),
        weights.score_of(fun, difficulty, market)->Finite_0 == fun * weights.fun->Finite_0
            + difficulty * weights.difficulty->Finite_0 + market * weights.market->Finite_0,
{
}

/// Under finite weights a score is unordered only where the weighted sum is beyond what a score
/// can hold.
pub proof fn lemma_finite_weights_score(weights: WeightSet, fun: i64, difficulty: i64, market: i64)
    requires
        weights.all_finite(),
    ensures
        weights.score_of(fun, difficulty, market) is Finite <==> fits_score(
            weighted_sum(
                fun as int,
                difficulty as int,
                market as int,
                weights.fun->Finite_0 as int,
                weights.difficulty->Finite_0 as int,
                weights.market->Finite_0 as int,
            ),
        ),
{
}

/// With every weight at one a score is the plain sum of the three fields.
pub proof fn lemma_unit_weights_sum(fun: i64, difficulty: i64, market: i64)
    ensures
        WeightSet::units().score_of(fun, difficulty, market) == Score::Finite(
            ((fun + difficulty + market) * NANOS_PER_UNIT) as i128,
        ),
        fits_score((fun + difficulty + market) * NANOS_PER_UNIT),
{
    assert(weighted_sum(
        fun as int,
        difficulty as int,
        market as int,
        NANOS_PER_UNIT as int,
        NANOS_PER_UNIT as int,
        NANOS_PER_UNIT as int,
    ) == (fun + difficulty + market) * NANOS_PER_UNIT) by (nonlinear_arith);
}

} // verus!
