use idea_chooser::{
    calculate_scores, collect_ideas, parse_weight, rank_ideas, update_scores, IdeaItem, RankError,
    Score, Weight, WeightSet, NANOS_PER_UNIT,
};

fn weights(fun: &str, difficulty: &str, market: &str) -> WeightSet {
    WeightSet::new(
        parse_weight(fun).unwrap(),
        parse_weight(difficulty).unwrap(),
        parse_weight(market).unwrap(),
    )
}

fn labels(names: &[&str]) -> Vec<String> {
    names.iter().map(|name| name.to_string()).collect()
}

fn as_number(score: Score) -> f64 {
    match score {
        Score::Finite(nanos) => nanos as f64 / NANOS_PER_UNIT as f64,
        Score::Unordered => f64::NAN,
    }
}

#[test]
fn two_ideas_are_scored_and_ranked() {
    let ranked = calculate_scores(
        vec![4, 5],
        vec![2, 8],
        vec![3, 1],
        labels(&["Build a CLI", "Write a novel"]),
        &weights("2", "0.5", "1"),
    )
    .unwrap();
    assert_eq!(
        ranked,
        vec![
            ("Write a novel".to_string(), Score::Finite(15_000_000_000)),
            ("Build a CLI".to_string(), Score::Finite(12_000_000_000)),
        ]
    );
    assert_eq!(as_number(ranked[0].1), 15.0);
    assert_eq!(as_number(ranked[1].1), 12.0);
}

#[test]
fn score_is_the_weighted_sum() {
    let set = weights("2", "0.5", "1");
    assert_eq!(set.score(4, 2, 3), Score::Finite(4 * 2_000_000_000 + 2 * 500_000_000 + 3 * 1_000_000_000));
    assert_eq!(set.score(5, 8, 1), Score::Finite(15_000_000_000));
    assert_eq!(set.score(0, 0, 0), Score::Finite(0));
    let mixed = weights("-1.5", "0.25", "3");
    assert_eq!(mixed.score(2, 4, -1), Score::Finite(-3_000_000_000 + 1_000_000_000 - 3_000_000_000));
}

#[test]
fn score_agrees_with_floating_point() {
    let set = weights("0.3", "1.7", "-2.25");
    let rows: [(i64, i64, i64); 4] = [(1, 2, 3), (5, 10, 5), (0, 7, 2), (-3, 4, 9)];
    for (fun, difficulty, market) in rows {
        let expected = fun as f64 * 0.3 + difficulty as f64 * 1.7 + market as f64 * -2.25;
        let got = as_number(set.score(fun, difficulty, market));
        assert!((got - expected).abs() < 1e-9);
    }
}

#[test]
fn default_weights_give_the_plain_sum() {
    let set = WeightSet::default();
    assert_eq!(set, WeightSet::new(Weight::one(), Weight::one(), Weight::one()));
    assert_eq!(set, weights("1.0", "1.0", "1.0"));
    assert_eq!(set.score(4, 2, 3), Score::Finite(9_000_000_000));
    assert_eq!(set.score(-4, 2, 3), Score::Finite(1_000_000_000));
    assert_eq!(as_number(set.score(5, 10, 5)), 20.0);
}

#[test]
fn ranked_scores_never_rise() {
    let ranked = calculate_scores(
        vec![3, 1, 4, 1, 5, 9, 2, 6],
        vec![5, 3, 5, 8, 9, 7, 9, 3],
        vec![2, 3, 8, 4, 6, 2, 6, 4],
        labels(&["a", "b", "c", "d", "e", "f", "g", "h"]),
        &weights("1", "-0.5", "2"),
    )
    .unwrap();
    assert_eq!(ranked.len(), 8);
    for pair in ranked.windows(2) {
        assert!(as_number(pair[0].1) >= as_number(pair[1].1));
    }
    assert_eq!(ranked[0], ("c".to_string(), Score::Finite(17_500_000_000)));
}

#[test]
fn equal_scores_keep_their_sequence() {
    let ranked = calculate_scores(
        vec![1, 2, 1, 3, 2, 1],
        vec![0, 0, 0, 0, 0, 0],
        vec![0, 0, 0, 0, 0, 0],
        labels(&["first one", "first two", "second one", "three", "second two", "third one"]),
        &WeightSet::default(),
    )
    .unwrap();
    let order: Vec<&str> = ranked.iter().map(|(label, _)| label.as_str()).collect();
    assert_eq!(
        order,
        vec!["three", "first two", "second two", "first one", "second one", "third one"]
    );
}

#[test]
fn all_equal_scores_leave_the_table_as_it_is() {
    let names = labels(&["w", "x", "y", "z"]);
    let ranked = calculate_scores(
        vec![2, 2, 2, 2],
        vec![1, 1, 1, 1],
        vec![0, 0, 0, 0],
        names.clone(),
        &WeightSet::default(),
    )
    .unwrap();
    let order: Vec<String> = ranked.into_iter().map(|(label, _)| label).collect();
    assert_eq!(order, names);
}

#[test]
fn columns_of_differing_length_are_refused() {
    let set = WeightSet::default();
    let names = labels(&["a", "b"]);
    assert_eq!(
        calculate_scores(vec![1], vec![1, 2], vec![1, 2], names.clone(), &set),
        Err(RankError::LengthMismatch)
    );
    assert_eq!(
        calculate_scores(vec![1, 2], vec![1, 2, 3], vec![1, 2], names.clone(), &set),
        Err(RankError::LengthMismatch)
    );
    assert_eq!(
        calculate_scores(vec![1, 2], vec![1, 2], vec![], names.clone(), &set),
        Err(RankError::LengthMismatch)
    );
    assert_eq!(
        calculate_scores(vec![1, 2], vec![1, 2], vec![1, 2], labels(&["a"]), &set),
        Err(RankError::LengthMismatch)
    );
    assert!(calculate_scores(vec![1, 2], vec![1, 2], vec![1, 2], names, &set).is_ok());
}

#[test]
fn length_mismatch_comes_before_score_comparison() {
    let set = WeightSet::new(Weight::NonFinite, Weight::one(), Weight::one());
    assert_eq!(
        calculate_scores(vec![1, 2], vec![1], vec![1, 2], labels(&["a", "b"]), &set),
        Err(RankError::LengthMismatch)
    );
}

#[test]
fn empty_table_ranks_to_nothing() {
    assert_eq!(
        calculate_scores(vec![], vec![], vec![], vec![], &WeightSet::default()),
        Ok(vec![])
    );
    let set = WeightSet::new(Weight::NonFinite, Weight::NonFinite, Weight::NonFinite);
    assert_eq!(calculate_scores(vec![], vec![], vec![], vec![], &set), Ok(vec![]));
}

#[test]
fn non_finite_weight_is_refused() {
    for set in [
        WeightSet::new(Weight::NonFinite, Weight::one(), Weight::one()),
        WeightSet::new(Weight::one(), Weight::NonFinite, Weight::one()),
        WeightSet::new(Weight::one(), Weight::one(), Weight::NonFinite),
        weights("nan", "1", "1"),
        weights("1", "-inf", "1"),
    ] {
        assert_eq!(set.score(1, 2, 3), Score::Unordered);
        assert_eq!(
            calculate_scores(vec![1, 2], vec![3, 4], vec![5, 6], labels(&["a", "b"]), &set),
            Err(RankError::ScoreComparison)
        );
        assert_eq!(
            calculate_scores(vec![1], vec![3], vec![5], labels(&["a"]), &set),
            Err(RankError::ScoreComparison)
        );
    }
}

#[test]
fn score_beyond_the_range_is_refused() {
    let largest = WeightSet::new(
        Weight::Finite(i64::MIN),
        Weight::Finite(i64::MIN),
        Weight::Finite(i64::MIN),
    );
    assert_eq!(largest.score(i64::MIN, i64::MIN, i64::MIN), Score::Unordered);
    assert_eq!(largest.score(i64::MIN, i64::MIN, 0), Score::Unordered);
    assert_eq!(largest.score(i64::MIN, 0, 0), Score::Finite(1i128 << 126));
    assert_eq!(largest.score(i64::MIN, i64::MIN, 1), Score::Finite(i128::MAX - i64::MAX as i128));
    assert_eq!(largest.score(i64::MIN, 1, i64::MIN), Score::Finite(i128::MAX - i64::MAX as i128));
    assert_eq!(largest.score(1, i64::MIN, i64::MIN), Score::Finite(i128::MAX - i64::MAX as i128));
    assert_eq!(largest.score(i64::MAX, i64::MAX, i64::MAX), Score::Unordered);
    assert_eq!(
        largest.score(i64::MAX, i64::MAX, 0),
        Score::Finite(i128::MIN + (1i128 << 64))
    );
    assert_eq!(
        calculate_scores(
            vec![1, i64::MIN],
            vec![1, i64::MIN],
            vec![1, i64::MIN],
            labels(&["small", "huge"]),
            &largest
        ),
        Err(RankError::ScoreComparison)
    );
}

#[test]
fn negative_weights_turn_the_ranking() {
    let up = calculate_scores(
        vec![1, 2, 3],
        vec![0, 0, 0],
        vec![0, 0, 0],
        labels(&["low", "mid", "high"]),
        &weights("1", "1", "1"),
    )
    .unwrap();
    let down = calculate_scores(
        vec![1, 2, 3],
        vec![0, 0, 0],
        vec![0, 0, 0],
        labels(&["low", "mid", "high"]),
        &weights("-1.0", "1", "1"),
    )
    .unwrap();
    assert_eq!(up[0].0, "high");
    assert_eq!(down[0].0, "low");
    assert_eq!(down[0].1, Score::Finite(-1_000_000_000));
    assert_eq!(down[2].1, Score::Finite(-3_000_000_000));
}

#[test]
fn collected_ideas_carry_their_scores() {
    let set = weights("2", "0.5", "1");
    let table = collect_ideas(
        &labels(&["Build a CLI", "Write a novel"]),
        &vec![4, 5],
        &vec![2, 8],
        &vec![3, 1],
        &set,
    )
    .unwrap();
    assert_eq!(
        table,
        vec![
            IdeaItem {
                idea: "Build a CLI".to_string(),
                fun: 4,
                difficulty: 2,
                market: 3,
                score: Score::Finite(12_000_000_000),
            },
            IdeaItem {
                idea: "Write a novel".to_string(),
                fun: 5,
                difficulty: 8,
                market: 1,
                score: Score::Finite(15_000_000_000),
            },
        ]
    );
    assert_eq!(table[0], IdeaItem::new("Build a CLI".to_string(), 4, 2, 3, &set));
    assert_eq!(
        collect_ideas(&labels(&["a"]), &vec![1, 2], &vec![1], &vec![1], &set),
        Err(RankError::LengthMismatch)
    );
}

#[test]
fn update_scores_computes_every_score_anew() {
    let mut table = vec![
        IdeaItem {
            idea: "stale".to_string(),
            fun: 4,
            difficulty: 2,
            market: 3,
            score: Score::Finite(77),
        },
        IdeaItem {
            idea: "unset".to_string(),
            fun: 5,
            difficulty: 8,
            market: 1,
            score: Score::Unordered,
        },
    ];
    update_scores(&mut table, &weights("2", "0.5", "1"));
    assert_eq!(table[0].score, Score::Finite(12_000_000_000));
    assert_eq!(table[1].score, Score::Finite(15_000_000_000));
    assert_eq!(table[0].idea, "stale");
    assert_eq!((table[1].fun, table[1].difficulty, table[1].market), (5, 8, 1));
    update_scores(&mut table, &weights("1", "1", "nan"));
    assert_eq!(table[0].score, Score::Unordered);
    assert_eq!(table[1].score, Score::Unordered);
    let mut none: Vec<IdeaItem> = Vec::new();
    update_scores(&mut none, &WeightSet::default());
    assert!(none.is_empty());
}

#[test]
fn ideas_are_ranked_by_their_stored_scores() {
    let item = |idea: &str, score: i128| IdeaItem {
        idea: idea.to_string(),
        fun: 0,
        difficulty: 0,
        market: 0,
        score: Score::Finite(score),
    };
    let table = vec![item("a", 5), item("b", 9), item("c", 5), item("d", -2), item("e", 9)];
    let ranked = rank_ideas(&table).unwrap();
    let order: Vec<&str> = ranked.iter().map(|idea| idea.idea.as_str()).collect();
    assert_eq!(order, vec!["b", "e", "a", "c", "d"]);
    assert_eq!(ranked[3], table[2]);
    assert_eq!(table.len(), 5);
}

#[test]
fn idea_without_an_order_stops_the_ranking() {
    let mut table = vec![
        IdeaItem::new("a".to_string(), 1, 1, 1, &WeightSet::default()),
        IdeaItem::new("b".to_string(), 2, 2, 2, &WeightSet::default()),
    ];
    assert!(rank_ideas(&table).is_ok());
    table[1].score = Score::Unordered;
    assert_eq!(rank_ideas(&table), Err(RankError::ScoreComparison));
    assert_eq!(rank_ideas(&Vec::new()), Ok(Vec::new()));
}

#[test]
fn orderable_scores_are_told_apart() {
    assert!(Score::Finite(0).is_ordered());
    assert!(Score::Finite(-1).is_ordered());
    assert!(!Score::Unordered.is_ordered());
}

#[test]
fn errors_say_what_went_wrong() {
    assert_eq!(RankError::LengthMismatch.describe(), "the columns of the table differ in length");
    assert_eq!(
        RankError::ScoreComparison.describe(),
        "a score is no finite number and cannot be ranked"
    );
}
