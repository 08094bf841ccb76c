use big_brain::evaluator::Linear;
use big_brain::measures::{
    chebyshev_distance, isqrt, weighted_measure, weighted_product, weighted_sum, MeasureKind,
    WeightedScore,
};
use big_brain::scorer::{
    all_or_nothing_score, compensated_product_of_scorers_score, product_of_scorers_score,
    sum_of_scorers_score, winning_scorer_score, AllOrNothing, CompensatedProductOfScorers,
    EvaluatingScorer, FixedScorer, IdleScorer, InputScorer, MeasuredScorer, ProductOfScorers,
    Score, Scorer, SumOfScorers, WinningScorer, SCORE_ONE,
};

fn fixed_children(values: &[u64]) -> Vec<Scorer> {
    values.iter().map(|&v| FixedScorer(v).spawn()).collect()
}

fn root_score(scorer: Scorer) -> u64 {
    scorer.evaluate().score.get()
}

#[test]
fn score_get_set_round_trip() {
    let mut s = Score(0);
    s.set(4200);
    assert_eq!(s.get(), 4200);
    s.set_unchecked(25_000);
    assert_eq!(s.get(), 25_000);
}

#[test]
fn idle_scorer_scores_minimal_positive() {
    assert_eq!(root_score(IdleScorer.spawn()), 1);
}

#[test]
fn fixed_scorer_scores_its_value() {
    assert_eq!(root_score(FixedScorer(4000).spawn()), 4000);
}

#[test]
fn input_scorer_keeps_what_was_fed() {
    let scorer = InputScorer(3).spawn().set_input(3, 7777);
    assert_eq!(root_score(scorer), 7777);
}

#[test]
fn all_or_nothing_sums_when_every_child_reaches_threshold() {
    assert_eq!(all_or_nothing_score(4000, &vec![5000, 6000]), 10_000);
    assert_eq!(all_or_nothing_score(4000, &vec![5000, 4500]), 9500);
    assert_eq!(all_or_nothing_score(4000, &vec![3000, 6000]), 0);
    let tree = AllOrNothing::build(4000, fixed_children(&[5000, 4500]));
    assert_eq!(root_score(tree), 9500);
}

#[test]
fn sum_of_scorers_gates_on_the_total() {
    assert_eq!(sum_of_scorers_score(8000, &vec![5000, 2000]), 0);
    assert_eq!(sum_of_scorers_score(8000, &vec![5000, 4000]), 9000);
    assert_eq!(sum_of_scorers_score(8000, &vec![6000, 6000]), 10_000);
    let tree = SumOfScorers::build(8000, fixed_children(&[5000, 4000]));
    assert_eq!(root_score(tree), 9000);
}

#[test]
fn product_of_scorers_multiplies_in_fixed_point() {
    assert_eq!(product_of_scorers_score(0, &vec![5000, 5000]), 2500);
    assert_eq!(product_of_scorers_score(3000, &vec![5000, 5000]), 0);
    let tree = ProductOfScorers::build(0, fixed_children(&[5000, 5000]));
    assert_eq!(root_score(tree), 2500);
}

#[test]
fn compensated_product_pulls_low_products_back_up() {
    // raw product 0.25; makeup (1 - 0.25) * (1 - 1/2) = 0.375; extra
    // 0.375 * 0.25 = 0.0937 (rounded down in fixed point)
    assert_eq!(compensated_product_of_scorers_score(0, &vec![5000, 5000]), 3437);
    assert_eq!(compensated_product_of_scorers_score(3500, &vec![5000, 5000]), 0);
    let tree = CompensatedProductOfScorers::build(0, fixed_children(&[5000, 5000]));
    assert_eq!(root_score(tree), 3437);
}

#[test]
fn winning_scorer_takes_the_maximum_over_threshold() {
    assert_eq!(winning_scorer_score(5000, &vec![3000, 7000, 6000]), 7000);
    assert_eq!(winning_scorer_score(8000, &vec![3000, 7000, 6000]), 0);
    let tree = WinningScorer::build(5000, fixed_children(&[3000, 7000, 6000]));
    assert_eq!(root_score(tree), 7000);
}

#[test]
fn evaluating_scorer_reshapes_through_the_curve() {
    let up = Linear::new(0, 0, SCORE_ONE, SCORE_ONE);
    assert_eq!(
        root_score(EvaluatingScorer::build(FixedScorer(3000).spawn(), up)),
        3000
    );
    let down = Linear::new(0, SCORE_ONE, SCORE_ONE, 0);
    assert_eq!(
        root_score(EvaluatingScorer::build(FixedScorer(3000).spawn(), down)),
        7000
    );
}

#[test]
fn linear_eval_clamps_to_its_domain() {
    let l = Linear::new(2000, 1000, 8000, 7000);
    assert_eq!(l.eval(0), 1000);
    assert_eq!(l.eval(9999), 7000);
    assert_eq!(l.eval(5000), 4000);
}

#[test]
fn weighted_sum_and_chebyshev_match_hand_values() {
    let pairs = vec![
        WeightedScore { score: 10_000, weight: 5000 },
        WeightedScore { score: 5000, weight: 5000 },
    ];
    assert_eq!(weighted_sum(&pairs), 7500);
    assert_eq!(chebyshev_distance(&pairs), 5000);
    assert_eq!(weighted_product(&pairs), 1250);
}

#[test]
fn weights_above_one_amplify_their_scores() {
    // a weight of 2.0 doubles the score; the running sum may leave the unit
    // interval and is clamped only by the measured scorer itself
    let pairs = vec![
        WeightedScore { score: 4000, weight: 20_000 },
        WeightedScore { score: 3000, weight: 10_000 },
    ];
    assert_eq!(weighted_sum(&pairs), 11_000);
    assert_eq!(chebyshev_distance(&pairs), 8000);
    let amplified = MeasuredScorer::sum(
        0,
        vec![
            (FixedScorer(4000).spawn(), 20_000),
            (FixedScorer(3000).spawn(), 10_000),
        ],
    );
    assert_eq!(root_score(amplified), 10_000);
}

#[test]
fn linear_accepts_calibration_points_in_either_order() {
    let forward = Linear::new(2000, 1000, 8000, 7000);
    let reversed = Linear::new(8000, 7000, 2000, 1000);
    assert_eq!(forward, reversed);
    assert_eq!(reversed.eval(5000), 4000);
}

#[test]
fn weighted_measure_is_quadratic_and_guards_zero_weight() {
    let pairs = vec![
        WeightedScore { score: 10_000, weight: 5000 },
        WeightedScore { score: 0, weight: 5000 },
    ];
    // sqrt of the weighted average of squares: sqrt(0.5) in fixed point
    assert_eq!(weighted_measure(&pairs), 7071);
    let unweighted = vec![
        WeightedScore { score: 10_000, weight: 0 },
        WeightedScore { score: 9000, weight: 0 },
    ];
    assert_eq!(weighted_measure(&unweighted), 0);
}

#[test]
fn isqrt_rounds_down() {
    assert_eq!(isqrt(0), 0);
    assert_eq!(isqrt(1), 1);
    assert_eq!(isqrt(48), 6);
    assert_eq!(isqrt(49), 7);
    assert_eq!(isqrt(100_000_000), 10_000);
    assert_eq!(isqrt(u64::MAX), 4_294_967_295);
}

#[test]
fn measured_scorer_applies_measure_and_threshold() {
    let pairs = vec![
        (FixedScorer(10_000).spawn(), 5000),
        (FixedScorer(5000).spawn(), 5000),
    ];
    let tree = MeasuredScorer::sum(0, pairs);
    assert_eq!(root_score(tree), 7500);

    let gated = MeasuredScorer::custom(
        8000,
        MeasureKind::WeightedSum,
        vec![
            (FixedScorer(10_000).spawn(), 5000),
            (FixedScorer(5000).spawn(), 5000),
        ],
    );
    assert_eq!(root_score(gated), 0);

    let cheb = MeasuredScorer::chebyshev(
        0,
        vec![
            (FixedScorer(8000).spawn(), 10_000),
            (FixedScorer(2000).spawn(), 10_000),
        ],
    );
    assert_eq!(root_score(cheb), 8000);

    let quad = MeasuredScorer::measure(
        0,
        vec![
            (FixedScorer(10_000).spawn(), 5000),
            (FixedScorer(0).spawn(), 5000),
        ],
    );
    assert_eq!(root_score(quad), 7071);
}

#[test]
fn every_composite_stays_inside_the_unit_interval() {
    // composites over maximal children, every weight configuration valid
    let trees = vec![
        AllOrNothing::build(0, fixed_children(&[10_000, 10_000, 10_000])),
        SumOfScorers::build(0, fixed_children(&[10_000, 10_000])),
        ProductOfScorers::build(0, fixed_children(&[10_000, 10_000])),
        CompensatedProductOfScorers::build(0, fixed_children(&[9999, 9999])),
        WinningScorer::build(0, fixed_children(&[10_000, 3])),
        MeasuredScorer::sum(
            0,
            vec![
                (FixedScorer(10_000).spawn(), 10_000),
                (FixedScorer(10_000).spawn(), 10_000),
            ],
        ),
        MeasuredScorer::measure(0, vec![(FixedScorer(10_000).spawn(), 0)]),
    ];
    for tree in trees {
        let score = root_score(tree);
        assert!(score <= SCORE_ONE);
    }
}
