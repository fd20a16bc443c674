use keycat::opt::{
    accepts_move, anneal, anneal_step, possible_swaps, rank, AnnealingOptimizer, Objective, Optimizer, Weight,
    WeightsObjective,
};
use keycat::{Analyzer, Corpus, Layout, Swap, MetricAmount, MetricData, NgramType, Nstroke, NstrokeData};

fn alternation_analyzer() -> (Analyzer, Layout) {
    let mut corpus = Corpus::with_char_list(
        "abcdefghijklmnopqrstuvwxyz,./;"
            .chars()
            .map(|c| vec![c])
            .collect(),
    );

    let text = "the quick brown fox jumps over the lazy dog";
    corpus.add_str(text);

    let qwerty = corpus.layout_from_str("qazwsxedcrfvtgbyhnujmik,lo.p;/");

    let metrics = vec![NgramType::Bigram];
    let mut strokes: Vec<NstrokeData> = vec![];
    // bigram alternation
    for a in 0..30 {
        for b in 0..30 {
            if (a < 15) == (b < 15) {
                strokes.push(NstrokeData::new(
                    Nstroke::Bistroke([a, b]),
                    vec![MetricAmount::new(0, 1)],
                ));
            }
        }
    }
    let data = MetricData::from(metrics, strokes, 30);
    (Analyzer::from(data, corpus), qwerty)
}

fn sorted(v: &[usize]) -> Vec<usize> {
    let mut v = v.to_vec();
    v.sort();
    v
}

#[test]
fn test_optimization() {
    let (analyzer, qwerty) = alternation_analyzer();
    // a temperature decrement of 0.01 is a schedule of 100 steps
    let mut optimizer = AnnealingOptimizer::new(8, 100).pin(vec![0]);
    let objective = WeightsObjective::new(vec![Weight {
        metric: 0,
        weight: 1,
    }]);
    let start = objective.score(&analyzer.calc_stats(&qwerty));
    optimizer.setup(qwerty.clone());
    let optimized = optimizer.run(&analyzer, &objective, 7);
    let end = &optimized[0].1;
    assert!(*end < start, "optimized should be lower score than unoptimized");
}

#[test]
fn run_keeps_characters_pins_and_orders_scores() {
    let (analyzer, qwerty) = alternation_analyzer();
    let objective = WeightsObjective::new(vec![Weight { metric: 0, weight: 1 }]);
    let mut optimizer = AnnealingOptimizer::new(5, 50).pin(vec![0, 13, 29]);
    optimizer.setup(qwerty.clone());
    let result = optimizer.run(&analyzer, &objective, 42);
    assert_eq!(result.len(), 5);
    for w in result.windows(2) {
        assert!(w[0].1 <= w[1].1);
    }
    for (l, score) in &result {
        assert_eq!(sorted(&l.0), sorted(&qwerty.0));
        for p in [0, 13, 29] {
            assert_eq!(l.0[p], qwerty.0[p]);
        }
        assert_eq!(*score, objective.score(&analyzer.calc_stats(l)));
    }
}

#[test]
fn run_is_reproducible_from_a_seed() {
    let (analyzer, qwerty) = alternation_analyzer();
    let objective = WeightsObjective::new(vec![Weight { metric: 0, weight: 1 }]);
    let mut first = AnnealingOptimizer::new(3, 40);
    first.setup(qwerty.clone());
    let mut second = AnnealingOptimizer::new(3, 40);
    second.setup(qwerty.clone());
    let a = first.run(&analyzer, &objective, 99);
    let b = second.run(&analyzer, &objective, 99);
    assert_eq!(a.iter().map(|(l, s)| (l.0.clone(), *s)).collect::<Vec<_>>(),
               b.iter().map(|(l, s)| (l.0.clone(), *s)).collect::<Vec<_>>());
}

#[test]
fn run_with_every_position_pinned_changes_nothing() {
    let (analyzer, qwerty) = alternation_analyzer();
    let objective = WeightsObjective::new(vec![Weight { metric: 0, weight: 1 }]);
    let mut optimizer = AnnealingOptimizer::new(2, 10).pin((0..30).collect());
    optimizer.setup(qwerty.clone());
    let result = optimizer.run(&analyzer, &objective, 1);
    let start = objective.score(&analyzer.calc_stats(&qwerty));
    for (l, score) in &result {
        assert_eq!(l.0, qwerty.0);
        assert_eq!(*score, start);
    }
}

#[test]
fn anneal_moves_only_unpinned_positions() {
    let (analyzer, qwerty) = alternation_analyzer();
    let objective = WeightsObjective::new(vec![Weight { metric: 0, weight: 1 }]);
    let swaps = possible_swaps(30, &(2..30).collect());
    let mut l = qwerty.clone();
    let mut rng = <rand::rngs::StdRng as rand::SeedableRng>::seed_from_u64(3);
    anneal(&analyzer, &objective, &mut l, &swaps, 20, &mut rng);
    assert_eq!(&l.0[2..], &qwerty.0[2..]);
    assert_eq!(sorted(&l.0[..2]), sorted(&qwerty.0[..2]));
}

#[test]
fn candidate_swaps_skip_pins() {
    let swaps = possible_swaps(3, &vec![1]);
    let pairs: Vec<(usize, usize)> = swaps.iter().map(|s| (s.a, s.b)).collect();
    assert_eq!(pairs, vec![(0, 0), (0, 2), (2, 0), (2, 2)]);
    assert!(possible_swaps(0, &vec![]).is_empty());
    assert_eq!(possible_swaps(2, &vec![]).len(), 4);
}

#[test]
fn acceptance_rule() {
    assert!(accepts_move(-1, 99, 0));
    assert!(!accepts_move(0, 5, 5));
    assert!(accepts_move(0, 4, 5));
    assert!(!accepts_move(3, 0, 0));
}

#[test]
fn weighted_objective_score() {
    let objective = WeightsObjective::new(vec![
        Weight { metric: 2, weight: 3 },
        Weight { metric: 0, weight: -2 },
        Weight { metric: 2, weight: 1 },
    ]);
    assert_eq!(objective.score(&vec![10, 99, -4]), 3 * -4 - 2 * 10 + -4);
    assert_eq!(WeightsObjective::new(vec![]).score(&vec![5]), 0);
    let big = WeightsObjective::new(vec![Weight { metric: 0, weight: i32::MAX }]);
    assert_eq!(big.score(&vec![i64::MAX]), i32::MAX as i128 * i64::MAX as i128);
}

#[test]
fn rank_orders_by_score() {
    let ranked = rank(vec![
        (Layout(vec![1]), 5),
        (Layout(vec![2]), -3),
        (Layout(vec![3]), 5),
        (Layout(vec![4]), 0),
    ]);
    let scores: Vec<i128> = ranked.iter().map(|(_, s)| *s).collect();
    assert_eq!(scores, vec![-3, 0, 5, 5]);
    assert_eq!(ranked[0].0 .0, vec![2]);
    assert_eq!(ranked[1].0 .0, vec![4]);
    assert!(rank(vec![]).is_empty());
}

#[test]
fn anneal_step_takes_improving_or_lucky_swaps() {
    let (analyzer, qwerty) = alternation_analyzer();
    let objective = WeightsObjective::new(vec![Weight { metric: 0, weight: 1 }]);
    for (a, b) in [(0, 20), (3, 4), (7, 22), (14, 15)] {
        let swap = Swap::new(a, b);
        let mut diffs = vec![0; 1];
        analyzer.swap_diff(&mut diffs, &qwerty, &swap);
        let improves = objective.score(&diffs) < 0;
        let mut swapped = qwerty.clone();
        swapped.swap(&swap);

        // a draw at or above the remaining temperature: only improvements pass
        let mut l = qwerty.clone();
        let mut acc = vec![0; 1];
        anneal_step(&analyzer, &objective, &mut l, &swap, 10, 10, &mut acc);
        assert_eq!(l.0, if improves { swapped.0.clone() } else { qwerty.0.clone() });
        assert_eq!(acc, vec![0]);

        // a draw below it: the swap is taken
        let mut l = qwerty.clone();
        anneal_step(&analyzer, &objective, &mut l, &swap, 3, 10, &mut acc);
        assert_eq!(l.0, swapped.0);
        assert_eq!(acc, vec![0]);
    }
}
