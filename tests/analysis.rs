use keycat::{
    Analyzer, Corpus, Layout, MetricAmount, MetricData, NgramType, Nstroke, NstrokeData, Swap,
};

fn setup_corpus() -> Corpus {
    Corpus::with_char_list(
        "abcdefghijklmnopqrstuvwxyz,./;"
            .chars()
            .map(|c| vec![c])
            .collect(),
    )
}

fn setup_qwerty(corpus: &Corpus) -> Layout {
    corpus.layout_from_str("qazwsxedcrfvtgbyhnujmik,lo.p;/")
}

#[test]
fn test_diff_freqs() {
    assert_eq!(5, Analyzer::diff_freqs(30, 25));
    assert_eq!(-2, Analyzer::diff_freqs(10, 12));
    assert_eq!(0, Analyzer::diff_freqs(5, 5));
}

#[test]
fn test_calc_stats() {
    let mut corpus = setup_corpus();
    let layout = setup_qwerty(&corpus);

    // weights in tenths: 12.0 and 3.6
    let qa_count = 54321;
    let ws_count = 203;
    let qa_weight: i32 = 120;
    let ws_weight: i32 = 36;
    for _ in 0..qa_count {
        corpus.add_str("qa");
    }
    for _ in 0..ws_count {
        corpus.add_str("ws");
    }

    let metrics = vec![NgramType::Bigram];
    let strokes = vec![
        NstrokeData::new(
            Nstroke::Bistroke([0, 1]),
            vec![MetricAmount::new(0, qa_weight)],
        ), // qa
        NstrokeData::new(
            Nstroke::Bistroke([3, 4]),
            vec![MetricAmount::new(0, ws_weight)],
        ), // ws
    ];
    let data = MetricData::from(metrics, strokes, 30);
    let analyzer = Analyzer::from(data, corpus);
    let stats = analyzer.calc_stats(&layout);

    assert_eq!(
        qa_weight as i64 * qa_count as i64 + ws_weight as i64 * ws_count as i64,
        stats[0]
    );

    let mut diffs = vec![0; stats.len()];

    analyzer.swap_diff(&mut diffs, &layout, &Swap::new(0, 1)); // swap q and a
    assert_eq!(-(qa_weight as i64 * qa_count as i64), diffs[0]);

    for val in &mut diffs {
        *val = 0;
    }

    analyzer.swap_diff(&mut diffs, &layout, &Swap::new(3, 5)); // swap w and x
    assert_eq!(-(ws_weight as i64 * ws_count as i64), diffs[0]);

    for val in &mut diffs {
        *val = 0;
    }

    analyzer.swap_diff(&mut diffs, &layout, &Swap::new(9, 6));
    assert_eq!(
        0, diffs[0],
        "swap not involving relevant keys should result in zero diff, but results in {}",
        diffs[0]
    );
}

/// A catalogue with every stroke shape and metric kind, over a small text.
fn mixed_analyzer() -> (Analyzer, Layout) {
    let mut corpus = setup_corpus();
    corpus.add_str("the quick brown fox jumps over the lazy dog");
    corpus.add_str("pack my box with five dozen liquor jugs");
    let layout = setup_qwerty(&corpus);
    let metrics = vec![
        NgramType::Monogram,
        NgramType::Bigram,
        NgramType::Skipgram,
        NgramType::Trigram,
    ];
    let mut strokes = vec![];
    for p in 0..30 {
        strokes.push(NstrokeData::new(
            Nstroke::Monostroke(p),
            vec![MetricAmount::new(0, (p % 7) as i32 - 3)],
        ));
    }
    for a in 0..30 {
        for b in 0..30 {
            if (a + b) % 4 == 1 {
                strokes.push(NstrokeData::new(
                    Nstroke::Bistroke([a, b]),
                    vec![
                        MetricAmount::new(1, 2),
                        MetricAmount::new(2, -5),
                        MetricAmount::new(1, 1),
                    ],
                ));
            }
        }
    }
    for a in 0..30 {
        strokes.push(NstrokeData::new(
            Nstroke::Tristroke([a, (a + 4) % 30, (a + 11) % 30]),
            vec![MetricAmount::new(3, 7), MetricAmount::new(2, 9)],
        ));
    }
    let data = MetricData::from(metrics, strokes, 30);
    (Analyzer::from(data, corpus), layout)
}

#[test]
fn swap_diff_matches_recomputation() {
    let (analyzer, layout) = mixed_analyzer();
    let before = analyzer.calc_stats(&layout);
    for (a, b) in [(0, 1), (5, 17), (29, 2), (12, 12), (3, 28), (16, 6)] {
        let mut diffs = vec![0; before.len()];
        analyzer.swap_diff(&mut diffs, &layout, &Swap::new(a, b));
        let mut swapped = layout.clone();
        swapped.swap(&Swap::new(a, b));
        let after = analyzer.calc_stats(&swapped);
        for m in 0..before.len() {
            assert_eq!(after[m], before[m] + diffs[m], "metric {} swap {} {}", m, a, b);
        }
    }
}

#[test]
fn swap_diff_accumulates_into_existing_values() {
    let (analyzer, layout) = mixed_analyzer();
    let mut once = vec![0; 4];
    analyzer.swap_diff(&mut once, &layout, &Swap::new(4, 9));
    let mut acc = vec![10, -20, 30, -40];
    analyzer.swap_diff(&mut acc, &layout, &Swap::new(4, 9));
    assert_eq!(acc, vec![10 + once[0], -20 + once[1], 30 + once[2], -40 + once[3]]);
}

#[test]
fn swap_diff_is_symmetric() {
    let (analyzer, layout) = mixed_analyzer();
    for (a, b) in [(0, 1), (7, 21), (29, 3)] {
        let mut ab = vec![0; 4];
        let mut ba = vec![0; 4];
        analyzer.swap_diff(&mut ab, &layout, &Swap::new(a, b));
        analyzer.swap_diff(&mut ba, &layout, &Swap::new(b, a));
        assert_eq!(ab, ba);
    }
}

#[test]
fn swap_of_unused_positions_changes_nothing() {
    let mut corpus = setup_corpus();
    corpus.add_str("the quick brown fox jumps over the lazy dog");
    let layout = setup_qwerty(&corpus);
    let metrics = vec![NgramType::Bigram, NgramType::Skipgram];
    let strokes = vec![NstrokeData::new(
        Nstroke::Bistroke([12, 16]),
        vec![MetricAmount::new(0, 4), MetricAmount::new(1, 4)],
    )];
    let analyzer = Analyzer::from(MetricData::from(metrics, strokes, 30), corpus);
    assert!(analyzer.data.position_strokes[0].is_empty());
    let mut diffs = vec![0; 2];
    analyzer.swap_diff(&mut diffs, &layout, &Swap::new(0, 29));
    assert_eq!(diffs, vec![0, 0]);
}

#[test]
fn swapping_twice_restores_layout_and_stats() {
    let (analyzer, layout) = mixed_analyzer();
    let before = analyzer.calc_stats(&layout);
    let mut l = layout.clone();
    let s = Swap::new(3, 14);
    let mut first = vec![0; 4];
    analyzer.swap_diff(&mut first, &l, &s);
    l.swap(&s);
    let mut second = vec![0; 4];
    analyzer.swap_diff(&mut second, &l, &s);
    l.swap(&s);
    assert_eq!(l.0, layout.0);
    assert_eq!(analyzer.calc_stats(&l), before);
    for m in 0..4 {
        assert_eq!(second[m], -first[m]);
    }
}

#[test]
fn shared_stroke_is_visited_once() {
    let mut corpus = setup_corpus();
    for _ in 0..10 {
        corpus.add_str("qa");
    }
    let layout = setup_qwerty(&corpus);
    let strokes = vec![
        NstrokeData::new(Nstroke::Monostroke(5), vec![MetricAmount::new(0, 1)]),
        NstrokeData::new(Nstroke::Bistroke([0, 1]), vec![MetricAmount::new(0, 3)]),
        NstrokeData::new(Nstroke::Bistroke([1, 1]), vec![MetricAmount::new(0, 1)]),
    ];
    let analyzer = Analyzer::from(MetricData::from(vec![NgramType::Bigram], strokes, 30), corpus);
    // both lists name stroke 1; stroke 2 uses position 1 twice but is listed once
    assert_eq!(analyzer.data.position_strokes[0], vec![1]);
    assert_eq!(analyzer.data.position_strokes[1], vec![1, 2]);
    assert_eq!(analyzer.data.position_strokes[5], vec![0]);
    let mut diffs = vec![0];
    analyzer.swap_diff(&mut diffs, &layout, &Swap::new(0, 1));
    // "qa" -> "aq": 3 * (0 - 10); "aa" -> "qq": 0
    assert_eq!(diffs, vec![-30]);
}

#[test]
fn stats_of_each_metric_kind() {
    let mut corpus = setup_corpus();
    corpus.add_str("abcab");
    let layout = corpus.layout_from_str("abc");
    let metrics = vec![NgramType::Monogram, NgramType::Skipgram, NgramType::Trigram];
    let strokes = vec![
        NstrokeData::new(Nstroke::Monostroke(0), vec![MetricAmount::new(0, 10), MetricAmount::new(1, 10)]),
        NstrokeData::new(Nstroke::Bistroke([0, 2]), vec![MetricAmount::new(1, -3), MetricAmount::new(0, 2)]),
        NstrokeData::new(Nstroke::Tristroke([0, 1, 2]), vec![MetricAmount::new(2, 5), MetricAmount::new(1, 100)]),
    ];
    let analyzer = Analyzer::from(MetricData::from(metrics, strokes, 3), corpus);
    // monogram: 10 * count(a) + 2 * bigram(a, c); skipgram: -3 * skip(a, c); trigram: 5 * abc
    assert_eq!(analyzer.calc_stats(&layout), vec![20, -3, 5]);
}
