use keycat::{Corpus, NgramType, Nstroke, Swap};

fn setup() -> (Corpus, keycat::Layout) {
    let mut corpus = Corpus::with_char_list("abc".chars().map(|c| vec![c]).collect());
    corpus.add_str("abcab");
    let l = corpus.layout_from_str("abc");
    (corpus, l)
}

#[test]
fn stroke_positions_and_chars() {
    let (_, l) = setup();
    assert_eq!(Nstroke::Monostroke(2).to_vec(), vec![2]);
    assert_eq!(Nstroke::Bistroke([1, 0]).to_vec(), vec![1, 0]);
    assert_eq!(Nstroke::Tristroke([2, 0, 1]).to_vec(), vec![2, 0, 1]);
    assert_eq!(l.nstroke_chars(&Nstroke::Tristroke([2, 0, 1])), vec![3, 1, 2]);
    assert_eq!(l.nstroke_chars(&Nstroke::Monostroke(1)), vec![2]);
}

#[test]
fn frequency_reads_skipgrams_only_for_pairs() {
    let (corpus, l) = setup();
    // "abcab": skipgrams a_c, b_a, c_b
    assert_eq!(l.frequency(&corpus, &Nstroke::Bistroke([0, 2]), Some(NgramType::Skipgram)), 1);
    assert_eq!(l.frequency(&corpus, &Nstroke::Bistroke([0, 2]), None), 0);
    assert_eq!(l.frequency(&corpus, &Nstroke::Bistroke([0, 1]), Some(NgramType::Bigram)), 2);
    assert_eq!(l.frequency(&corpus, &Nstroke::Monostroke(0), Some(NgramType::Skipgram)), 2);
    assert_eq!(l.frequency(&corpus, &Nstroke::Tristroke([0, 1, 2]), None), 1);
}

#[test]
fn totals_by_kind() {
    let (corpus, l) = setup();
    let totals = l.totals(&corpus);
    assert_eq!(totals.count(NgramType::Monogram), 5);
    assert_eq!(totals.count(NgramType::Bigram), 4);
    assert_eq!(totals.count(NgramType::Skipgram), 3);
    assert_eq!(totals.count(NgramType::Trigram), 3);
    assert_eq!(l.total_bigram_count(&corpus), 4);
    assert_eq!(l.total_skipgram_count(&corpus), 3);
    assert_eq!(l.total_trigram_count(&corpus), 3);
}

#[test]
fn totals_of_partial_layout() {
    let (corpus, _) = setup();
    let l = corpus.layout_from_str("a");
    assert_eq!(l.total_char_count(&corpus), 2);
    assert_eq!(l.total_bigram_count(&corpus), 0);
    let empty = corpus.layout_from_str("");
    assert_eq!(empty.total_trigram_count(&corpus), 0);
}

#[test]
fn swap_exchanges_and_self_swap_keeps() {
    let (_, mut l) = setup();
    l.swap(&Swap::new(2, 0));
    assert_eq!(l.0, vec![3, 2, 1]);
    l.swap(&Swap::new(1, 1));
    assert_eq!(l.0, vec![3, 2, 1]);
    l.swap(&Swap::new(2, 0));
    assert_eq!(l.0, vec![1, 2, 3]);
}
