use keycat::{Corpus, Nstroke, Swap};

fn lowercase_corpus(alphabet: &str) -> Corpus {
    Corpus::with_char_list(alphabet.chars().map(|c| vec![c]).collect())
}

#[test]
fn test_corpus() {
    let mut corpus = lowercase_corpus("abcdefghijklmnopqrstuvwxyz");
    corpus.add_str("the quick brown fox jumps over the lazy dog");

    assert_eq!(corpus.trigrams[corpus.corpus_trigram(&['t', 'h', 'e'])], 2);
    assert_eq!(corpus.trigrams[corpus.corpus_trigram(&['q', 'u', 'i'])], 1);
    assert_eq!(corpus.trigrams[corpus.corpus_trigram(&['z', 'y', ' '])], 0);
    assert_eq!(corpus.trigrams[corpus.corpus_trigram(&['a', 'b', 'c'])], 0);
    assert_eq!(corpus.bigrams[corpus.corpus_bigram(&['t', 'h'])], 2);
    assert_eq!(corpus.bigrams[corpus.corpus_bigram(&['v', 'e'])], 1);
    assert_eq!(corpus.skipgrams[corpus.corpus_bigram(&['v', 'e'])], 0);
    assert_eq!(corpus.skipgrams[corpus.corpus_bigram(&['f', 'x'])], 1);
    assert_eq!(corpus.skipgrams[corpus.corpus_bigram(&['t', 'e'])], 2);
    assert_eq!(
        corpus.skipgrams[corpus.corpus_bigram(&['e', 'l'])],
        1,
        "skipgrams should be counted across invalid characters"
    );
}

#[test]
fn test_layout() {
    let mut corpus = lowercase_corpus("abcdefghijklmnopqrstuvwxyz,./;");

    let text = "the quick brown fox jumps over the lazy dog";
    corpus.add_str(text);

    let mut qwerty = corpus.layout_from_str("qazwsxedcrfvtgbyhnujmik,lo.p;/");

    assert_eq!(
        1,
        qwerty.frequency(&corpus, &Nstroke::Monostroke(0), None),
        "q occurs once"
    );
    assert_eq!(
        3,
        qwerty.frequency(&corpus, &Nstroke::Monostroke(6), None),
        "e occurs 3 times"
    );

    assert_eq!(
        2,
        qwerty.frequency(&corpus, &Nstroke::Bistroke([12, 16]), None),
        "th occurs twice"
    );

    assert_eq!(
        2,
        qwerty.frequency(&corpus, &Nstroke::Tristroke([12, 16, 6]), None),
        "the occurs twice"
    );

    assert_eq!(corpus.corpus_char('q'), qwerty.0[0]);
    assert_eq!(corpus.corpus_char('a'), qwerty.0[1]);
    qwerty.swap(&Swap::new(0, 1));
    assert_eq!(corpus.corpus_char('a'), qwerty.0[0]);
    assert_eq!(corpus.corpus_char('q'), qwerty.0[1]);

    assert_eq!(
        text.chars().filter(|c| *c != ' ').collect::<Vec<_>>().len() as u32,
        qwerty.total_char_count(&corpus)
    );
}

#[test]
fn sentinel_and_interning() {
    let corpus = Corpus::with_char_list(vec![vec!['a', 'A'], vec!['b'], vec!['c', 'a']]);
    assert_eq!(corpus.char_list.len(), 4);
    assert_eq!(corpus.uncorpus_unigram(0), '\0');
    // the later list wins for a character listed twice
    assert_eq!(corpus.corpus_char('a'), 3);
    assert_eq!(corpus.corpus_char('A'), 1);
    assert_eq!(corpus.corpus_char('b'), 2);
    assert_eq!(corpus.corpus_char('z'), 0);
    assert_eq!(corpus.chars, vec![0; 4]);
    assert_eq!(corpus.bigrams.len(), 16);
    assert_eq!(corpus.skipgrams.len(), 16);
    assert_eq!(corpus.trigrams.len(), 64);
}

#[test]
fn flat_indices_and_back() {
    let corpus = lowercase_corpus("abcdefghijklmnopqrstuvwxyz");
    assert_eq!(corpus.bigram_idx(2, 5), 2 * 27 + 5);
    assert_eq!(corpus.trigram_idx(1, 2, 3), 27 * 27 + 2 * 27 + 3);
    assert_eq!(corpus.uncorpus_unigram(1), 'a');
    assert_eq!(corpus.uncorpus_unigram(26), 'z');
    assert_eq!(corpus.uncorpus_bigram(corpus.corpus_bigram(&['h', 'i'])), vec!['h', 'i']);
    assert_eq!(
        corpus.uncorpus_trigram(corpus.corpus_trigram(&['c', 'a', 't'])),
        vec!['c', 'a', 't']
    );
    assert_eq!(corpus.corpus_bigram(&['a', '?']), 27);
}

#[test]
fn counting_edges() {
    let mut corpus = lowercase_corpus("ab");
    corpus.add_str("");
    assert_eq!(corpus.chars, vec![0, 0, 0]);
    corpus.add_str("a?b");
    assert_eq!(corpus.chars[1], 1);
    assert_eq!(corpus.chars[2], 1);
    assert_eq!(corpus.bigrams.iter().sum::<u32>(), 0);
    assert_eq!(corpus.skipgrams[corpus.bigram_idx(1, 2)], 1);
    assert_eq!(corpus.trigrams.iter().sum::<u32>(), 0);
    corpus.add_str("aba");
    assert_eq!(corpus.trigrams[corpus.trigram_idx(1, 2, 1)], 1);
    assert_eq!(corpus.skipgrams[corpus.bigram_idx(1, 1)], 1);
    assert_eq!(corpus.bigrams[corpus.bigram_idx(1, 2)], 1);
    assert_eq!(corpus.bigrams[corpus.bigram_idx(2, 1)], 1);
}

#[test]
fn layout_from_text() {
    let corpus = lowercase_corpus("abc");
    let l = corpus.layout_from_str("cx a");
    assert_eq!(l.0, vec![3, 0, 0, 1]);
}

#[test]
fn sentinel_slots_get_no_counts() {
    let mut corpus = lowercase_corpus("ab");
    assert_eq!(corpus.corpus_char('\0'), 0);
    corpus.add_str("\0");
    corpus.add_str("a\0b\0\0a");
    assert_eq!(corpus.chars[0], 0);
    for c in 0..3 {
        assert_eq!(corpus.bigrams[corpus.bigram_idx(0, c)], 0);
        assert_eq!(corpus.bigrams[corpus.bigram_idx(c, 0)], 0);
        assert_eq!(corpus.skipgrams[corpus.bigram_idx(0, c)], 0);
        assert_eq!(corpus.skipgrams[corpus.bigram_idx(c, 0)], 0);
    }
    assert_eq!(corpus.trigrams[corpus.trigram_idx(1, 0, 2)], 0);
    assert_eq!(corpus.chars[1], 2);
    assert_eq!(corpus.skipgrams[corpus.bigram_idx(1, 2)], 1);
}
