use vstd::prelude::*;

use crate::corpus::{pair_index, triple_index, Corpus, CorpusChar, NgramType};

verus! {

/// A position on a layout.
pub type Pos = usize;

/// A flat keyboard layout: the interned character at each position.
/// Positions are opaque indices; nothing here knows where a key sits.
#[derive(Clone)]
pub struct Layout(pub Vec<CorpusChar>);

impl View for Layout {
    type V = Seq<CorpusChar>;

    open spec fn view(&self) -> Seq<CorpusChar> {
        self.0@
    }
}

/// A group of one, two or three positions that is scored as a unit.
/// The order of the positions matters.
#[derive(Debug)]
pub enum Nstroke {
    Monostroke(usize),
    Bistroke([usize; 2]),
    Tristroke([usize; 3]),
}

/// An exchange of the characters at two positions.
#[derive(Debug, Clone)]
pub struct Swap {
    pub a: usize,
    pub b: usize,
}

/// Every character of `l` is interned by `corpus`.
pub open spec fn chars_valid(corpus: &Corpus, l: Seq<CorpusChar>) -> bool {
    forall|i: int| 0 <= i < l.len() ==> #[trigger] corpus.valid_char(l[i] as int)
}

/// `l` with the characters at `a` and `b` exchanged.
pub open spec fn swapped(l: Seq<CorpusChar>, a: int, b: int) -> Seq<CorpusChar> {
    l.update(a, l[b]).update(b, l[a])
}

/// How often the characters that `l` puts on the positions of `ns` occur
/// in `corpus`: a unigram, bigram or trigram count by the stroke's shape,
/// and for a two-position stroke the skipgram count when `skip` holds.
pub open spec fn stroke_frequency(corpus: &Corpus, l: Seq<CorpusChar>, ns: Nstroke, skip: bool) -> u32 {
    let n = corpus.size();
    match ns {
        Nstroke::Monostroke(p) => corpus.chars@[l[p as int] as int],
        Nstroke::Bistroke(ps) => {
            let k = pair_index(n, l[ps@[0] as int] as int, l[ps@[1] as int] as int);
            if skip {
                corpus.skipgrams@[k]
            } else {
                corpus.bigrams@[k]
            }
        },
        Nstroke::Tristroke(ps) => corpus.trigrams@[triple_index(
            n,
            l[ps@[0] as int] as int,
            l[ps@[1] as int] as int,
            l[ps@[2] as int] as int,
        )],
    }
}

/// Exchanging two entries keeps the multiset of entries.
pub proof fn lemma_swapped_multiset(l: Seq<CorpusChar>, a: int, b: int)
    requires
        0 <= a < l.len(),
        0 <= b < l.len(),
    ensures
        swapped(l, a, b).to_multiset() == l.to_multiset(),
        swapped(l, a, b).len() == l.len(),
{
    broadcast use vstd::seq_lib::to_multiset_update, vstd::multiset::group_multiset_axioms;

    let l1 = l.update(a, l[b]);
    assert(l1.to_multiset() == l.to_multiset().insert(l[b]).remove(l[a]));
    assert(swapped(l, a, b).to_multiset() == l1.to_multiset().insert(l[a]).remove(l1[b]));
    assert(l1[b] == l[b]);
    assert(l.to_multiset().count(l[a]) > 0) by {
        broadcast use vstd::seq_lib::to_multiset_contains;

        assert(l.contains(l[a]));
    }
    assert(l.to_multiset().insert(l[b]).remove(l[a]).insert(l[a]).remove(l[b]) =~= l.to_multiset());
}

/// Sum over the first `n` positions of `l` of the unigram count of the
/// character there.
pub open spec fn char_total(corpus: &Corpus, l: Seq<CorpusChar>, n: int) -> int
    decreases n,
{
    if n <= 0 {
        0
    } else {
        char_total(corpus, l, n - 1) + corpus.chars@[l[n - 1] as int]
    }
}

/// Sum over the first `n` positions `q` of `l` of the pair count of `x`
/// followed by the character at `q`.
pub open spec fn pair_row(size: int, table: Seq<u32>, l: Seq<CorpusChar>, x: int, n: int) -> int
    decreases n,
{
    if n <= 0 {
        0
    } else {
        pair_row(size, table, l, x, n - 1) + table[pair_index(size, x, l[n - 1] as int)]
    }
}

/// Sum of the pair counts of every ordered pair of positions of `l` whose
/// first position is among the first `n`.
pub open spec fn pair_total(size: int, table: Seq<u32>, l: Seq<CorpusChar>, n: int) -> int
    decreases n,
{
    if n <= 0 {
        0
    } else {
        pair_total(size, table, l, n - 1) + pair_row(size, table, l, l[n - 1] as int, l.len() as int)
    }
}

/// Sum over the first `n` positions `q` of `l` of the trigram count of
/// `x`, `y` and the character at `q`.
pub open spec fn triple_row(corpus: &Corpus, l: Seq<CorpusChar>, x: int, y: int, n: int) -> int
    decreases n,
{
    if n <= 0 {
        0
    } else {
        triple_row(corpus, l, x, y, n - 1) + corpus.trigrams@[triple_index(
            corpus.size(),
            x,
            y,
            l[n - 1] as int,
        )]
    }
}

/// Sum of the trigram counts of `x` followed by every ordered pair of
/// positions of `l` whose first position is among the first `n`.
pub open spec fn triple_plane(corpus: &Corpus, l: Seq<CorpusChar>, x: int, n: int) -> int
    decreases n,
{
    if n <= 0 {
        0
    } else {
        triple_plane(corpus, l, x, n - 1) + triple_row(corpus, l, x, l[n - 1] as int, l.len() as int)
    }
}

/// Sum of the trigram counts of every ordered triple of positions of `l`
/// whose first position is among the first `n`.
pub open spec fn triple_total(corpus: &Corpus, l: Seq<CorpusChar>, n: int) -> int
    decreases n,
{
    if n <= 0 {
        0
    } else {
        triple_total(corpus, l, n - 1) + triple_plane(corpus, l, l[n - 1] as int, l.len() as int)
    }
}

/// The prefix sums of counts only grow.
proof fn lemma_totals_grow(corpus: &Corpus, table: Seq<u32>, l: Seq<CorpusChar>, x: int, y: int, i: int, n: int)
    requires
        0 <= i <= n,
    ensures
        0 <= char_total(corpus, l, i) <= char_total(corpus, l, n),
        0 <= pair_row(corpus.size(), table, l, x, i) <= pair_row(corpus.size(), table, l, x, n),
        0 <= triple_row(corpus, l, x, y, i) <= triple_row(corpus, l, x, y, n),
    decreases n,
{
    if n > 0 {
        if i < n {
            lemma_totals_grow(corpus, table, l, x, y, i, n - 1);
        } else {
            lemma_totals_grow(corpus, table, l, x, y, n - 1, n - 1);
        }
    }
}

/// The outer prefix sums of counts only grow.
proof fn lemma_outer_totals_grow(corpus: &Corpus, table: Seq<u32>, l: Seq<CorpusChar>, x: int, i: int, n: int)
    requires
        0 <= i <= n,
    ensures
        0 <= pair_total(corpus.size(), table, l, i) <= pair_total(corpus.size(), table, l, n),
        0 <= triple_plane(corpus, l, x, i) <= triple_plane(corpus, l, x, n),
    decreases n,
{
    if n > 0 {
        lemma_totals_grow(corpus, table, l, l[n - 1] as int, l[n - 1] as int, 0, l.len() as int);
        lemma_totals_grow(corpus, table, l, x, l[n - 1] as int, 0, l.len() as int);
        if i < n {
            lemma_outer_totals_grow(corpus, table, l, x, i, n - 1);
        } else {
            lemma_outer_totals_grow(corpus, table, l, x, n - 1, n - 1);
        }
    }
}

/// The sums of trigram counts over all triples only grow.
proof fn lemma_triple_total_grows(corpus: &Corpus, l: Seq<CorpusChar>, i: int, n: int)
    requires
        0 <= i <= n,
    ensures
        0 <= triple_total(corpus, l, i) <= triple_total(corpus, l, n),
    decreases n,
{
    if n > 0 {
        lemma_outer_totals_grow(corpus, Seq::empty(), l, l[n - 1] as int, 0, l.len() as int);
        if i < n {
            lemma_triple_total_grows(corpus, l, i, n - 1);
        } else {
            lemma_triple_total_grows(corpus, l, n - 1, n - 1);
        }
    }
}

/// The counts of a layout's characters in a corpus, by n-gram kind.
#[derive(Debug)]
pub struct LayoutTotals {
    chars: u32,
    bigrams: u32,
    skipgrams: u32,
    trigrams: u32,
}

impl LayoutTotals {
    /// The total for n-gram kind `kind`.
    pub closed spec fn total(&self, kind: NgramType) -> u32 {
        match kind {
            NgramType::Monogram => self.chars,
            NgramType::Bigram => self.bigrams,
            NgramType::Skipgram => self.skipgrams,
            NgramType::Trigram => self.trigrams,
        }
    }

    /// The total for n-gram kind `kind`: the denominator of a percentage.
    #[must_use]
    pub fn count(&self, kind: NgramType) -> (r: u32)
        ensures
            r == self.total(kind),
    {
        match kind {
            NgramType::Monogram => self.chars,
            NgramType::Bigram => self.bigrams,
            NgramType::Skipgram => self.skipgrams,
            NgramType::Trigram => self.trigrams,
        }
    }
}

impl Nstroke {
    /// The positions of the stroke, in order.
    pub open spec fn positions(&self) -> Seq<usize> {
        match *self {
            Nstroke::Monostroke(p) => seq![p],
            Nstroke::Bistroke(ps) => ps@,
            Nstroke::Tristroke(ps) => ps@,
        }
    }

    /// Every position of the stroke is below `len`.
    pub open spec fn within(&self, len: int) -> bool {
        match *self {
            Nstroke::Monostroke(p) => p < len,
            Nstroke::Bistroke(ps) => ps@[0] < len && ps@[1] < len,
            Nstroke::Tristroke(ps) => ps@[0] < len && ps@[1] < len && ps@[2] < len,
        }
    }

    /// The positions of a stroke within `len` are below `len`.
    pub proof fn lemma_within(&self, len: int)
        requires
            self.within(len),
        ensures
            forall|k: int| 0 <= k < self.positions().len() ==> #[trigger] self.positions()[k] < len,
            1 <= self.positions().len() <= 3,
    {
    }

    /// The stroke's positions as a vector.
    #[must_use]
    pub fn to_vec(&self) -> (r: Vec<usize>)
        ensures
            r@ == self.positions(),
    {
        match self {
            Nstroke::Monostroke(u) => vec![*u],
            Nstroke::Bistroke(a) => {
                let r = vec![a[0], a[1]];
                assert(r@ =~= a@);
                r
            },
            Nstroke::Tristroke(a) => {
                let r = vec![a[0], a[1], a[2]];
                assert(r@ =~= a@);
                r
            },
        }
    }
}

impl Swap {
    #[must_use]
    pub fn new(a: usize, b: usize) -> (r: Self)
        ensures
            r.a == a,
            r.b == b,
    {
        Self { a, b }
    }
}

impl Layout {
    /// The characters on the positions of `ns`, in order.
    #[must_use]
    pub fn nstroke_chars(&self, ns: &Nstroke) -> (r: Vec<CorpusChar>)
        requires
            ns.within(self@.len() as int),
        ensures
            r@ == ns.positions().map_values(|p: usize| self@[p as int]),
    {
        let r = match ns {
            Nstroke::Monostroke(idx) => vec![self.0[*idx]],
            Nstroke::Bistroke(idx) => vec![self.0[idx[0]], self.0[idx[1]]],
            Nstroke::Tristroke(idx) => vec![self.0[idx[0]], self.0[idx[1]], self.0[idx[2]]],
        };
        assert(r@ =~= ns.positions().map_values(|p: usize| self@[p as int]));
        r
    }

    /// How often the characters on the positions of `ns` occur in
    /// `corpus`. Two-position strokes read the skipgram table when `ng` is
    /// `Some(Skipgram)` and the bigram table otherwise.
    #[must_use]
    pub fn frequency(&self, corpus: &Corpus, ns: &Nstroke, ng: Option<NgramType>) -> (r: u32)
        requires
            corpus.tables_ok(),
            chars_valid(corpus, self@),
            ns.within(self@.len() as int),
        ensures
            r == stroke_frequency(corpus, self@, *ns, ng == Some(NgramType::Skipgram)),
    {
        match ns {
            Nstroke::Monostroke(idx) => {
                let c = self.0[*idx];
                assert(corpus.valid_char(self@[*idx as int] as int));
                corpus.chars[c]
            },
            Nstroke::Bistroke(idx) => {
                let k = corpus.bigram_idx(self.0[idx[0]], self.0[idx[1]]);
                match ng {
                    Some(NgramType::Skipgram) => corpus.skipgrams[k],
                    _ => corpus.bigrams[k],
                }
            },
            Nstroke::Tristroke(idx) => {
                let k = corpus.trigram_idx(self.0[idx[0]], self.0[idx[1]], self.0[idx[2]]);
                corpus.trigrams[k]
            },
        }
    }

    /// How often the layout's characters occur in `corpus`.
    #[must_use]
    pub fn total_char_count(&self, corpus: &Corpus) -> (r: u32)
        requires
            corpus.tables_ok(),
            chars_valid(corpus, self@),
            char_total(corpus, self@, self@.len() as int) <= u32::MAX,
        ensures
            r == char_total(corpus, self@, self@.len() as int),
    {
        let mut acc: u32 = 0;
        let mut i: usize = 0;
        while i < self.0.len()
            invariant
                corpus.tables_ok(),
                chars_valid(corpus, self@),
                char_total(corpus, self@, self@.len() as int) <= u32::MAX,
                i <= self@.len(),
                acc == char_total(corpus, self@, i as int),
            decreases self@.len() - i,
        {
            proof {
                lemma_totals_grow(corpus, Seq::empty(), self@, 0, 0, i as int + 1, self@.len() as int);
                assert(corpus.valid_char(self@[i as int] as int));
            }
            acc = acc + corpus.chars[self.0[i]];
            i += 1;
        }
        acc
    }

    /// The sum of `frequencies` over every ordered pair of the layout's
    /// characters.
    fn bi_count(&self, corpus: &Corpus, frequencies: &Vec<u32>) -> (r: u32)
        requires
            corpus.tables_ok(),
            chars_valid(corpus, self@),
            frequencies@.len() == corpus.size() * corpus.size(),
            pair_total(corpus.size(), frequencies@, self@, self@.len() as int) <= u32::MAX,
        ensures
            r == pair_total(corpus.size(), frequencies@, self@, self@.len() as int),
    {
        let ghost t = frequencies@;
        let ghost l = self@;
        let ghost size = corpus.size();
        let n = self.0.len();
        let mut acc: u32 = 0;
        let mut a: usize = 0;
        while a < n
            invariant
                corpus.tables_ok(),
                chars_valid(corpus, l),
                l == self@,
                t == frequencies@,
                size == corpus.size(),
                n == l.len(),
                t.len() == size * size,
                pair_total(size, t, l, n as int) <= u32::MAX,
                a <= n,
                acc == pair_total(size, t, l, a as int),
            decreases n - a,
        {
            let x = self.0[a];
            assert(corpus.valid_char(x as int));
            proof {
                lemma_outer_totals_grow(corpus, t, l, 0, a as int + 1, n as int);
            }
            let mut b: usize = 0;
            while b < n
                invariant
                    corpus.tables_ok(),
                    chars_valid(corpus, l),
                    l == self@,
                    t == frequencies@,
                    size == corpus.size(),
                    n == l.len(),
                    t.len() == size * size,
                    a < n,
                    x == l[a as int],
                    corpus.valid_char(x as int),
                    pair_total(size, t, l, a as int + 1) <= u32::MAX,
                    b <= n,
                    acc == pair_total(size, t, l, a as int) + pair_row(size, t, l, x as int, b as int),
                decreases n - b,
            {
                let y = self.0[b];
                assert(corpus.valid_char(y as int));
                let k = corpus.bigram_idx(x, y);
                proof {
                    lemma_totals_grow(corpus, t, l, x as int, 0, b as int + 1, n as int);
                }
                acc = acc + frequencies[k];
                b += 1;
            }
            a += 1;
        }
        acc
    }

    /// The sum of the bigram counts over every ordered pair of the
    /// layout's characters.
    #[must_use]
    pub fn total_bigram_count(&self, corpus: &Corpus) -> (r: u32)
        requires
            corpus.tables_ok(),
            chars_valid(corpus, self@),
            pair_total(corpus.size(), corpus.bigrams@, self@, self@.len() as int) <= u32::MAX,
        ensures
            r == pair_total(corpus.size(), corpus.bigrams@, self@, self@.len() as int),
    {
        self.bi_count(corpus, &corpus.bigrams)
    }

    /// The sum of the skipgram counts over every ordered pair of the
    /// layout's characters.
    #[must_use]
    pub fn total_skipgram_count(&self, corpus: &Corpus) -> (r: u32)
        requires
            corpus.tables_ok(),
            chars_valid(corpus, self@),
            pair_total(corpus.size(), corpus.skipgrams@, self@, self@.len() as int) <= u32::MAX,
        ensures
            r == pair_total(corpus.size(), corpus.skipgrams@, self@, self@.len() as int),
    {
        self.bi_count(corpus, &corpus.skipgrams)
    }

    /// The sum of the trigram counts over every ordered triple of the
    /// layout's characters.
    #[must_use]
    pub fn total_trigram_count(&self, corpus: &Corpus) -> (r: u32)
        requires
            corpus.tables_ok(),
            chars_valid(corpus, self@),
            triple_total(corpus, self@, self@.len() as int) <= u32::MAX,
        ensures
            r == triple_total(corpus, self@, self@.len() as int),
    {
        let ghost l = self@;
        let n = self.0.len();
        let mut acc: u32 = 0;
        let mut a: usize = 0;
        while a < n
            invariant
                corpus.tables_ok(),
                chars_valid(corpus, l),
                l == self@,
                n == l.len(),
                triple_total(corpus, l, n as int) <= u32::MAX,
                a <= n,
                acc == triple_total(corpus, l, a as int),
            decreases n - a,
        {
            let x = self.0[a];
            assert(corpus.valid_char(x as int));
            proof {
                lemma_triple_total_grows(corpus, l, a as int + 1, n as int);
            }
            let mut b: usize = 0;
            while b < n
                invariant
                    corpus.tables_ok(),
                    chars_valid(corpus, l),
                    l == self@,
                    n == l.len(),
                    a < n,
                    x == l[a as int],
                    corpus.valid_char(x as int),
                    triple_total(corpus, l, a as int + 1) <= u32::MAX,
                    b <= n,
                    acc == triple_total(corpus, l, a as int) + triple_plane(corpus, l, x as int, b as int),
                decreases n - b,
            {
                let y = self.0[b];
                assert(corpus.valid_char(y as int));
                proof {
                    lemma_outer_totals_grow(corpus, Seq::empty(), l, x as int, b as int + 1, n as int);
                }
                let mut c: usize = 0;
                while c < n
                    invariant
                        corpus.tables_ok(),
                        chars_valid(corpus, l),
                        l == self@,
                        n == l.len(),
                        a < n,
                        b < n,
                        x == l[a as int],
                        y == l[b as int],
                        corpus.valid_char(x as int),
                        corpus.valid_char(y as int),
                        triple_total(corpus, l, a as int) + triple_plane(corpus, l, x as int, b as int + 1)
                            <= u32::MAX,
                        c <= n,
                        acc == triple_total(corpus, l, a as int) + triple_plane(corpus, l, x as int, b as int)
                            + triple_row(corpus, l, x as int, y as int, c as int),
                    decreases n - c,
                {
                    let z = self.0[c];
                    assert(corpus.valid_char(z as int));
                    let k = corpus.trigram_idx(x, y, z);
                    proof {
                        lemma_totals_grow(corpus, Seq::empty(), l, x as int, y as int, c as int + 1, n as int);
                    }
                    acc = acc + corpus.trigrams[k];
                    c += 1;
                }
                b += 1;
            }
            a += 1;
        }
        acc
    }

    /// The counts of the layout's characters by n-gram kind.
    #[must_use]
    pub fn totals(&self, corpus: &Corpus) -> (r: LayoutTotals)
        requires
            corpus.tables_ok(),
            chars_valid(corpus, self@),
            char_total(corpus, self@, self@.len() as int) <= u32::MAX,
            pair_total(corpus.size(), corpus.bigrams@, self@, self@.len() as int) <= u32::MAX,
            pair_total(corpus.size(), corpus.skipgrams@, self@, self@.len() as int) <= u32::MAX,
            triple_total(corpus, self@, self@.len() as int) <= u32::MAX,
        ensures
            r.total(NgramType::Monogram) == char_total(corpus, self@, self@.len() as int),
            r.total(NgramType::Bigram) == pair_total(
                corpus.size(),
                corpus.bigrams@,
                self@,
                self@.len() as int,
            ),
            r.total(NgramType::Skipgram) == pair_total(
                corpus.size(),
                corpus.skipgrams@,
                self@,
                self@.len() as int,
            ),
            r.total(NgramType::Trigram) == triple_total(corpus, self@, self@.len() as int),
    {
        LayoutTotals {
            chars: self.total_char_count(corpus),
            bigrams: self.total_bigram_count(corpus),
            skipgrams: self.total_skipgram_count(corpus),
            trigrams: self.total_trigram_count(corpus),
        }
    }

    /// Exchanges the characters at the two positions of `s`.
    pub fn swap(&mut self, s: &Swap)
        requires
            s.a < old(self)@.len(),
            s.b < old(self)@.len(),
        ensures
            final(self)@ == swapped(old(self)@, s.a as int, s.b as int),
    {
        let x = self.0[s.a];
        let y = self.0[s.b];
        self.0.set(s.a, y);
        self.0.set(s.b, x);
    }
}

} // verus!
