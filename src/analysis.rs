use vstd::prelude::*;

use crate::corpus::{Corpus, NgramType};
use crate::layout::{chars_valid, stroke_frequency, swapped, Layout, Nstroke, Swap};

verus! {

/// Index of a metric in `MetricData::metrics`.
pub type MetricIndex = usize;

/// Index of a stroke in `MetricData::strokes`.
pub type NstrokeIndex = usize;

/// The largest count a frequency table can hold.
pub open spec fn count_max() -> int {
    u32::MAX as int
}

/// A weight with which a stroke feeds one metric.
#[derive(Debug)]
pub struct MetricAmount {
    pub metric: MetricIndex,
    pub amount: i32,
}

impl MetricAmount {
    #[must_use]
    pub fn new(metric: MetricIndex, amount: i32) -> (r: Self)
        ensures
            r.metric == metric,
            r.amount == amount,
    {
        Self { metric, amount }
    }
}

/// A stroke together with the metrics it feeds.
#[derive(Debug)]
pub struct NstrokeData {
    pub nstroke: Nstroke,
    pub amounts: Vec<MetricAmount>,
}

impl NstrokeData {
    #[must_use]
    pub fn new(nstroke: Nstroke, amounts: Vec<MetricAmount>) -> (r: Self)
        ensures
            r.nstroke == nstroke,
            r.amounts == amounts,
    {
        Self { nstroke, amounts }
    }
}

/// The stroke catalogue: the metrics, the strokes that feed them, and for
/// every position the ascending list of strokes that use it.
#[derive(Debug)]
pub struct MetricData {
    /// The n-gram kind of each metric.
    pub metrics: Vec<NgramType>,
    /// The strokes needed for analysis.
    pub strokes: Vec<NstrokeData>,
    /// For each position, the indices of the strokes that contain it.
    pub position_strokes: Vec<Vec<NstrokeIndex>>,
}

/// Binds a stroke catalogue to the corpus it is scored against.
pub struct Analyzer {
    pub data: MetricData,
    pub corpus: Corpus,
}

/// Every element of `s` is smaller than every later one.
pub open spec fn strictly_ascending(s: Seq<usize>) -> bool {
    forall|i: int, j: int| 0 <= i < j < s.len() ==> s[i] < s[j]
}

/// The ascending union of two ascending sequences, each common element
/// taken once: the order in which a two-pointer walk meets the elements.
pub open spec fn merge_union(xs: Seq<usize>, ys: Seq<usize>) -> Seq<usize>
    decreases xs.len() + ys.len(),
{
    if xs.len() == 0 {
        ys
    } else if ys.len() == 0 {
        xs
    } else if xs[0] < ys[0] {
        seq![xs[0]] + merge_union(xs.drop_first(), ys)
    } else if ys[0] < xs[0] {
        seq![ys[0]] + merge_union(xs, ys.drop_first())
    } else {
        seq![xs[0]] + merge_union(xs.drop_first(), ys.drop_first())
    }
}

/// What the first `j` weights of `amounts` add to metric `m` for a stroke
/// whose base frequency is `base` and whose skipgram frequency is `skip`.
/// A weight on a skipgram metric takes `skip`, any other takes `base`.
pub open spec fn weighted(
    metrics: Seq<NgramType>,
    amounts: Seq<MetricAmount>,
    m: int,
    base: int,
    skip: int,
    j: int,
) -> int
    decreases j,
{
    if j <= 0 {
        0
    } else {
        weighted(metrics, amounts, m, base, skip, j - 1) + if amounts[j - 1].metric == m {
            amounts[j - 1].amount * if metrics[m] == NgramType::Skipgram {
                skip
            } else {
                base
            }
        } else {
            0
        }
    }
}

/// Sum of the absolute values of the first `j` weights of `amounts`.
pub open spec fn weight_mass(amounts: Seq<MetricAmount>, j: int) -> int
    decreases j,
{
    if j <= 0 {
        0
    } else {
        weight_mass(amounts, j - 1) + if amounts[j - 1].amount < 0 {
            -amounts[j - 1].amount
        } else {
            amounts[j - 1].amount as int
        }
    }
}

/// An element of `seq![h] + t` is `h` or an element of `t`.
proof fn lemma_contains_cons(h: usize, t: Seq<usize>)
    ensures
        forall|x: usize| #[trigger] (seq![h] + t).contains(x) <==> x == h || t.contains(x),
{
    let s = seq![h] + t;
    assert forall|x: usize| #[trigger] s.contains(x) <==> x == h || t.contains(x) by {
        if s.contains(x) {
            let k = choose|k: int| 0 <= k < s.len() && s[k] == x;
            if k > 0 {
                assert(t[k - 1] == x);
            }
        }
        if x == h {
            assert(s[0] == x);
        }
        if t.contains(x) {
            let k = choose|k: int| 0 <= k < t.len() && t[k] == x;
            assert(s[k + 1] == x);
        }
    }
}

/// Walking two strictly ascending lists of stroke indices with two
/// pointers meets every index of either list exactly once, in ascending
/// order: the result is strictly ascending (so no index repeats) and holds
/// exactly the elements of the two lists.
pub proof fn lemma_merge_union(xs: Seq<usize>, ys: Seq<usize>)
    requires
        strictly_ascending(xs),
        strictly_ascending(ys),
    ensures
        strictly_ascending(merge_union(xs, ys)),
        forall|x: usize| #[trigger]
            merge_union(xs, ys).contains(x) <==> xs.contains(x) || ys.contains(x),
    decreases xs.len() + ys.len(),
{
    if xs.len() > 0 && ys.len() > 0 {
        let h = if xs[0] <= ys[0] {
            xs[0]
        } else {
            ys[0]
        };
        let xs2 = if xs[0] <= ys[0] {
            xs.drop_first()
        } else {
            xs
        };
        let ys2 = if ys[0] <= xs[0] {
            ys.drop_first()
        } else {
            ys
        };
        lemma_merge_union(xs2, ys2);
        let rest = merge_union(xs2, ys2);
        assert(merge_union(xs, ys) == seq![h] + rest);
        assert(xs =~= seq![xs[0]] + xs.drop_first());
        assert(ys =~= seq![ys[0]] + ys.drop_first());
        lemma_contains_cons(xs[0], xs.drop_first());
        lemma_contains_cons(ys[0], ys.drop_first());
        lemma_contains_cons(h, rest);
        assert forall|w: int| 0 <= w < xs2.len() implies h < xs2[w] by {
            if xs[0] <= ys[0] {
                assert(xs2[w] == xs[w + 1]);
            } else if w > 0 {
                assert(xs[0] < xs[w]);
            }
        }
        assert forall|w: int| 0 <= w < ys2.len() implies h < ys2[w] by {
            if ys[0] <= xs[0] {
                assert(ys2[w] == ys[w + 1]);
            } else if w > 0 {
                assert(ys[0] < ys[w]);
            }
        }
        assert forall|k: int| 0 <= k < rest.len() implies h < rest[k] by {
            assert(rest.contains(rest[k]));
            if xs2.contains(rest[k]) {
                let w = choose|w: int| 0 <= w < xs2.len() && xs2[w] == rest[k];
            } else {
                let w = choose|w: int| 0 <= w < ys2.len() && ys2[w] == rest[k];
            }
        }
        let all = seq![h] + rest;
        assert forall|i: int, j: int| 0 <= i < j < all.len() implies all[i] < all[j] by {
            if i > 0 {
                assert(all[i] == rest[i - 1] && all[j] == rest[j - 1]);
            } else {
                assert(all[j] == rest[j - 1]);
            }
        }
    }
}

impl MetricData {
    /// Number of positions the catalogue was built for.
    pub open spec fn num_positions(&self) -> int {
        self.position_strokes@.len() as int
    }

    /// The per-position lists are strictly ascending and list exactly the
    /// strokes that use each position.
    pub open spec fn index_ok(&self) -> bool {
        forall|p: int|
            #![trigger self.position_strokes@[p]]
            0 <= p < self.num_positions() ==> {
                &&& strictly_ascending(self.position_strokes@[p]@)
                &&& forall|k: int|
                    0 <= k < self.position_strokes@[p]@.len() ==> #[trigger] self.position_strokes@[p]@[k]
                        < self.strokes@.len()
                &&& forall|i: int|
                    0 <= i < self.strokes@.len() ==> (#[trigger] self.position_strokes@[p]@.contains(
                        i as usize,
                    ) <==> self.strokes@[i].nstroke.positions().contains(p as usize))
            }
    }

    /// Sum of the absolute weights of the first `n` strokes.
    pub open spec fn mass(&self, n: int) -> int
        decreases n,
    {
        if n <= 0 {
            0
        } else {
            self.mass(n - 1) + self.stroke_mass(n - 1)
        }
    }

    /// Sum of the absolute weights of the strokes listed in `ids`.
    pub open spec fn visit_mass(&self, ids: Seq<usize>) -> int
        decreases ids.len(),
    {
        if ids.len() == 0 {
            0
        } else {
            self.visit_mass(ids.drop_last()) + self.stroke_mass(ids.last() as int)
        }
    }

    /// Sum of the absolute weights of stroke `i`.
    pub open spec fn stroke_mass(&self, i: int) -> int {
        weight_mass(self.strokes@[i].amounts@, self.strokes@[i].amounts@.len() as int)
    }

    /// The catalogue is consistent: strokes lie on the positions, weights
    /// name existing metrics, the index is right, and the weights are small
    /// enough for every statistic to fit in an `i64`.
    pub open spec fn wf(&self) -> bool {
        &&& self.index_ok()
        &&& forall|i: int|
            0 <= i < self.strokes@.len() ==> #[trigger] self.strokes@[i].nstroke.within(
                self.num_positions(),
            )
        &&& forall|i: int, j: int|
            0 <= i < self.strokes@.len() && 0 <= j < self.strokes@[i].amounts@.len()
                ==> #[trigger] self.strokes@[i].amounts@[j].metric < self.metrics@.len()
        &&& self.mass(self.strokes@.len() as int) * count_max() <= i64::MAX
    }
}

impl Analyzer {
    /// The analyzer's parts are consistent.
    pub open spec fn wf(&self) -> bool {
        self.data.wf() && self.corpus.tables_ok()
    }

    /// `l` is a layout this analyzer can score: it has the catalogue's
    /// number of positions and only interned characters.
    pub open spec fn fits(&self, l: Seq<usize>) -> bool {
        l.len() == self.data.num_positions() && chars_valid(&self.corpus, l)
    }

    /// Base frequency of stroke `i` under `l`.
    pub open spec fn base_freq(&self, l: Seq<usize>, i: int) -> int {
        stroke_frequency(&self.corpus, l, self.data.strokes@[i].nstroke, false) as int
    }

    /// Skipgram frequency of stroke `i` under `l`; zero unless it has two positions.
    pub open spec fn skip_freq(&self, l: Seq<usize>, i: int) -> int {
        match self.data.strokes@[i].nstroke {
            Nstroke::Bistroke(_) => stroke_frequency(
                &self.corpus,
                l,
                self.data.strokes@[i].nstroke,
                true,
            ) as int,
            _ => 0,
        }
    }

    /// What stroke `i` adds to metric `m` under `l`.
    pub open spec fn entry_term(&self, l: Seq<usize>, i: int, m: int) -> int {
        weighted(
            self.data.metrics@,
            self.data.strokes@[i].amounts@,
            m,
            self.base_freq(l, i),
            self.skip_freq(l, i),
            self.data.strokes@[i].amounts@.len() as int,
        )
    }

    /// What the first `n` strokes add to metric `m` under `l`.
    pub open spec fn stat(&self, l: Seq<usize>, m: int, n: int) -> int
        decreases n,
    {
        if n <= 0 {
            0
        } else {
            self.stat(l, m, n - 1) + self.entry_term(l, n - 1, m)
        }
    }

    /// The metric vector of `l`.
    pub open spec fn stats(&self, l: Seq<usize>) -> Seq<int> {
        Seq::new(
            self.data.metrics@.len(),
            |m: int| self.stat(l, m, self.data.strokes@.len() as int),
        )
    }

    /// How much stroke `i` adds to metric `m` once `a` and `b` are exchanged.
    pub open spec fn stroke_delta(&self, l: Seq<usize>, a: int, b: int, i: int, m: int) -> int {
        self.entry_term(swapped(l, a, b), i, m) - self.entry_term(l, i, m)
    }

    /// Sum of `stroke_delta` over the strokes listed in `ids`.
    pub open spec fn visit_sum(&self, l: Seq<usize>, a: int, b: int, ids: Seq<usize>, m: int) -> int
        decreases ids.len(),
    {
        if ids.len() == 0 {
            0
        } else {
            self.visit_sum(l, a, b, ids.drop_last(), m) + self.stroke_delta(
                l,
                a,
                b,
                ids.last() as int,
                m,
            )
        }
    }

    /// Sum of `stroke_delta` over the first `n` strokes.
    pub open spec fn delta_below(&self, l: Seq<usize>, a: int, b: int, m: int, n: int) -> int
        decreases n,
    {
        if n <= 0 {
            0
        } else {
            self.delta_below(l, a, b, m, n - 1) + self.stroke_delta(l, a, b, n - 1, m)
        }
    }

    /// The strokes that exchanging `a` and `b` can affect, each once, in
    /// ascending order.
    pub open spec fn touched(&self, a: int, b: int) -> Seq<usize> {
        merge_union(self.data.position_strokes@[a]@, self.data.position_strokes@[b]@)
    }

    /// The change to metric `m` from exchanging `a` and `b`, summed over the
    /// touched strokes only.
    pub open spec fn swap_delta(&self, l: Seq<usize>, a: int, b: int, m: int) -> int {
        self.visit_sum(l, a, b, self.touched(a, b), m)
    }
}

/// `weighted` is linear in the two frequencies.
proof fn lemma_weighted_linear(
    metrics: Seq<NgramType>,
    amounts: Seq<MetricAmount>,
    m: int,
    b1: int,
    s1: int,
    b0: int,
    s0: int,
    j: int,
)
    ensures
        weighted(metrics, amounts, m, b1, s1, j) - weighted(metrics, amounts, m, b0, s0, j)
            == weighted(metrics, amounts, m, b1 - b0, s1 - s0, j),
    decreases j,
{
    if j > 0 {
        lemma_weighted_linear(metrics, amounts, m, b1, s1, b0, s0, j - 1);
        let w = amounts[j - 1].amount as int;
        assert(w * b1 - w * b0 == w * (b1 - b0)) by (nonlinear_arith);
        assert(w * s1 - w * s0 == w * (s1 - s0)) by (nonlinear_arith);
    }
}

/// `weighted` is bounded by the weight mass times the largest frequency.
proof fn lemma_weighted_bound(
    metrics: Seq<NgramType>,
    amounts: Seq<MetricAmount>,
    m: int,
    base: int,
    skip: int,
    j: int,
)
    requires
        -count_max() <= base <= count_max(),
        -count_max() <= skip <= count_max(),
    ensures
        0 <= weight_mass(amounts, j),
        -weight_mass(amounts, j) * count_max() <= weighted(metrics, amounts, m, base, skip, j)
            <= weight_mass(amounts, j) * count_max(),
    decreases j,
{
    if j > 0 {
        lemma_weighted_bound(metrics, amounts, m, base, skip, j - 1);
        let w = amounts[j - 1].amount as int;
        let f = if metrics[m] == NgramType::Skipgram {
            skip
        } else {
            base
        };
        let aw = if w < 0 {
            -w
        } else {
            w
        };
        assert(-aw * count_max() <= w * f <= aw * count_max()) by (nonlinear_arith)
            requires
                -count_max() <= f <= count_max(),
                aw == w || aw == -w,
                aw >= 0,
        ;
        let mj = weight_mass(amounts, j - 1);
        assert(mj * count_max() + aw * count_max() == (mj + aw) * count_max()) by (nonlinear_arith);
    }
}

/// A sum of non-negative weights over a prefix is at most the sum over the whole.
proof fn lemma_weight_mass_prefix(amounts: Seq<MetricAmount>, j: int, k: int)
    requires
        j <= k,
    ensures
        weight_mass(amounts, j) <= weight_mass(amounts, k),
    decreases k - j,
{
    if j < k {
        lemma_weight_mass_prefix(amounts, j, k - 1);
    }
}

impl MetricData {
    /// Summing stroke masses along a strictly ascending list of strokes
    /// below `n` gives at most the mass of the first `n` strokes.
    proof fn lemma_visit_mass_bound(&self, u: Seq<usize>, n: int)
        requires
            strictly_ascending(u),
            forall|k: int| 0 <= k < u.len() ==> #[trigger] u[k] < n,
        ensures
            self.visit_mass(u) <= self.mass(n),
        decreases n,
    {
        if n > 0 {
            let m0 = weight_mass(self.strokes@[n - 1].amounts@, 0);
            lemma_weight_mass_prefix(
                self.strokes@[n - 1].amounts@,
                0,
                self.strokes@[n - 1].amounts@.len() as int,
            );
            if u.len() > 0 && u.last() == n - 1 {
                let u2 = u.drop_last();
                assert forall|k: int| 0 <= k < u2.len() implies #[trigger] u2[k] < n - 1 by {
                    assert(u[k] < u[u.len() - 1]);
                }
                self.lemma_visit_mass_bound(u2, n - 1);
            } else {
                assert forall|k: int| 0 <= k < u.len() implies #[trigger] u[k] < n - 1 by {
                    if k < u.len() - 1 {
                        assert(u[k] < u[u.len() - 1]);
                    }
                }
                self.lemma_visit_mass_bound(u, n - 1);
            }
        } else if u.len() > 0 {
            assert(u[0] < n);
        }
    }

    /// Stroke masses summed over a prefix are at most the sum over the whole.
    proof fn lemma_visit_mass_prefix(&self, p: Seq<usize>, q: Seq<usize>)
        ensures
            self.visit_mass(p) <= self.visit_mass(p + q),
        decreases q.len(),
    {
        if q.len() > 0 {
            assert((p + q).drop_last() =~= p + q.drop_last());
            self.lemma_visit_mass_prefix(p, q.drop_last());
            let i = q.last() as int;
            lemma_weight_mass_prefix(self.strokes@[i].amounts@, 0, self.strokes@[i].amounts@.len() as int);
        } else {
            assert(p + q =~= p);
        }
    }
}

impl Analyzer {
    /// A stroke that uses neither `a` nor `b` is unchanged by exchanging them.
    proof fn lemma_untouched(&self, l: Seq<usize>, a: int, b: int, i: int, m: int)
        requires
            self.data.strokes@[i].nstroke.within(l.len() as int),
            0 <= a < l.len(),
            0 <= b < l.len(),
            !self.data.strokes@[i].nstroke.positions().contains(a as usize),
            !self.data.strokes@[i].nstroke.positions().contains(b as usize),
        ensures
            self.stroke_delta(l, a, b, i, m) == 0,
    {
        let l2 = swapped(l, a, b);
        let ps = self.data.strokes@[i].nstroke.positions();
        assert forall|k: int| 0 <= k < ps.len() implies l2[ps[k] as int] == l[ps[k] as int] by {
            assert(ps.contains(ps[k]));
        }
        match self.data.strokes@[i].nstroke {
            Nstroke::Monostroke(p) => {
                assert(ps[0] == p);
            },
            Nstroke::Bistroke(q) => {
                assert(ps[0] == q@[0] && ps[1] == q@[1]);
            },
            Nstroke::Tristroke(q) => {
                assert(ps[0] == q@[0] && ps[1] == q@[1] && ps[2] == q@[2]);
            },
        }
        assert(self.base_freq(l2, i) == self.base_freq(l, i));
        assert(self.skip_freq(l2, i) == self.skip_freq(l, i));
    }

    /// Recomputing all strokes after an exchange differs from before by the
    /// sum of the per-stroke changes.
    proof fn lemma_stat_difference(&self, l: Seq<usize>, a: int, b: int, m: int, n: int)
        ensures
            self.stat(swapped(l, a, b), m, n) - self.stat(l, m, n) == self.delta_below(l, a, b, m, n),
        decreases n,
    {
        if n > 0 {
            self.lemma_stat_difference(l, a, b, m, n - 1);
        }
    }

    /// Summing stroke changes along a strictly ascending list of strokes
    /// below `n` that leaves out only unchanged strokes gives the sum over
    /// all of the first `n` strokes.
    proof fn lemma_visit_sum_all(&self, l: Seq<usize>, a: int, b: int, m: int, u: Seq<usize>, n: int)
        requires
            n <= usize::MAX,
            strictly_ascending(u),
            forall|k: int| 0 <= k < u.len() ==> #[trigger] u[k] < n,
            forall|i: int|
                0 <= i < n && !u.contains(i as usize) ==> #[trigger] self.stroke_delta(l, a, b, i, m)
                    == 0,
        ensures
            self.visit_sum(l, a, b, u, m) == self.delta_below(l, a, b, m, n),
        decreases n,
    {
        if n > 0 {
            if u.len() > 0 && u.last() == n - 1 {
                let u2 = u.drop_last();
                assert forall|k: int| 0 <= k < u2.len() implies #[trigger] u2[k] < n - 1 by {
                    assert(u[k] < u[u.len() - 1]);
                }
                assert forall|i: int|
                    0 <= i < n - 1 && !u2.contains(i as usize) implies #[trigger] self.stroke_delta(
                    l,
                    a,
                    b,
                    i,
                    m,
                ) == 0 by {
                    if u.contains(i as usize) {
                        let k = choose|k: int| 0 <= k < u.len() && u[k] == i as usize;
                        assert(k != u.len() - 1);
                        assert(u2[k] == i as usize);
                    }
                }
                self.lemma_visit_sum_all(l, a, b, m, u2, n - 1);
            } else {
                assert forall|k: int| 0 <= k < u.len() implies #[trigger] u[k] < n - 1 by {
                    if k < u.len() - 1 {
                        assert(u[k] < u[u.len() - 1]);
                    }
                }
                assert(!u.contains((n - 1) as usize)) by {
                    if u.contains((n - 1) as usize) {
                        let k = choose|k: int| 0 <= k < u.len() && u[k] == (n - 1) as usize;
                        assert(u[k] < n - 1);
                    }
                }
                assert(self.stroke_delta(l, a, b, n - 1, m) == 0);
                self.lemma_visit_sum_all(l, a, b, m, u, n - 1);
            }
        } else if u.len() > 0 {
            assert(u[0] < n);
        }
    }

    /// The touched strokes are strictly ascending, exist, and include every
    /// stroke that uses `a` or `b`.
    proof fn lemma_touched(&self, a: int, b: int)
        requires
            self.data.index_ok(),
            0 <= a < self.data.num_positions(),
            0 <= b < self.data.num_positions(),
        ensures
            strictly_ascending(self.touched(a, b)),
            forall|k: int|
                0 <= k < self.touched(a, b).len() ==> #[trigger] self.touched(a, b)[k]
                    < self.data.strokes@.len(),
            forall|i: int|
                0 <= i < self.data.strokes@.len() ==> (#[trigger] self.touched(a, b).contains(
                    i as usize,
                ) <==> (self.data.strokes@[i].nstroke.positions().contains(a as usize)
                    || self.data.strokes@[i].nstroke.positions().contains(b as usize))),
    {
        let xs = self.data.position_strokes@[a]@;
        let ys = self.data.position_strokes@[b]@;
        lemma_merge_union(xs, ys);
        let u = self.touched(a, b);
        assert forall|k: int| 0 <= k < u.len() implies #[trigger] u[k] < self.data.strokes@.len() by {
            assert(u.contains(u[k]));
            if xs.contains(u[k]) {
                let w = choose|w: int| 0 <= w < xs.len() && xs[w] == u[k];
                assert(xs[w] < self.data.strokes@.len());
            } else {
                let w = choose|w: int| 0 <= w < ys.len() && ys[w] == u[k];
                assert(ys[w] < self.data.strokes@.len());
            }
        }
    }

    /// Exchanging the characters at `a` and `b` changes each statistic by
    /// exactly the sum of the changes of the strokes listed for `a` or `b`:
    /// recomputing the statistics after the exchange gives the statistics
    /// before it plus `swap_delta`.
    pub proof fn lemma_swap_delta_exact(&self, l: Seq<usize>, a: int, b: int)
        requires
            self.wf(),
            self.fits(l),
            0 <= a < l.len(),
            0 <= b < l.len(),
        ensures
            forall|m: int|
                0 <= m < self.data.metrics@.len() ==> #[trigger] self.stats(swapped(l, a, b))[m]
                    == self.stats(l)[m] + self.swap_delta(l, a, b, m),
    {
        let n = self.data.strokes@.len() as int;
        assert(n == self.data.strokes.len());
        self.lemma_touched(a, b);
        let u = self.touched(a, b);
        assert forall|m: int| 0 <= m < self.data.metrics@.len() implies #[trigger] self.stats(
            swapped(l, a, b),
        )[m] == self.stats(l)[m] + self.swap_delta(l, a, b, m) by {
            assert forall|i: int|
                0 <= i < n && !u.contains(i as usize) implies #[trigger] self.stroke_delta(
                l,
                a,
                b,
                i,
                m,
            ) == 0 by {
                assert(self.data.strokes@[i].nstroke.within(self.data.num_positions()));
                self.lemma_untouched(l, a, b, i, m);
            }
            self.lemma_visit_sum_all(l, a, b, m, u, n);
            self.lemma_stat_difference(l, a, b, m, n);
        }
    }
}

impl MetricData {
    /// Builds the catalogue for a layout of `num_positions` positions,
    /// indexing for each position the strokes that use it, in ascending
    /// order and each stroke once.
    #[must_use]
    pub fn from(metrics: Vec<NgramType>, strokes: Vec<NstrokeData>, num_positions: usize) -> (r: Self)
        requires
            forall|i: int|
                0 <= i < strokes@.len() ==> #[trigger] strokes@[i].nstroke.within(
                    num_positions as int,
                ),
        ensures
            r.metrics == metrics,
            r.strokes == strokes,
            r.num_positions() == num_positions,
            r.index_ok(),
    {
        let mut position_strokes: Vec<Vec<NstrokeIndex>> = Vec::new();
        for p in 0..num_positions
            invariant
                position_strokes@.len() == p,
                forall|q: int| 0 <= q < p ==> (#[trigger] position_strokes@[q])@.len() == 0,
        {
            position_strokes.push(Vec::new());
        }
        let n = strokes.len();
        for i in 0..n
            invariant
                n == strokes@.len(),
                forall|i: int|
                    0 <= i < strokes@.len() ==> #[trigger] strokes@[i].nstroke.within(
                        num_positions as int,
                    ),
                position_strokes@.len() == num_positions,
                forall|p: int|
                    #![trigger position_strokes@[p]]
                    0 <= p < num_positions ==> {
                        &&& strictly_ascending(position_strokes@[p]@)
                        &&& forall|k: int|
                            0 <= k < position_strokes@[p]@.len() ==> #[trigger] position_strokes@[p]@[k]
                                < i
                        &&& forall|s: int|
                            0 <= s < i ==> (#[trigger] position_strokes@[p]@.contains(s as usize)
                                <==> strokes@[s].nstroke.positions().contains(p as usize))
                    },
        {
            let positions = strokes[i].nstroke.to_vec();
            proof {
                strokes@[i as int].nstroke.lemma_within(num_positions as int);
            }
            for k in 0..positions.len()
                invariant
                    n == strokes@.len(),
                    i < n,
                    positions@ == strokes@[i as int].nstroke.positions(),
                    forall|k: int|
                        0 <= k < positions@.len() ==> #[trigger] positions@[k] < num_positions,
                    position_strokes@.len() == num_positions,
                    forall|p: int|
                        #![trigger position_strokes@[p]]
                        0 <= p < num_positions ==> {
                            &&& strictly_ascending(position_strokes@[p]@)
                            &&& forall|k: int|
                                0 <= k < position_strokes@[p]@.len()
                                    ==> #[trigger] position_strokes@[p]@[k] <= i
                            &&& forall|s: int|
                                0 <= s < i ==> (#[trigger] position_strokes@[p]@.contains(
                                    s as usize,
                                ) <==> strokes@[s].nstroke.positions().contains(p as usize))
                            &&& position_strokes@[p]@.contains(i) <==> positions@.take(
                                k as int,
                            ).contains(p as usize)
                        },
            {
                let pos = positions[k];
                let row_len = position_strokes[pos].len();
                let ghost before = position_strokes@;
                if row_len == 0 || position_strokes[pos][row_len - 1] != i {
                    position_strokes[pos].push(i);
                }
                proof {
                    let row0 = before[pos as int]@;
                    let row = position_strokes@[pos as int]@;
                    lemma_push_contains(positions@, k as int);
                    if row_len > 0 {
                        assert(row0[row_len - 1] <= i);
                    }
                    assert(row0.contains(i) ==> row0[row_len - 1] == i) by {
                        if row0.contains(i) {
                            let w = choose|w: int| 0 <= w < row0.len() && row0[w] == i;
                            if w < row_len - 1 {
                                assert(row0[w] < row0[row_len - 1]);
                            }
                        }
                    }
                    if row.len() > row_len {
                        assert(row =~= row0.push(i));
                        assert forall|x: usize| #[trigger] row.contains(x) <==> row0.contains(x) || x == i by {
                            if row.contains(x) {
                                let w = choose|w: int| 0 <= w < row.len() && row[w] == x;
                                if w < row_len {
                                    assert(row0[w] == x);
                                }
                            }
                            if row0.contains(x) {
                                let w = choose|w: int| 0 <= w < row0.len() && row0[w] == x;
                                assert(row[w] == x);
                            }
                            if x == i {
                                assert(row[row_len as int] == x);
                            }
                        }
                    } else {
                        assert(row0.contains(i)) by {
                            assert(row0[row_len - 1] == i);
                        }
                    }
                }
            }
            proof {
                assert(positions@.take(positions@.len() as int) =~= positions@);
            }
        }
        Self { metrics, strokes, position_strokes }
    }
}

impl MetricData {
    /// The largest magnitude a statistic, or a change of one, can reach.
    pub open spec fn stat_bound(&self) -> int {
        self.mass(self.strokes@.len() as int) * count_max()
    }

    /// The mass of a prefix of the strokes is at most that of a longer one.
    proof fn lemma_mass_prefix(&self, i: int, n: int)
        requires
            0 <= i <= n,
        ensures
            0 <= self.mass(i) <= self.mass(n),
        decreases n,
    {
        if n > 0 {
            if i < n {
                self.lemma_mass_prefix(i, n - 1);
            } else {
                self.lemma_mass_prefix(n - 1, n - 1);
            }
            lemma_weight_mass_prefix(
                self.strokes@[n - 1].amounts@,
                0,
                self.strokes@[n - 1].amounts@.len() as int,
            );
        }
    }
}

impl Analyzer {
    /// A statistic is bounded by the mass of the strokes summed.
    proof fn lemma_stat_bound(&self, l: Seq<usize>, m: int, n: int)
        requires
            0 <= n,
        ensures
            -self.data.mass(n) * count_max() <= self.stat(l, m, n) <= self.data.mass(n) * count_max(),
        decreases n,
    {
        if n > 0 {
            self.lemma_stat_bound(l, m, n - 1);
            let am = self.data.strokes@[n - 1].amounts@;
            lemma_weighted_bound(
                self.data.metrics@,
                am,
                m,
                self.base_freq(l, n - 1),
                self.skip_freq(l, n - 1),
                am.len() as int,
            );
            let x = self.data.mass(n - 1);
            let y = self.data.stroke_mass(n - 1);
            assert(x * count_max() + y * count_max() == (x + y) * count_max()) by (nonlinear_arith);
        }
    }

    /// The change of one stroke is bounded by its mass.
    proof fn lemma_stroke_delta_bound(&self, l: Seq<usize>, a: int, b: int, i: int, m: int)
        ensures
            -self.data.stroke_mass(i) * count_max() <= self.stroke_delta(l, a, b, i, m)
                <= self.data.stroke_mass(i) * count_max(),
            0 <= self.data.stroke_mass(i),
    {
        let am = self.data.strokes@[i].amounts@;
        let l2 = swapped(l, a, b);
        lemma_weighted_linear(
            self.data.metrics@,
            am,
            m,
            self.base_freq(l2, i),
            self.skip_freq(l2, i),
            self.base_freq(l, i),
            self.skip_freq(l, i),
            am.len() as int,
        );
        lemma_weighted_bound(
            self.data.metrics@,
            am,
            m,
            self.base_freq(l2, i) - self.base_freq(l, i),
            self.skip_freq(l2, i) - self.skip_freq(l, i),
            am.len() as int,
        );
    }

    /// Sums stroke changes along `ids` within the summed masses.
    proof fn lemma_visit_sum_bound(&self, l: Seq<usize>, a: int, b: int, ids: Seq<usize>, m: int)
        ensures
            -self.data.visit_mass(ids) * count_max() <= self.visit_sum(l, a, b, ids, m)
                <= self.data.visit_mass(ids) * count_max(),
        decreases ids.len(),
    {
        if ids.len() > 0 {
            self.lemma_visit_sum_bound(l, a, b, ids.drop_last(), m);
            self.lemma_stroke_delta_bound(l, a, b, ids.last() as int, m);
            let x = self.data.visit_mass(ids.drop_last());
            let y = self.data.stroke_mass(ids.last() as int);
            assert(x * count_max() + y * count_max() == (x + y) * count_max()) by (nonlinear_arith);
        }
    }
}

impl Analyzer {
    /// The difference `a - b` of two counts, as a signed number.
    #[must_use]
    pub fn diff_freqs(a: u32, b: u32) -> (r: i64)
        ensures
            r == a - b,
    {
        a as i64 - b as i64
    }

    #[must_use]
    pub fn from(data: MetricData, corpus: Corpus) -> (r: Self)
        ensures
            r.data == data,
            r.corpus == corpus,
    {
        Self { data, corpus }
    }

    /// Calculates the statistics of a layout: for every metric, the sum
    /// over the strokes feeding it of weight times frequency.
    #[must_use]
    pub fn calc_stats(&self, l: &Layout) -> (r: Vec<i64>)
        requires
            self.wf(),
            self.fits(l@),
        ensures
            r@.len() == self.data.metrics@.len(),
            forall|m: int| 0 <= m < r@.len() ==> r@[m] == #[trigger] self.stats(l@)[m],
    {
        let num_metrics = self.data.metrics.len();
        let mut stats: Vec<i64> = vec![0; num_metrics];
        let n = self.data.strokes.len();
        let mut i: usize = 0;
        while i < n
            invariant
                self.wf(),
                self.fits(l@),
                i <= n,
                n == self.data.strokes@.len(),
                num_metrics == self.data.metrics@.len(),
                stats@.len() == num_metrics,
                forall|m: int| 0 <= m < num_metrics ==> stats@[m] == #[trigger] self.stat(l@, m, i as int),
            decreases n - i,
        {
            let stroke = &self.data.strokes[i];
            let ns = &stroke.nstroke;
            assert(self.data.strokes@[i as int].nstroke.within(self.data.num_positions()));
            let basefreq = l.frequency(&self.corpus, ns, None);
            let skipfreq: u32 = match ns {
                Nstroke::Bistroke(_) => l.frequency(&self.corpus, ns, Some(NgramType::Skipgram)),
                _ => 0,
            };
            let ghost am = stroke.amounts@;
            proof {
                self.data.lemma_mass_prefix(i as int + 1, n as int);
                assert forall|m: int| 0 <= m < num_metrics implies -self.data.mass(i as int)
                    * count_max() <= #[trigger] self.stat(l@, m, i as int) <= self.data.mass(i as int)
                    * count_max() by {
                    self.lemma_stat_bound(l@, m, i as int);
                }
                let x = self.data.mass(i as int);
                let y = self.data.stroke_mass(i as int);
                let z = self.data.mass(n as int);
                assert(x * count_max() + y * count_max() <= z * count_max()) by (nonlinear_arith)
                    requires
                        x + y <= z,
                ;
                assert forall|m: int| 0 <= m < num_metrics implies stats@[m] == #[trigger] self.stat(
                    l@,
                    m,
                    i as int,
                ) + weighted(self.data.metrics@, am, m, basefreq as int, skipfreq as int, 0) by {}
            }
            let na = stroke.amounts.len();
            let mut j: usize = 0;
            while j < na
                invariant
                    j <= na,
                    self.wf(),
                    self.fits(l@),
                    n == self.data.strokes@.len(),
                    i < n,
                    am == self.data.strokes@[i as int].amounts@,
                    na == am.len(),
                    num_metrics == self.data.metrics@.len(),
                    stats@.len() == num_metrics,
                    basefreq == self.base_freq(l@, i as int),
                    skipfreq == self.skip_freq(l@, i as int),
                    self.data.mass(i as int) * count_max() + self.data.stroke_mass(i as int)
                        * count_max() <= i64::MAX,
                    forall|m: int|
                        0 <= m < num_metrics ==> -self.data.mass(i as int) * count_max()
                            <= #[trigger] self.stat(l@, m, i as int) <= self.data.mass(i as int)
                            * count_max(),
                    forall|m: int|
                        0 <= m < num_metrics ==> stats@[m] == #[trigger] self.stat(l@, m, i as int)
                            + weighted(self.data.metrics@, am, m, basefreq as int, skipfreq as int, j as int),
                decreases na - j,
            {
                let amount = &self.data.strokes[i].amounts[j];
                let metric = amount.metric;
                assert(metric < num_metrics);
                let freq = if self.data.metrics[metric] == NgramType::Skipgram {
                    skipfreq
                } else {
                    basefreq
                };
                proof {
                    assert(-2147483648 * count_max() <= (amount.amount as int) * (freq as int)
                        <= 2147483648 * count_max()) by (nonlinear_arith)
                        requires
                            -2147483648 <= amount.amount <= 2147483647,
                            0 <= freq <= count_max(),
                    ;
                    lemma_weighted_bound(
                        self.data.metrics@,
                        am,
                        metric as int,
                        basefreq as int,
                        skipfreq as int,
                        j as int + 1,
                    );
                    lemma_weight_mass_prefix(am, j as int + 1, na as int);
                    let y1 = weight_mass(am, j as int + 1);
                    let y = self.data.stroke_mass(i as int);
                    assert(y1 * count_max() <= y * count_max()) by (nonlinear_arith)
                        requires
                            y1 <= y,
                    ;
                }
                let add: i64 = (amount.amount as i64) * (freq as i64);
                let cur = stats[metric];
                assert(cur == self.stat(l@, metric as int, i as int) + weighted(
                    self.data.metrics@,
                    am,
                    metric as int,
                    basefreq as int,
                    skipfreq as int,
                    j as int,
                ));
                stats.set(metric, cur + add);
                proof {
                    assert forall|m: int| 0 <= m < num_metrics implies stats@[m] == #[trigger] self.stat(
                        l@,
                        m,
                        i as int,
                    ) + weighted(
                        self.data.metrics@,
                        am,
                        m,
                        basefreq as int,
                        skipfreq as int,
                        j as int + 1,
                    ) by {}
                }
                j += 1;
            }
            proof {
                assert forall|m: int| 0 <= m < num_metrics implies stats@[m] == #[trigger] self.stat(
                    l@,
                    m,
                    i as int + 1,
                ) by {
                    assert(self.stat(l@, m, i as int + 1) == self.stat(l@, m, i as int)
                        + self.entry_term(l@, i as int, m));
                }
            }
            i += 1;
        }
        proof {
            assert forall|m: int| 0 <= m < stats@.len() implies stats@[m] == #[trigger] self.stats(
                l@,
            )[m] by {}
        }
        stats
    }
}

/// The character at `p` once the characters at `swap.a` and `swap.b` are exchanged.
fn char_after(l: &Layout, swap: &Swap, p: usize) -> (r: usize)
    requires
        p < l@.len(),
        swap.a < l@.len(),
        swap.b < l@.len(),
    ensures
        r == swapped(l@, swap.a as int, swap.b as int)[p as int],
{
    if p == swap.b {
        l.0[swap.a]
    } else if p == swap.a {
        l.0[swap.b]
    } else {
        l.0[p]
    }
}

impl Analyzer {
    /// The frequency of stroke `ns` once the characters at `swap.a` and
    /// `swap.b` are exchanged, read without changing `l`.
    fn frequency_after(&self, l: &Layout, ns: &Nstroke, swap: &Swap, skip: bool) -> (r: u32)
        requires
            self.corpus.tables_ok(),
            chars_valid(&self.corpus, l@),
            ns.within(l@.len() as int),
            swap.a < l@.len(),
            swap.b < l@.len(),
        ensures
            r == stroke_frequency(&self.corpus, swapped(l@, swap.a as int, swap.b as int), *ns, skip),
    {
        let corpus = &self.corpus;
        let ghost l2 = swapped(l@, swap.a as int, swap.b as int);
        assert(chars_valid(corpus, l2)) by {
            assert forall|i: int| 0 <= i < l2.len() implies #[trigger] corpus.valid_char(l2[i] as int) by {
                assert(corpus.valid_char(l@[i] as int));
                assert(corpus.valid_char(l@[swap.a as int] as int));
                assert(corpus.valid_char(l@[swap.b as int] as int));
            }
        }
        match ns {
            Nstroke::Monostroke(p) => {
                let c = char_after(l, swap, *p);
                assert(corpus.valid_char(l2[*p as int] as int));
                corpus.chars[c]
            },
            Nstroke::Bistroke(ps) => {
                let c1 = char_after(l, swap, ps[0]);
                let c2 = char_after(l, swap, ps[1]);
                assert(corpus.valid_char(l2[ps@[0] as int] as int));
                assert(corpus.valid_char(l2[ps@[1] as int] as int));
                let k = corpus.bigram_idx(c1, c2);
                if skip {
                    corpus.skipgrams[k]
                } else {
                    corpus.bigrams[k]
                }
            },
            Nstroke::Tristroke(ps) => {
                let c1 = char_after(l, swap, ps[0]);
                let c2 = char_after(l, swap, ps[1]);
                let c3 = char_after(l, swap, ps[2]);
                assert(corpus.valid_char(l2[ps@[0] as int] as int));
                assert(corpus.valid_char(l2[ps@[1] as int] as int));
                assert(corpus.valid_char(l2[ps@[2] as int] as int));
                let k = corpus.trigram_idx(c1, c2, c3);
                corpus.trigrams[k]
            },
        }
    }

    /// Adds to `diffs` the change of stroke `id` under the exchange.
    fn add_stroke_delta(&self, diffs: &mut Vec<i64>, l: &Layout, swap: &Swap, id: usize)
        requires
            self.wf(),
            self.fits(l@),
            swap.a < l@.len(),
            swap.b < l@.len(),
            id < self.data.strokes@.len(),
            old(diffs)@.len() == self.data.metrics@.len(),
            forall|m: int|
                0 <= m < old(diffs)@.len() ==> -(i64::MAX - self.data.stroke_mass(id as int)
                    * count_max()) <= #[trigger] old(diffs)@[m] <= i64::MAX - self.data.stroke_mass(
                    id as int,
                ) * count_max(),
        ensures
            final(diffs)@.len() == old(diffs)@.len(),
            forall|m: int|
                0 <= m < old(diffs)@.len() ==> #[trigger] final(diffs)@[m] == old(diffs)@[m]
                    + self.stroke_delta(l@, swap.a as int, swap.b as int, id as int, m),
    {
        let ghost a = swap.a as int;
        let ghost b = swap.b as int;
        let ghost l2 = swapped(l@, a, b);
        let ghost old_diffs = diffs@;
        let stroke = &self.data.strokes[id];
        let ns = &stroke.nstroke;
        assert(ns.within(self.data.num_positions()));
        let base0 = l.frequency(&self.corpus, ns, None);
        let base1 = self.frequency_after(l, ns, swap, false);
        let (skip0, skip1): (u32, u32) = match ns {
            Nstroke::Bistroke(_) => (
                l.frequency(&self.corpus, ns, Some(NgramType::Skipgram)),
                self.frequency_after(l, ns, swap, true),
            ),
            _ => (0, 0),
        };
        let db = Analyzer::diff_freqs(base1, base0);
        let ds = Analyzer::diff_freqs(skip1, skip0);
        let ghost am = stroke.amounts@;
        let na = stroke.amounts.len();
        proof {
            assert forall|m: int| 0 <= m < old_diffs.len() implies #[trigger] self.stroke_delta(
                l@,
                a,
                b,
                id as int,
                m,
            ) == weighted(self.data.metrics@, am, m, db as int, ds as int, na as int) by {
                lemma_weighted_linear(
                    self.data.metrics@,
                    am,
                    m,
                    base1 as int,
                    skip1 as int,
                    base0 as int,
                    skip0 as int,
                    na as int,
                );
            }
        }
        let mut j: usize = 0;
        while j < na
            invariant
                self.wf(),
                j <= na,
                na == am.len(),
                am == self.data.strokes@[id as int].amounts@,
                id < self.data.strokes@.len(),
                diffs@.len() == old_diffs.len(),
                old_diffs.len() == self.data.metrics@.len(),
                -count_max() <= db <= count_max(),
                -count_max() <= ds <= count_max(),
                forall|m: int|
                    0 <= m < old_diffs.len() ==> -(i64::MAX - self.data.stroke_mass(id as int)
                        * count_max()) <= #[trigger] old_diffs[m] <= i64::MAX
                        - self.data.stroke_mass(id as int) * count_max(),
                forall|m: int|
                    0 <= m < old_diffs.len() ==> #[trigger] diffs@[m] == old_diffs[m] + weighted(
                        self.data.metrics@,
                        am,
                        m,
                        db as int,
                        ds as int,
                        j as int,
                    ),
            decreases na - j,
        {
            let amount = &self.data.strokes[id].amounts[j];
            let metric = amount.metric;
            assert(metric < old_diffs.len());
            let d = if self.data.metrics[metric] == NgramType::Skipgram {
                ds
            } else {
                db
            };
            proof {
                assert(-2147483648 * count_max() <= (amount.amount as int) * (d as int)
                    <= 2147483648 * count_max()) by (nonlinear_arith)
                    requires
                        -2147483648 <= amount.amount <= 2147483647,
                        -count_max() <= d <= count_max(),
                ;
                lemma_weighted_bound(
                    self.data.metrics@,
                    am,
                    metric as int,
                    db as int,
                    ds as int,
                    j as int + 1,
                );
                lemma_weight_mass_prefix(am, j as int + 1, na as int);
                let y1 = weight_mass(am, j as int + 1);
                let y = self.data.stroke_mass(id as int);
                assert(y1 * count_max() <= y * count_max()) by (nonlinear_arith)
                    requires
                        y1 <= y,
                ;
            }
            let add: i64 = (amount.amount as i64) * d;
            let cur = diffs[metric];
            assert(cur == old_diffs[metric as int] + weighted(
                self.data.metrics@,
                am,
                metric as int,
                db as int,
                ds as int,
                j as int,
            ));
            diffs.set(metric, cur + add);
            j += 1;
        }
    }

    /// Adds to `diffs` how the statistics would change if the characters at
    /// `swap.a` and `swap.b` were exchanged, without changing `l`. Only the
    /// strokes listed for the two positions are visited, each once, by a
    /// two-pointer walk over their ascending lists. Each entry of `diffs`
    /// must leave room for the largest change the catalogue can make.
    pub fn swap_diff(&self, diffs: &mut Vec<i64>, l: &Layout, swap: &Swap)
        requires
            self.wf(),
            self.fits(l@),
            swap.a < l@.len(),
            swap.b < l@.len(),
            old(diffs)@.len() == self.data.metrics@.len(),
            forall|m: int|
                0 <= m < old(diffs)@.len() ==> -(i64::MAX - self.data.stat_bound())
                    <= #[trigger] old(diffs)@[m] <= i64::MAX - self.data.stat_bound(),
        ensures
            final(diffs)@.len() == old(diffs)@.len(),
            forall|m: int|
                0 <= m < old(diffs)@.len() ==> #[trigger] final(diffs)@[m] == old(diffs)@[m]
                    + self.swap_delta(l@, swap.a as int, swap.b as int, m),
            forall|m: int|
                0 <= m < old(diffs)@.len() ==> final(diffs)@[m] == old(diffs)@[m] + #[trigger] self.stats(
                    swapped(l@, swap.a as int, swap.b as int),
                )[m] - self.stats(l@)[m],
    {
        let ghost a = swap.a as int;
        let ghost b = swap.b as int;
        let ghost old_diffs = diffs@;
        let ghost n = self.data.strokes@.len() as int;
        let xs = &self.data.position_strokes[swap.a];
        let ys = &self.data.position_strokes[swap.b];
        let ghost merged = self.touched(a, b);
        proof {
            self.lemma_touched(a, b);
            self.data.lemma_visit_mass_bound(merged, n);
            self.lemma_swap_delta_exact(l@, a, b);
            assert(self.data.visit_mass(merged) * count_max() <= self.data.stat_bound())
                by (nonlinear_arith)
                requires
                    self.data.visit_mass(merged) <= self.data.mass(n),
                    self.data.stat_bound() == self.data.mass(n) * count_max(),
            ;
            assert(xs@.skip(0) =~= xs@);
            assert(ys@.skip(0) =~= ys@);
            assert(merged =~= Seq::<usize>::empty() + merged);
        }
        let mut i: usize = 0;
        let mut j: usize = 0;
        let ghost mut visited: Seq<usize> = Seq::empty();
        while i < xs.len() || j < ys.len()
            invariant
                self.wf(),
                self.fits(l@),
                swap.a < l@.len(),
                swap.b < l@.len(),
                a == swap.a,
                b == swap.b,
                n == self.data.strokes@.len(),
                xs@ == self.data.position_strokes@[a]@,
                ys@ == self.data.position_strokes@[b]@,
                merged == self.touched(a, b),
                strictly_ascending(xs@),
                strictly_ascending(ys@),
                forall|k: int| 0 <= k < merged.len() ==> #[trigger] merged[k] < n,
                self.data.visit_mass(merged) * count_max() <= self.data.stat_bound(),
                i <= xs.len(),
                j <= ys.len(),
                merged == visited + merge_union(xs@.skip(i as int), ys@.skip(j as int)),
                diffs@.len() == old_diffs.len(),
                old_diffs.len() == self.data.metrics@.len(),
                forall|m: int|
                    0 <= m < old_diffs.len() ==> -(i64::MAX - self.data.stat_bound())
                        <= #[trigger] old_diffs[m] <= i64::MAX - self.data.stat_bound(),
                forall|m: int|
                    0 <= m < old_diffs.len() ==> #[trigger] diffs@[m] == old_diffs[m]
                        + self.visit_sum(l@, a, b, visited, m),
            decreases xs.len() - i + ys.len() - j,
        {
            let ghost xr = xs@.skip(i as int);
            let ghost yr = ys@.skip(j as int);
            let id: usize;
            if i < xs.len() && (j >= ys.len() || xs[i] < ys[j]) {
                id = xs[i];
                i += 1;
                proof {
                    assert(xr.drop_first() =~= xs@.skip(i as int));
                }
            } else if j < ys.len() && (i >= xs.len() || ys[j] < xs[i]) {
                id = ys[j];
                j += 1;
                proof {
                    assert(yr.drop_first() =~= ys@.skip(j as int));
                }
            } else {
                id = xs[i];
                i += 1;
                j += 1;
                proof {
                    assert(xr.drop_first() =~= xs@.skip(i as int));
                    assert(yr.drop_first() =~= ys@.skip(j as int));
                }
            }
            let ghost rest = merge_union(xs@.skip(i as int), ys@.skip(j as int));
            proof {
                assert(merge_union(xr, yr) == seq![id] + rest);
                assert(merged =~= visited.push(id) + rest);
                assert(merged[visited.len() as int] == id);
                assert(visited.push(id).drop_last() =~= visited);
                self.data.lemma_visit_mass_prefix(visited.push(id), rest);
                self.data.lemma_visit_mass_prefix(visited, seq![id]);
                assert(visited + seq![id] =~= visited.push(id));
                lemma_weight_mass_prefix(
                    self.data.strokes@[id as int].amounts@,
                    0,
                    self.data.strokes@[id as int].amounts@.len() as int,
                );
                let vm = self.data.visit_mass(visited);
                let sm = self.data.stroke_mass(id as int);
                let mm = self.data.visit_mass(merged);
                assert(vm * count_max() + sm * count_max() <= mm * count_max()) by (nonlinear_arith)
                    requires
                        vm + sm <= mm,
                ;
                assert forall|m: int| 0 <= m < diffs@.len() implies -(i64::MAX
                    - self.data.stroke_mass(id as int) * count_max()) <= #[trigger] diffs@[m]
                    <= i64::MAX - self.data.stroke_mass(id as int) * count_max() by {
                    self.lemma_visit_sum_bound(l@, a, b, visited, m);
                }
            }
            self.add_stroke_delta(diffs, l, swap, id);
            proof {
                visited = visited.push(id);
            }
        }
        proof {
            assert(xs@.skip(i as int) =~= Seq::<usize>::empty());
            assert(ys@.skip(j as int) =~= Seq::<usize>::empty());
            assert(visited =~= merged);
        }
    }
}

impl Analyzer {
    /// The change from an exchange does not depend on which of the two
    /// positions is named first.
    pub proof fn lemma_swap_delta_symmetric(&self, l: Seq<usize>, a: int, b: int)
        requires
            self.wf(),
            self.fits(l),
            0 <= a < l.len(),
            0 <= b < l.len(),
        ensures
            forall|m: int|
                0 <= m < self.data.metrics@.len() ==> #[trigger] self.swap_delta(l, a, b, m)
                    == self.swap_delta(l, b, a, m),
    {
        self.lemma_swap_delta_exact(l, a, b);
        self.lemma_swap_delta_exact(l, b, a);
        assert(swapped(l, a, b) =~= swapped(l, b, a));
        assert forall|m: int| 0 <= m < self.data.metrics@.len() implies #[trigger] self.swap_delta(
            l,
            a,
            b,
            m,
        ) == self.swap_delta(l, b, a, m) by {
            assert(self.stats(swapped(l, a, b))[m] == self.stats(l)[m] + self.swap_delta(l, a, b, m));
            assert(self.stats(swapped(l, b, a))[m] == self.stats(l)[m] + self.swap_delta(l, b, a, m));
        }
    }

    /// Exchanging two positions that no stroke uses changes no statistic.
    pub proof fn lemma_swap_delta_unused(&self, l: Seq<usize>, a: int, b: int)
        requires
            self.wf(),
            0 <= a < self.data.num_positions(),
            0 <= b < self.data.num_positions(),
            forall|i: int|
                0 <= i < self.data.strokes@.len() ==> !(#[trigger] self.data.strokes@[i].nstroke.positions()).contains(
                    a as usize,
                ) && !self.data.strokes@[i].nstroke.positions().contains(b as usize),
        ensures
            forall|m: int| 0 <= m < self.data.metrics@.len() ==> #[trigger] self.swap_delta(l, a, b, m) == 0,
    {
        self.lemma_touched(a, b);
        let u = self.touched(a, b);
        if u.len() > 0 {
            assert(u[0] < self.data.strokes@.len());
            assert(u.contains(u[0] as usize));
            assert(self.data.strokes@[u[0] as int].nstroke.positions().contains(a as usize)
                || self.data.strokes@[u[0] as int].nstroke.positions().contains(b as usize));
        }
        assert(u.len() == 0);
    }

    /// Applying the same exchange twice restores the layout and so its
    /// statistics, and the second exchange changes each statistic by the
    /// opposite of the first.
    pub proof fn lemma_swap_twice(&self, l: Seq<usize>, a: int, b: int)
        requires
            self.wf(),
            self.fits(l),
            0 <= a < l.len(),
            0 <= b < l.len(),
        ensures
            swapped(swapped(l, a, b), a, b) == l,
            self.stats(swapped(swapped(l, a, b), a, b)) == self.stats(l),
            forall|m: int|
                0 <= m < self.data.metrics@.len() ==> #[trigger] self.swap_delta(
                    swapped(l, a, b),
                    a,
                    b,
                    m,
                ) == -self.swap_delta(l, a, b, m),
    {
        let l1 = swapped(l, a, b);
        assert(swapped(l1, a, b) =~= l);
        assert(chars_valid(&self.corpus, l1)) by {
            assert forall|i: int| 0 <= i < l1.len() implies #[trigger] self.corpus.valid_char(
                l1[i] as int,
            ) by {
                assert(self.corpus.valid_char(l[i] as int));
                assert(self.corpus.valid_char(l[a] as int));
                assert(self.corpus.valid_char(l[b] as int));
            }
        }
        self.lemma_swap_delta_exact(l, a, b);
        self.lemma_swap_delta_exact(l1, a, b);
        assert forall|m: int| 0 <= m < self.data.metrics@.len() implies #[trigger] self.swap_delta(
            l1,
            a,
            b,
            m,
        ) == -self.swap_delta(l, a, b, m) by {
            assert(self.stats(l1)[m] == self.stats(l)[m] + self.swap_delta(l, a, b, m));
            assert(self.stats(swapped(l1, a, b))[m] == self.stats(l1)[m] + self.swap_delta(l1, a, b, m));
        }
    }
}

/// A prefix one longer holds what the shorter one holds, and the new element.
proof fn lemma_push_contains(s: Seq<usize>, k: int)
    requires
        0 <= k < s.len(),
    ensures
        forall|x: usize| #[trigger] s.take(k + 1).contains(x) <==> s.take(k).contains(x) || x == s[k],
{
    let t = s.take(k + 1);
    let t0 = s.take(k);
    assert forall|x: usize| #[trigger] t.contains(x) <==> t0.contains(x) || x == s[k] by {
        if t.contains(x) {
            let w = choose|w: int| 0 <= w < t.len() && t[w] == x;
            if w < k {
                assert(t0[w] == x);
            }
        }
        if t0.contains(x) {
            let w = choose|w: int| 0 <= w < t0.len() && t0[w] == x;
            assert(t[w] == x);
        }
        if x == s[k] {
            assert(t[k] == x);
        }
    }
}

} // verus!
