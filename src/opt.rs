use rand::rngs::StdRng;
use rand::{Rng, SeedableRng};
use rayon::iter::{IndexedParallelIterator, IntoParallelRefMutIterator, ParallelIterator};
use vstd::prelude::*;

use crate::analysis::Analyzer;
use crate::layout::{lemma_swapped_multiset, swapped, Layout, Swap};

verus! {

/// rand's `StdRng`, carried as an opaque value.
#[verifier::external_type_specification]
#[verifier::external_body]
pub struct ExStdRng(StdRng);

/// Relies on rand's `SeedableRng::seed_from_u64` for `StdRng`: a generator
/// determined by the seed.
#[verifier::external_body]
fn seeded_rng(seed: u64) -> StdRng {
    StdRng::seed_from_u64(seed)
}

/// Relies on rand's `Rng::gen_range` over `0..n`: a value drawn uniformly
/// below `n`. The range must not be empty, or `gen_range` panics.
#[verifier::external_body]
fn draw_below(rng: &mut StdRng, n: u64) -> (r: u64)
    requires
        n > 0,
    ensures
        r < n,
{
    rng.gen_range(0..n)
}

/// A scoring of metric vectors. Lower scores are better.
pub trait Objective {
    /// The objective can score a metric vector of `num_metrics` entries.
    spec fn accepts(&self, num_metrics: nat) -> bool;

    /// The score of a metric vector.
    spec fn spec_score(&self, stats: Seq<int>) -> int;

    /// Returns how well the stats meet the objective.
    fn score(&self, stats: &Vec<i64>) -> (r: i128)
        requires
            self.accepts(stats@.len()),
        ensures
            r == self.spec_score(stats@.map_values(|x: i64| x as int)),
    ;
}

/// A weight on one metric.
#[derive(Debug, Clone, Copy)]
pub struct Weight {
    pub metric: usize,
    pub weight: i32,
}

/// The plainest objective: each selected metric times its weight, summed.
pub struct WeightsObjective {
    pub weights: Vec<Weight>,
}

/// Sum over the first `k` weights of weight times the metric it selects.
pub open spec fn weights_score(weights: Seq<Weight>, stats: Seq<int>, k: int) -> int
    decreases k,
{
    if k <= 0 {
        0
    } else {
        weights_score(weights, stats, k - 1) + weights[k - 1].weight * stats[weights[k - 1].metric as int]
    }
}

/// Sum of the absolute values of the first `k` weights.
pub open spec fn weights_mass(weights: Seq<Weight>, k: int) -> int
    decreases k,
{
    if k <= 0 {
        0
    } else {
        weights_mass(weights, k - 1) + if weights[k - 1].weight < 0 {
            -weights[k - 1].weight
        } else {
            weights[k - 1].weight as int
        }
    }
}

impl WeightsObjective {
    #[must_use]
    pub fn new(weights: Vec<Weight>) -> (r: Self)
        ensures
            r.weights == weights,
    {
        WeightsObjective { weights }
    }
}

impl Objective for WeightsObjective {
    /// Every weight selects an existing metric and the weights are small
    /// enough for the score of any `i64` vector to fit in an `i128`.
    open spec fn accepts(&self, num_metrics: nat) -> bool {
        &&& forall|k: int|
            0 <= k < self.weights@.len() ==> #[trigger] self.weights@[k].metric < num_metrics
        &&& weights_mass(self.weights@, self.weights@.len() as int) <= i64::MAX
    }

    open spec fn spec_score(&self, stats: Seq<int>) -> int {
        weights_score(self.weights@, stats, self.weights@.len() as int)
    }

    fn score(&self, stats: &Vec<i64>) -> (r: i128) {
        let ghost s = stats@.map_values(|x: i64| x as int);
        let n = self.weights.len();
        let mut acc: i128 = 0;
        let mut k: usize = 0;
        while k < n
            invariant
                n == self.weights@.len(),
                k <= n,
                s == stats@.map_values(|x: i64| x as int),
                self.accepts(stats@.len()),
                acc == weights_score(self.weights@, s, k as int),
                -weights_mass(self.weights@, k as int) * 0x8000_0000_0000_0000 <= acc
                    <= weights_mass(self.weights@, k as int) * 0x8000_0000_0000_0000,
            decreases n - k,
        {
            let w = self.weights[k];
            assert(w.metric < stats@.len());
            let x = stats[w.metric];
            proof {
                lemma_weights_mass_prefix(self.weights@, k as int + 1, n as int);
                let aw: int = if w.weight < 0 {
                    -w.weight
                } else {
                    w.weight as int
                };
                let mk = weights_mass(self.weights@, k as int);
                assert(-aw * 0x8000_0000_0000_0000 <= (w.weight as int) * (x as int) <= aw
                    * 0x8000_0000_0000_0000) by (nonlinear_arith)
                    requires
                        aw == w.weight || aw == -w.weight,
                        aw >= 0,
                        -0x8000_0000_0000_0000 <= x < 0x8000_0000_0000_0000,
                ;
                assert(mk * 0x8000_0000_0000_0000 + aw * 0x8000_0000_0000_0000 == (mk + aw)
                    * 0x8000_0000_0000_0000) by (nonlinear_arith);
                assert((mk + aw) * 0x8000_0000_0000_0000 <= 0x7fff_ffff_ffff_ffff
                    * 0x8000_0000_0000_0000) by (nonlinear_arith)
                    requires
                        mk + aw <= 0x7fff_ffff_ffff_ffff,
                ;
            }
            acc = acc + (w.weight as i128) * (x as i128);
            k += 1;
        }
        acc
    }
}

/// Masses of weights only grow with the prefix.
proof fn lemma_weights_mass_prefix(weights: Seq<Weight>, j: int, k: int)
    requires
        j <= k,
    ensures
        0 <= weights_mass(weights, j) <= weights_mass(weights, k),
    decreases k,
{
    if k > 0 {
        if j < k {
            lemma_weights_mass_prefix(weights, j, k - 1);
        } else {
            lemma_weights_mass_prefix(weights, k - 1, k - 1);
        }
    }
}

/// Some swap in `swaps` moves position `p`.
pub open spec fn moves(swaps: Seq<Swap>, p: int) -> bool {
    exists|k: int| 0 <= k < swaps.len() && (swaps[k].a == p || swaps[k].b == p)
}

/// `after` came from `before` by exchanges among the positions `swaps`
/// moves: the same characters, and every other position unchanged.
pub open spec fn annealed_by(swaps: Seq<Swap>, before: Seq<usize>, after: Seq<usize>) -> bool {
    &&& after.len() == before.len()
    &&& after.to_multiset() == before.to_multiset()
    &&& forall|p: int| 0 <= p < before.len() && !moves(swaps, p) ==> #[trigger] after[p] == before[p]
}

/// Whether a candidate move is taken: always when it lowers the score,
/// otherwise when the draw falls below the remaining temperature. With the
/// draw uniform below the schedule's length, the chance of taking a move
/// that does not improve equals the temperature: the temperature is the
/// acceptance probability itself, not the exponent of a Boltzmann factor.
pub fn accepts_move(delta: i128, draw: u64, remaining: u64) -> (r: bool)
    ensures
        r == (delta < 0 || draw < remaining),
{
    delta < 0 || draw < remaining
}

/// Whether `p` is among `pins`.
fn is_pinned(pins: &Vec<usize>, p: usize) -> (r: bool)
    ensures
        r == pins@.contains(p),
{
    let mut k: usize = 0;
    while k < pins.len()
        invariant
            k <= pins.len(),
            forall|j: int| 0 <= j < k ==> pins@[j] != p,
        decreases pins.len() - k,
    {
        if pins[k] == p {
            assert(pins@[k as int] == p);
            return true;
        }
        k += 1;
    }
    false
}

/// `swaps` lists every ordered pair of positions below `n` of which neither
/// is pinned, each once, in ascending order of first and then second
/// position.
pub open spec fn candidate_list(swaps: Seq<Swap>, n: int, pins: Seq<usize>) -> bool {
    &&& forall|k: int|
        0 <= k < swaps.len() ==> {
            &&& #[trigger] swaps[k].a < n
            &&& swaps[k].b < n
            &&& !pins.contains(swaps[k].a)
            &&& !pins.contains(swaps[k].b)
        }
    &&& forall|a: usize, b: usize|
        a < n && b < n && !pins.contains(a) && !pins.contains(b) ==> exists|k: int|
            0 <= k < swaps.len() && #[trigger] swaps[k].a == a && #[trigger] swaps[k].b == b
    &&& forall|j: int, k: int|
        0 <= j < k < swaps.len() ==> swaps[j].a < swaps[k].a || (swaps[j].a == swaps[k].a
            && swaps[j].b < swaps[k].b)
}

/// Every ordered pair of positions below `n` of which neither is pinned,
/// the pairs of a position with itself included, in ascending order of
/// first and then second position.
pub fn possible_swaps(n: usize, pins: &Vec<usize>) -> (r: Vec<Swap>)
    ensures
        candidate_list(r@, n as int, pins@),
{
    let mut r: Vec<Swap> = Vec::new();
    let mut a: usize = 0;
    while a < n
        invariant
            a <= n,
            forall|k: int|
                0 <= k < r@.len() ==> {
                    &&& #[trigger] r@[k].a < a
                    &&& r@[k].b < n
                    &&& !pins@.contains(r@[k].a)
                    &&& !pins@.contains(r@[k].b)
                },
            forall|x: usize, y: usize|
                x < a && y < n && !pins@.contains(x) && !pins@.contains(y) ==> exists|k: int|
                    0 <= k < r@.len() && #[trigger] r@[k].a == x && #[trigger] r@[k].b == y,
            forall|j: int, k: int|
                0 <= j < k < r@.len() ==> r@[j].a < r@[k].a || (r@[j].a == r@[k].a && r@[j].b
                    < r@[k].b),
        decreases n - a,
    {
        let a_pinned = is_pinned(pins, a);
        let mut b: usize = 0;
        let ghost start = r@.len();
        while b < n
            invariant
                a < n,
                b <= n,
                start <= r@.len(),
                forall|k: int|
                    0 <= k < r@.len() ==> {
                        &&& #[trigger] r@[k].a <= a
                        &&& r@[k].b < n
                        &&& !pins@.contains(r@[k].a)
                        &&& !pins@.contains(r@[k].b)
                    },
                forall|k: int| 0 <= k < start ==> #[trigger] r@[k].a < a,
                forall|k: int| start <= k < r@.len() ==> #[trigger] r@[k].a == a && r@[k].b < b,
                a_pinned == pins@.contains(a),
                forall|x: usize, y: usize|
                    ((x < a) || (x == a && y < b)) && y < n && !pins@.contains(x) && !pins@.contains(
                        y,
                    ) ==> exists|k: int|
                        0 <= k < r@.len() && #[trigger] r@[k].a == x && #[trigger] r@[k].b == y,
                forall|j: int, k: int|
                    0 <= j < k < r@.len() ==> r@[j].a < r@[k].a || (r@[j].a == r@[k].a && r@[j].b
                        < r@[k].b),
            decreases n - b,
        {
            let ghost r0 = r@;
            let ghost b0 = b as int;
            if !a_pinned && !is_pinned(pins, b) {
                r.push(Swap::new(a, b));
                proof {
                    let last = r@.len() - 1;
                    assert(r@[last].a == a && r@[last].b == b);
                }
            }
            b += 1;
            proof {
                assert forall|k: int| start <= k < r@.len() implies #[trigger] r@[k].a == a && r@[k].b
                    < b by {
                    if k < r0.len() {
                        assert(r@[k] == r0[k]);
                        assert(r0[k].a == a);
                    }
                }
                assert forall|x: usize, y: usize|
                    ((x < a) || (x == a && y < b)) && y < n && !pins@.contains(x) && !pins@.contains(
                        y,
                    ) implies exists|k: int|
                    0 <= k < r@.len() && #[trigger] r@[k].a == x && #[trigger] r@[k].b == y by {
                    if x == a && y == b0 {
                        let last = r@.len() - 1;
                        assert(r@[last].a == x && r@[last].b == y);
                    } else {
                        let k = choose|k: int| 0 <= k < r0.len() && #[trigger] r0[k].a == x && #[trigger] r0[k].b == y;
                        assert(r@[k] == r0[k]);
                    }
                }
            }
        }
        a += 1;
    }
    r
}

/// The change to every metric that exchanging `swap.a` and `swap.b` in `l`
/// makes.
pub open spec fn swap_deltas(analyzer: &Analyzer, l: Seq<usize>, swap: Swap) -> Seq<int> {
    Seq::new(
        analyzer.data.metrics@.len(),
        |m: int| analyzer.swap_delta(l, swap.a as int, swap.b as int, m),
    )
}

/// The layout after one step of the schedule: the swap is taken when the
/// objective scores its change below zero, or when the draw falls below the
/// remaining temperature.
pub open spec fn step_result<O: Objective>(
    analyzer: &Analyzer,
    objective: &O,
    l: Seq<usize>,
    swap: Swap,
    draw: u64,
    remaining: u64,
) -> Seq<usize> {
    if objective.spec_score(swap_deltas(analyzer, l, swap)) < 0 || draw < remaining {
        swapped(l, swap.a as int, swap.b as int)
    } else {
        l
    }
}

/// The layout after the steps `choices` from `l`, each step a candidate
/// index into `swaps` and a draw. Step `t` has `cooling_steps - t` as its
/// remaining temperature.
pub open spec fn schedule_result<O: Objective>(
    analyzer: &Analyzer,
    objective: &O,
    swaps: Seq<Swap>,
    cooling_steps: u64,
    l: Seq<usize>,
    choices: Seq<(usize, u64)>,
) -> Seq<usize>
    decreases choices.len(),
{
    if choices.len() == 0 {
        l
    } else {
        step_result(
            analyzer,
            objective,
            schedule_result(analyzer, objective, swaps, cooling_steps, l, choices.drop_last()),
            swaps[choices.last().0 as int],
            choices.last().1,
            (cooling_steps - (choices.len() - 1)) as u64,
        )
    }
}

/// `choices` are the draws of a whole schedule: `cooling_steps + 1` steps,
/// each with a candidate index below `num_swaps` and a draw below
/// `cooling_steps`.
pub open spec fn full_schedule(choices: Seq<(usize, u64)>, num_swaps: nat, cooling_steps: u64) -> bool {
    &&& choices.len() == cooling_steps + 1
    &&& forall|t: int|
        0 <= t < choices.len() ==> #[trigger] choices[t].0 < num_swaps && choices[t].1
            < cooling_steps
}

/// What annealing makes of `before` with the candidates `swaps`: with no
/// candidates nothing changes; otherwise the result is a whole schedule of
/// steps applied to `before`, whatever the draws were. Either way the
/// layout keeps its characters and every position no candidate moves.
pub open spec fn anneal_outcome<O: Objective>(
    analyzer: &Analyzer,
    objective: &O,
    swaps: Seq<Swap>,
    cooling_steps: u64,
    before: Seq<usize>,
    after: Seq<usize>,
) -> bool {
    &&& analyzer.fits(after)
    &&& annealed_by(swaps, before, after)
    &&& swaps.len() == 0 ==> after == before
    &&& swaps.len() > 0 ==> exists|choices: Seq<(usize, u64)>|
        #[trigger] full_schedule(choices, swaps.len(), cooling_steps) && after == schedule_result(
            analyzer,
            objective,
            swaps,
            cooling_steps,
            before,
            choices,
        )
}

/// One step of annealing with the given draws: scores the change `swap`
/// would make through `objective`, takes the swap when `accepts_move` says
/// so, and leaves the accumulator `diffs` at zero again.
pub fn anneal_step<O: Objective>(
    analyzer: &Analyzer,
    objective: &O,
    l: &mut Layout,
    swap: &Swap,
    draw: u64,
    remaining: u64,
    diffs: &mut Vec<i64>,
)
    requires
        analyzer.wf(),
        analyzer.fits(old(l)@),
        objective.accepts(analyzer.data.metrics@.len()),
        swap.a < old(l)@.len(),
        swap.b < old(l)@.len(),
        old(diffs)@.len() == analyzer.data.metrics@.len(),
        forall|m: int| 0 <= m < old(diffs)@.len() ==> #[trigger] old(diffs)@[m] == 0,
    ensures
        final(l)@ == step_result(analyzer, objective, old(l)@, *swap, draw, remaining),
        analyzer.fits(final(l)@),
        final(diffs)@.len() == old(diffs)@.len(),
        forall|m: int| 0 <= m < final(diffs)@.len() ==> #[trigger] final(diffs)@[m] == 0,
{
    let ghost before = l@;
    let num_metrics = diffs.len();
    proof {
        assert(analyzer.data.stat_bound() <= i64::MAX);
    }
    analyzer.swap_diff(diffs, l, swap);
    assert(diffs@.map_values(|x: i64| x as int) =~= swap_deltas(analyzer, before, *swap));
    let delta = objective.score(diffs);
    if accepts_move(delta, draw, remaining) {
        l.swap(swap);
        proof {
            assert forall|i: int| 0 <= i < l@.len() implies #[trigger] analyzer.corpus.valid_char(
                l@[i] as int,
            ) by {
                assert(analyzer.corpus.valid_char(before[i] as int));
                assert(analyzer.corpus.valid_char(before[swap.a as int] as int));
                assert(analyzer.corpus.valid_char(before[swap.b as int] as int));
            }
        }
    }
    let mut m: usize = 0;
    while m < num_metrics
        invariant
            m <= num_metrics,
            diffs@.len() == num_metrics,
            forall|j: int| 0 <= j < m ==> #[trigger] diffs@[j] == 0,
        decreases num_metrics - m,
    {
        diffs.set(m, 0);
        m += 1;
    }
}

/// Anneals one layout: each step of the schedule draws a candidate swap
/// and a number below `cooling_steps`, and hands them to `anneal_step`.
/// The schedule has `cooling_steps + 1` steps, the temperature falling from
/// 1 to 0 by `1 / cooling_steps` a step. With no candidate swaps the layout
/// stays as it is.
pub fn anneal<O: Objective>(
    analyzer: &Analyzer,
    objective: &O,
    l: &mut Layout,
    swaps: &Vec<Swap>,
    cooling_steps: u64,
    rng: &mut StdRng,
)
    requires
        analyzer.wf(),
        analyzer.fits(old(l)@),
        objective.accepts(analyzer.data.metrics@.len()),
        cooling_steps > 0,
        forall|k: int|
            0 <= k < swaps@.len() ==> #[trigger] swaps@[k].a < old(l)@.len() && swaps@[k].b < old(
                l,
            )@.len(),
    ensures
        anneal_outcome(analyzer, objective, swaps@, cooling_steps, old(l)@, final(l)@),
{
    let num_swaps = swaps.len();
    if num_swaps == 0 {
        return;
    }
    let ghost l0 = l@;
    let num_metrics = analyzer.data.metrics.len();
    let mut diffs: Vec<i64> = vec![0; num_metrics];
    let mut remaining: u64 = cooling_steps;
    let ghost mut choices: Seq<(usize, u64)> = Seq::empty();
    loop
        invariant_except_break
            choices.len() == cooling_steps - remaining,
        invariant
            analyzer.wf(),
            analyzer.fits(l@),
            objective.accepts(analyzer.data.metrics@.len()),
            num_swaps == swaps@.len(),
            num_swaps > 0,
            num_metrics == analyzer.data.metrics@.len(),
            cooling_steps > 0,
            remaining <= cooling_steps,
            forall|k: int|
                0 <= k < swaps@.len() ==> #[trigger] swaps@[k].a < l0.len() && swaps@[k].b
                    < l0.len(),
            annealed_by(swaps@, l0, l@),
            l@ == schedule_result(analyzer, objective, swaps@, cooling_steps, l0, choices),
            forall|t: int|
                0 <= t < choices.len() ==> #[trigger] choices[t].0 < num_swaps && choices[t].1
                    < cooling_steps,
            diffs@.len() == num_metrics,
            forall|m: int| 0 <= m < diffs@.len() ==> #[trigger] diffs@[m] == 0,
        ensures
            choices.len() == cooling_steps + 1,
        decreases remaining,
    {
        let k = draw_below(rng, num_swaps as u64) as usize;
        let swap = &swaps[k];
        let draw = draw_below(rng, cooling_steps);
        let ghost before = l@;
        proof {
            assert(swaps@[k as int].a < l0.len());
        }
        anneal_step(analyzer, objective, l, swap, draw, remaining, &mut diffs);
        proof {
            let c0 = choices;
            choices = choices.push((k, draw));
            assert(choices.drop_last() =~= c0);
            assert forall|t: int|
                0 <= t < choices.len() implies #[trigger] choices[t].0 < num_swaps && choices[t].1
                    < cooling_steps by {
                if t < c0.len() {
                    assert(choices[t] == c0[t]);
                }
            }
            lemma_swapped_multiset(before, swap.a as int, swap.b as int);
            assert(moves(swaps@, swap.a as int));
            assert(moves(swaps@, swap.b as int));
        }
        if remaining == 0 {
            break;
        }
        remaining = remaining - 1;
    }
    proof {
        assert(full_schedule(choices, swaps@.len(), cooling_steps));
    }
}

/// Runs `anneal` on every layout in parallel, each with the generator at
/// the same index. Relies on rayon's `par_iter_mut`, `zip` and `for_each`:
/// the closure runs once on each pair of a layout and its generator, and
/// `for_each` returns when all runs are done.
#[verifier::external_body]
fn anneal_population<O: Objective + Sync>(
    analyzer: &Analyzer,
    objective: &O,
    layouts: &mut Vec<Layout>,
    rngs: &mut Vec<StdRng>,
    swaps: &Vec<Swap>,
    cooling_steps: u64,
)
    requires
        analyzer.wf(),
        objective.accepts(analyzer.data.metrics@.len()),
        cooling_steps > 0,
        old(rngs)@.len() == old(layouts)@.len(),
        forall|i: int| 0 <= i < old(layouts)@.len() ==> analyzer.fits(#[trigger] old(layouts)@[i]@),
        forall|k: int|
            0 <= k < swaps@.len() ==> #[trigger] swaps@[k].a < analyzer.data.num_positions()
                && swaps@[k].b < analyzer.data.num_positions(),
    ensures
        final(layouts)@.len() == old(layouts)@.len(),
        forall|i: int|
            0 <= i < old(layouts)@.len() ==> anneal_outcome(
                analyzer,
                objective,
                swaps@,
                cooling_steps,
                old(layouts)@[i]@,
                #[trigger] final(layouts)@[i]@,
            ),
{
    layouts.par_iter_mut().zip(rngs.par_iter_mut()).for_each(
        |(l, rng)| anneal(analyzer, objective, l, swaps, cooling_steps, rng),
    );
}

/// A copy of `l`.
fn copy_layout(l: &Layout) -> (r: Layout)
    ensures
        r@ == l@,
{
    let mut v: Vec<usize> = Vec::new();
    let mut i: usize = 0;
    while i < l.0.len()
        invariant
            i <= l@.len(),
            v@ == l@.take(i as int),
        decreases l@.len() - i,
    {
        v.push(l.0[i]);
        i += 1;
        assert(v@ =~= l@.take(i as int));
    }
    assert(l@.take(i as int) =~= l@);
    Layout(v)
}

/// Scored layouts as plain values.
pub open spec fn ranked_view(entries: Seq<(Layout, i128)>) -> Seq<(Seq<usize>, int)> {
    entries.map_values(|e: (Layout, i128)| (e.0@, e.1 as int))
}

/// Orders scored layouts by ascending score, keeping every entry.
pub fn rank(entries: Vec<(Layout, i128)>) -> (r: Vec<(Layout, i128)>)
    ensures
        ranked_view(r@).to_multiset() == ranked_view(entries@).to_multiset(),
        forall|i: int, j: int| 0 <= i < j < r@.len() ==> r@[i].1 <= r@[j].1,
{
    broadcast use vstd::seq_lib::to_multiset_build, vstd::seq_lib::to_multiset_remove,
        vstd::multiset::group_multiset_axioms;

    let ghost all = ranked_view(entries@).to_multiset();
    let mut pool = entries;
    let mut r: Vec<(Layout, i128)> = Vec::new();
    proof {
        assert(ranked_view(r@) =~= Seq::<(Seq<usize>, int)>::empty());
        broadcast use vstd::seq_lib::to_multiset_len, vstd::multiset::group_multiset_properties;

        assert(ranked_view(r@).to_multiset().len() == 0);
        assert(ranked_view(r@).to_multiset() =~= vstd::multiset::Multiset::empty());
        assert(ranked_view(r@).to_multiset().add(ranked_view(pool@).to_multiset()) =~= all);
    }
    while pool.len() > 0
        invariant
            ranked_view(r@).to_multiset().add(ranked_view(pool@).to_multiset()) == all,
            forall|i: int, j: int| 0 <= i < j < r@.len() ==> r@[i].1 <= r@[j].1,
            forall|i: int, k: int| 0 <= i < r@.len() && 0 <= k < pool@.len() ==> r@[i].1 <= pool@[k].1,
        decreases pool@.len(),
    {
        let mut best: usize = 0;
        let mut k: usize = 1;
        while k < pool.len()
            invariant
                best < pool@.len(),
                1 <= k <= pool@.len(),
                forall|j: int| 0 <= j < k ==> pool@[best as int].1 <= pool@[j].1,
            decreases pool@.len() - k,
        {
            if pool[k].1 < pool[best].1 {
                best = k;
            }
            k += 1;
        }
        let ghost pool0 = pool@;
        let ghost r0 = r@;
        let x = pool.remove(best);
        proof {
            let v = (x.0@, x.1 as int);
            assert(ranked_view(pool@) =~= ranked_view(pool0).remove(best as int));
            assert(ranked_view(pool0)[best as int] == v);
            assert(ranked_view(pool0).to_multiset().count(v) > 0) by {
                broadcast use vstd::seq_lib::to_multiset_contains;

                assert(ranked_view(pool0).contains(v));
            }
        }
        r.push(x);
        proof {
            let v = (x.0@, x.1 as int);
            let rm0 = ranked_view(r0).to_multiset();
            let pm0 = ranked_view(pool0).to_multiset();
            assert(ranked_view(r@) =~= ranked_view(r0).push(v));
            vstd::seq_lib::to_multiset_build(ranked_view(r0), v);
            vstd::seq_lib::to_multiset_remove(ranked_view(pool0), best as int);
            assert(ranked_view(r@).to_multiset() == rm0.insert(v));
            assert(ranked_view(pool@).to_multiset() == pm0.remove(v));
            assert(rm0.insert(v).add(pm0.remove(v)) =~= rm0.add(pm0));
            assert forall|i: int, k: int| 0 <= i < r@.len() && 0 <= k < pool@.len() implies r@[i].1
                <= pool@[k].1 by {
                if k < best {
                    assert(pool@[k] == pool0[k]);
                } else {
                    assert(pool@[k] == pool0[k + 1]);
                }
                if i < r0.len() {
                    assert(r@[i] == r0[i]);
                }
            }
        }
    }
    proof {
        assert(ranked_view(pool@) =~= Seq::<(Seq<usize>, int)>::empty());
        assert(ranked_view(r@).to_multiset() =~= all);
    }
    r
}

/// An optimiser of layouts.
pub trait Optimizer: Sized {
    /// The optimiser is set up to run against `analyzer`.
    spec fn ready(&self, analyzer: &Analyzer) -> bool;

    /// Prepares the optimiser for running.
    fn setup(&mut self, l: Layout);

    /// Pins positions that no change may touch.
    #[must_use]
    fn pin(self, pins: Vec<usize>) -> Self;

    /// Runs the optimisation and returns the layouts with their scores,
    /// ordered by ascending score.
    fn run<O: Objective + Sync>(&mut self, analyzer: &Analyzer, objective: &O, seed: u64) -> (r:
        Vec<(Layout, i128)>)
        requires
            old(self).ready(analyzer),
            analyzer.wf(),
            objective.accepts(analyzer.data.metrics@.len()),
        ensures
            forall|i: int, j: int| 0 <= i < j < r@.len() ==> r@[i].1 <= r@[j].1,
    ;
}

/// An optimiser that runs simulated annealing on a population of
/// `population_size` layouts.
pub struct AnnealingOptimizer {
    layouts: Vec<Layout>,
    pins: Vec<usize>,
    /// The number of layouts optimised in parallel.
    pub population_size: usize,
    /// The number of temperature decrements from 1 to 0; the temperature
    /// falls by `1 / cooling_steps` a step.
    pub cooling_steps: u64,
}

/// `after` is `before` rearranged, with every pinned position kept.
pub open spec fn rearranged(before: Seq<usize>, after: Seq<usize>, pins: Seq<usize>) -> bool {
    &&& after.len() == before.len()
    &&& after.to_multiset() == before.to_multiset()
    &&& forall|p: int| 0 <= p < before.len() && pins.contains(p as usize) ==> #[trigger] after[p] == before[p]
}

impl AnnealingOptimizer {
    /// The layouts of the population.
    pub closed spec fn population(&self) -> Seq<Seq<usize>> {
        Seq::new(self.layouts@.len(), |i: int| self.layouts@[i]@)
    }

    /// The number of layouts `setup` makes.
    pub closed spec fn size(&self) -> usize {
        self.population_size
    }

    /// The number of temperature decrements of the schedule.
    pub closed spec fn steps(&self) -> u64 {
        self.cooling_steps
    }

    /// The positions no swap may touch.
    pub closed spec fn pinned(&self) -> Seq<usize> {
        self.pins@
    }

    #[must_use]
    pub fn new(population_size: usize, cooling_steps: u64) -> (r: Self)
        ensures
            r.population().len() == 0,
            r.pinned().len() == 0,
            r.size() == population_size,
            r.steps() == cooling_steps,
    {
        Self { layouts: Vec::new(), pins: Vec::new(), population_size, cooling_steps }
    }
}

impl Optimizer for AnnealingOptimizer {
    /// The schedule has at least one step and every layout of the
    /// population fits the analyzer.
    open spec fn ready(&self, analyzer: &Analyzer) -> bool {
        &&& self.steps() > 0
        &&& forall|i: int|
            0 <= i < self.population().len() ==> analyzer.fits(#[trigger] self.population()[i])
    }

    /// Fills the population with `population_size` copies of `l`.
    fn setup(&mut self, l: Layout)
        ensures
            final(self).population() == Seq::new(old(self).size() as nat, |i: int| l@),
            final(self).pinned() == old(self).pinned(),
            final(self).size() == old(self).size(),
            final(self).steps() == old(self).steps(),
    {
        let mut layouts: Vec<Layout> = Vec::new();
        let mut i: usize = 0;
        while i < self.population_size
            invariant
                i <= self.population_size,
                layouts@.len() == i,
                forall|j: int| 0 <= j < i ==> (#[trigger] layouts@[j])@ == l@,
            decreases self.population_size - i,
        {
            layouts.push(copy_layout(&l));
            i += 1;
        }
        self.layouts = layouts;
        assert(self.population() =~= Seq::new(self.population_size as nat, |i: int| l@));
    }

    /// Pins the given positions: no swap will touch them.
    fn pin(self, pins: Vec<usize>) -> (r: Self)
        ensures
            r.pinned() == pins@,
            r.population() == self.population(),
            r.size() == self.size(),
            r.steps() == self.steps(),
    {
        let mut s = self;
        s.pins = pins;
        s
    }

    /// Anneals every layout of the population, in parallel and each with
    /// its own generator drawn from `seed`, then scores each and returns
    /// them ordered by ascending score. Every layout keeps its characters
    /// and its pinned positions.
    fn run<O: Objective + Sync>(&mut self, analyzer: &Analyzer, objective: &O, seed: u64) -> (r:
        Vec<(Layout, i128)>)
        ensures
            final(self).pinned() == old(self).pinned(),
            final(self).size() == old(self).size(),
            final(self).steps() == old(self).steps(),
            final(self).population().len() == old(self).population().len(),
            forall|i: int|
                0 <= i < old(self).population().len() ==> rearranged(
                    old(self).population()[i],
                    #[trigger] final(self).population()[i],
                    old(self).pinned(),
                ) && analyzer.fits(final(self).population()[i]),
            exists|swaps: Seq<Swap>|
                #[trigger] candidate_list(swaps, analyzer.data.num_positions(), old(self).pinned())
                    && forall|i: int|
                    0 <= i < old(self).population().len() ==> anneal_outcome(
                        analyzer,
                        objective,
                        swaps,
                        old(self).steps(),
                        old(self).population()[i],
                        #[trigger] final(self).population()[i],
                    ),
            ranked_view(r@).to_multiset() == Seq::new(
                final(self).population().len(),
                |i: int|
                    (
                        final(self).population()[i],
                        objective.spec_score(analyzer.stats(final(self).population()[i])),
                    ),
            ).to_multiset(),
            forall|i: int, j: int| 0 <= i < j < r@.len() ==> r@[i].1 <= r@[j].1,
    {
        let ghost before = self.population();
        let n = analyzer.data.position_strokes.len();
        let swaps = possible_swaps(n, &self.pins);
        let mut master = seeded_rng(seed);
        let mut rngs: Vec<StdRng> = Vec::new();
        let count = self.layouts.len();
        let mut i: usize = 0;
        while i < count
            invariant
                i <= count,
                rngs@.len() == i,
            decreases count - i,
        {
            let member_seed = draw_below(&mut master, u64::MAX);
            rngs.push(seeded_rng(member_seed));
            i += 1;
        }
        proof {
            assert forall|i: int| 0 <= i < self.layouts@.len() implies analyzer.fits(
                #[trigger] self.layouts@[i]@,
            ) by {
                assert(before[i] == self.layouts@[i]@);
            }
        }
        anneal_population(analyzer, objective, &mut self.layouts, &mut rngs, &swaps, self.cooling_steps);
        let ghost after = self.population();
        proof {
            assert forall|i: int| 0 <= i < before.len() implies anneal_outcome(
                analyzer,
                objective,
                swaps@,
                self.cooling_steps,
                before[i],
                #[trigger] after[i],
            ) by {
                assert(after[i] == self.layouts@[i]@);
            }
            assert(candidate_list(swaps@, analyzer.data.num_positions(), self.pins@));
            assert forall|i: int| 0 <= i < before.len() implies rearranged(
                before[i],
                #[trigger] after[i],
                self.pins@,
            ) && analyzer.fits(after[i]) by {
                assert(after[i] == self.layouts@[i]@);
                assert(annealed_by(swaps@, before[i], after[i]));
                assert forall|p: int| 0 <= p < before[i].len() && self.pins@.contains(
                    p as usize,
                ) implies #[trigger] after[i][p] == before[i][p] by {
                    if moves(swaps@, p) {
                        let k = choose|k: int|
                            0 <= k < swaps@.len() && (swaps@[k].a == p || swaps@[k].b == p);
                        assert(!self.pins@.contains(swaps@[k].a));
                    }
                }
            }
        }
        let mut scored: Vec<(Layout, i128)> = Vec::new();
        let mut i: usize = 0;
        while i < count
            invariant
                count == self.layouts@.len(),
                after == self.population(),
                analyzer.wf(),
                objective.accepts(analyzer.data.metrics@.len()),
                forall|i: int| 0 <= i < after.len() ==> analyzer.fits(#[trigger] after[i]),
                i <= count,
                ranked_view(scored@) == Seq::new(
                    i as nat,
                    |i: int| (after[i], objective.spec_score(analyzer.stats(after[i]))),
                ),
            decreases count - i,
        {
            let l = &self.layouts[i];
            assert(l@ == after[i as int]);
            let stats = analyzer.calc_stats(l);
            assert(stats@.map_values(|x: i64| x as int) =~= analyzer.stats(l@));
            let score = objective.score(&stats);
            let ghost s0 = scored@;
            let ghost entry_view = (after[i as int], objective.spec_score(analyzer.stats(after[i as int])));
            scored.push((copy_layout(l), score));
            assert(ranked_view(scored@) =~= ranked_view(s0).push(entry_view));
            i += 1;
            assert(ranked_view(scored@) =~= Seq::new(
                i as nat,
                |i: int| (after[i], objective.spec_score(analyzer.stats(after[i]))),
            ));
        }
        rank(scored)
    }
}

} // verus!
