//! K-Means clustering over integer feature rows.
use crate::clustering::cluster::Cluster;
use crate::distance::{copy_row, rows_of, is_rectangular, sq_dist, squared_distance};
use rand::distributions::{Distribution, Uniform};
use vstd::arithmetic::div_mod::{lemma_fundamental_div_mod, lemma_mod_bound};
use vstd::prelude::*;

verus! {

/// The fit stops once fewer than one row in `CONVERGENCE_DENOMINATOR` changed
/// its label in a round, that is, once the fraction of changed labels is below
/// a tolerance of 0.001.
pub const CONVERGENCE_DENOMINATOR: u128 = 1000;

/// How the initial centroids are chosen.
#[derive(Debug, Clone, Copy, PartialEq, Eq, Hash)]
pub enum InitAlgorithm {
    /// Distinct rows of the data, drawn uniformly at random.
    Random,
}

/// A K-Means model: its centroids and its budget of rounds per fit.
#[derive(Debug, Clone)]
pub struct KMeans {
    centroids: Vec<Vec<i32>>,
    max_iter: usize,
}

/// Every centroid of `cs` has `width` features.
pub open spec fn centroids_have_width(cs: Seq<Seq<i32>>, width: int) -> bool {
    forall|c: int| 0 <= c < cs.len() ==> (#[trigger] cs[c]).len() == width
}

/// Every row of `xs` has as many features as every centroid of `cs`.
pub open spec fn rows_match(xs: Seq<Vec<i32>>, cs: Seq<Seq<i32>>) -> bool {
    forall|r: int, c: int|
        0 <= r < xs.len() && 0 <= c < cs.len() ==> (#[trigger] xs[r])@.len() == (#[trigger] cs[c]).len()
}

/// The index of the centroid nearest to `x` among the first `n` of `cs`;
/// of several equally near, the one with the lowest index.
pub open spec fn nearest_upto(x: Seq<i32>, cs: Seq<Seq<i32>>, n: int) -> int
    decreases n,
{
    if n <= 1 {
        0
    } else {
        let b = nearest_upto(x, cs, n - 1);
        if sq_dist(x, cs[n - 1]) < sq_dist(x, cs[b]) {
            n - 1
        } else {
            b
        }
    }
}

/// The label of `x`: the index of its nearest centroid, the lowest on ties
/// (0 when there is no centroid).
pub open spec fn nearest(x: Seq<i32>, cs: Seq<Seq<i32>>) -> int {
    nearest_upto(x, cs, cs.len() as int)
}

/// The labels of all rows of `xs`, in row order.
pub open spec fn labels(xs: Seq<Vec<i32>>, cs: Seq<Seq<i32>>) -> Seq<usize> {
    Seq::new(xs.len(), |r: int| nearest(xs[r]@, cs) as usize)
}

/// How many of the first `n` rows of `xs` are labelled `c`.
pub open spec fn cluster_count(xs: Seq<Vec<i32>>, cs: Seq<Seq<i32>>, c: int, n: int) -> int
    decreases n,
{
    if n <= 0 {
        0
    } else {
        cluster_count(xs, cs, c, n - 1) + if nearest(xs[n - 1]@, cs) == c {
            1int
        } else {
            0int
        }
    }
}

/// The sum of feature `f` over those of the first `n` rows of `xs` labelled `c`.
pub open spec fn cluster_sum(xs: Seq<Vec<i32>>, cs: Seq<Seq<i32>>, c: int, f: int, n: int) -> int
    decreases n,
{
    if n <= 0 {
        0
    } else {
        cluster_sum(xs, cs, c, f, n - 1) + if nearest(xs[n - 1]@, cs) == c {
            xs[n - 1]@[f] as int
        } else {
            0int
        }
    }
}

/// Centroid `c` recomputed: the feature-wise mean, rounded down, of the rows
/// labelled `c`; unchanged when no row is.
pub open spec fn recomputed(xs: Seq<Vec<i32>>, cs: Seq<Seq<i32>>, c: int) -> Seq<i32> {
    let k = cluster_count(xs, cs, c, xs.len() as int);
    if k == 0 {
        cs[c]
    } else {
        Seq::new(cs[c].len(), |f: int| (cluster_sum(xs, cs, c, f, xs.len() as int) / k) as i32)
    }
}

/// One reassignment round: every centroid recomputed from the current labels.
pub open spec fn round(xs: Seq<Vec<i32>>, cs: Seq<Seq<i32>>) -> Seq<Seq<i32>> {
    Seq::new(cs.len(), |c: int| recomputed(xs, cs, c))
}

/// How many of the first `n` rows of `xs` are labelled differently under `a` and `b`.
pub open spec fn misses(xs: Seq<Vec<i32>>, a: Seq<Seq<i32>>, b: Seq<Seq<i32>>, n: int) -> int
    decreases n,
{
    if n <= 0 {
        0
    } else {
        misses(xs, a, b, n - 1) + if nearest(xs[n - 1]@, a) != nearest(xs[n - 1]@, b) {
            1int
        } else {
            0int
        }
    }
}

/// A round from `a` to `b` changed the labels of less than the tolerated fraction of rows.
pub open spec fn converged(xs: Seq<Vec<i32>>, a: Seq<Seq<i32>>, b: Seq<Seq<i32>>) -> bool {
    misses(xs, a, b, xs.len() as int) * CONVERGENCE_DENOMINATOR < xs.len()
}

/// The centroids after fitting `cs` to `xs` with a budget of `budget` rounds.
pub open spec fn fitted(xs: Seq<Vec<i32>>, cs: Seq<Seq<i32>>, budget: nat) -> Seq<Seq<i32>>
    decreases budget,
{
    if budget == 0 {
        cs
    } else {
        let next = round(xs, cs);
        if converged(xs, cs, next) {
            next
        } else {
            fitted(xs, next, (budget - 1) as nat)
        }
    }
}

/// The centroids after `k` rounds, whatever the labels did.
pub open spec fn rounds(xs: Seq<Vec<i32>>, cs: Seq<Seq<i32>>, k: nat) -> Seq<Seq<i32>>
    decreases k,
{
    if k == 0 {
        cs
    } else {
        rounds(xs, round(xs, cs), (k - 1) as nat)
    }
}

/// The centroids `cs` are the rows of `xs` at the indexes `idx`, in that order.
pub open spec fn taken_from(cs: Seq<Seq<i32>>, xs: Seq<Vec<i32>>, idx: Seq<usize>) -> bool {
    &&& cs.len() == idx.len()
    &&& forall|j: int| 0 <= j < idx.len() ==> #[trigger] idx[j] < xs.len()
    &&& forall|j: int| 0 <= j < idx.len() ==> #[trigger] cs[j] == xs[idx[j] as int]@
}


/// The nearest of the first `n` centroids is among them, no farther than any
/// of them, and strictly nearer than every one before it.
pub proof fn lemma_nearest_upto(x: Seq<i32>, cs: Seq<Seq<i32>>, n: int)
    requires
        1 <= n <= cs.len(),
    ensures
        0 <= nearest_upto(x, cs, n) < n,
        forall|j: int|
            0 <= j < n ==> sq_dist(x, cs[nearest_upto(x, cs, n)]) <= #[trigger] sq_dist(x, cs[j]),
        forall|j: int|
            0 <= j < nearest_upto(x, cs, n) ==> #[trigger] sq_dist(x, cs[j]) > sq_dist(
                x,
                cs[nearest_upto(x, cs, n)],
            ),
    decreases n,
{
    if n > 1 {
        lemma_nearest_upto(x, cs, n - 1);
    }
}

/// A label is always the index of a centroid, or 0 when there is none.
pub proof fn lemma_nearest_in_range(x: Seq<i32>, cs: Seq<Seq<i32>>)
    ensures
        0 <= nearest(x, cs),
        cs.len() == 0 ==> nearest(x, cs) == 0,
        cs.len() > 0 ==> nearest(x, cs) < cs.len(),
{
    if cs.len() > 0 {
        lemma_nearest_upto(x, cs, cs.len() as int);
    }
}

/// Ties go to the lower index: a row equally near to centroids `i < j`, with
/// none nearer, is never labelled `j`; it is labelled `i` unless a centroid
/// before `i` is just as near.
pub proof fn lemma_tie_goes_to_lower_index(x: Seq<i32>, cs: Seq<Seq<i32>>, i: int, j: int)
    requires
        0 <= i < j < cs.len(),
        sq_dist(x, cs[i]) == sq_dist(x, cs[j]),
        forall|k: int| 0 <= k < cs.len() ==> sq_dist(x, cs[i]) <= #[trigger] sq_dist(x, cs[k]),
    ensures
        nearest(x, cs) <= i,
        (forall|k: int| 0 <= k < i ==> #[trigger] sq_dist(x, cs[k]) > sq_dist(x, cs[i]))
            ==> nearest(x, cs) == i,
{
    lemma_nearest_upto(x, cs, cs.len() as int);
    let b = nearest(x, cs);
    assert(sq_dist(x, cs[b]) <= sq_dist(x, cs[i]));
    if b > i {
        assert(sq_dist(x, cs[i]) > sq_dist(x, cs[b]));
    }
    if (forall|k: int| 0 <= k < i ==> #[trigger] sq_dist(x, cs[k]) > sq_dist(x, cs[i])) && b < i {
        assert(sq_dist(x, cs[b]) > sq_dist(x, cs[i]));
    }
}


/// A round keeps the number of centroids and the width of each.
pub proof fn lemma_round_keeps_shape(xs: Seq<Vec<i32>>, cs: Seq<Seq<i32>>)
    ensures
        round(xs, cs).len() == cs.len(),
        forall|c: int| 0 <= c < cs.len() ==> (#[trigger] round(xs, cs)[c]).len() == cs[c].len(),
{
}

/// Fitting never changes the number of centroids, nor their widths.
pub proof fn lemma_fit_keeps_count(xs: Seq<Vec<i32>>, cs: Seq<Seq<i32>>, budget: nat)
    ensures
        fitted(xs, cs, budget).len() == cs.len(),
        forall|c: int|
            0 <= c < cs.len() ==> (#[trigger] fitted(xs, cs, budget)[c]).len() == cs[c].len(),
    decreases budget,
{
    lemma_round_keeps_shape(xs, cs);
    if budget > 0 {
        lemma_fit_keeps_count(xs, round(xs, cs), (budget - 1) as nat);
    }
}

/// A fit with a budget of `budget` rounds performs at most `budget` rounds:
/// its result is the centroids after some `k <= budget` rounds.
pub proof fn lemma_fit_within_budget(xs: Seq<Vec<i32>>, cs: Seq<Seq<i32>>, budget: nat)
    ensures
        exists|k: nat| k <= budget && fitted(xs, cs, budget) == #[trigger] rounds(xs, cs, k),
    decreases budget,
{
    if budget == 0 {
        assert(fitted(xs, cs, budget) == rounds(xs, cs, 0));
    } else {
        let next = round(xs, cs);
        if converged(xs, cs, next) {
            assert(rounds(xs, next, 0) == next);
            assert(fitted(xs, cs, budget) == rounds(xs, cs, 1));
        } else {
            lemma_fit_within_budget(xs, next, (budget - 1) as nat);
            let k = choose|k: nat|
                k <= budget - 1 && fitted(xs, next, (budget - 1) as nat) == #[trigger] rounds(
                    xs,
                    next,
                    k,
                );
            assert(rounds(xs, cs, k + 1) == rounds(xs, next, k));
            assert(fitted(xs, cs, budget) == rounds(xs, cs, k + 1));
        }
    }
}

/// Labels depend on the centroids alone: two models with the same centroids
/// label every input alike, so predicting twice gives the same labels.
pub proof fn lemma_labels_depend_on_centroids_only(m1: KMeans, m2: KMeans, xs: Seq<Vec<i32>>)
    requires
        m1.centroids_spec() == m2.centroids_spec(),
    ensures
        m1.labels_for(xs) == m2.labels_for(xs),
{
}

/// Relies on rand's `Uniform::from(0..bound)`, sampled with `thread_rng()`:
/// an index drawn from `0..bound`. `Uniform::from` panics on an empty range.
#[verifier::external_body]
fn random_index(bound: usize) -> (r: usize)
    requires
        bound > 0,
    ensures
        r < bound,
{
    Uniform::from(0..bound).sample(&mut rand::thread_rng())
}

impl KMeans {
    /// The centroids, one sequence of features each.
    pub closed spec fn centroids_spec(&self) -> Seq<Seq<i32>> {
        rows_of(self.centroids@)
    }

    /// The budget of rounds for each fit.
    pub closed spec fn max_iter_spec(&self) -> nat {
        self.max_iter as nat
    }

    /// All centroids have the same number of features.
    pub open spec fn wf(&self) -> bool {
        self.centroids_spec().len() > 0 ==> centroids_have_width(
            self.centroids_spec(),
            self.centroids_spec()[0].len() as int,
        )
    }
}


/// `s / n` rounded down, for a sum `s` of `n` values of `i32`.
fn floor_div(s: i128, n: usize) -> (q: i32)
    requires
        n > 0,
        (n as int) * (i32::MIN as int) <= s <= (n as int) * (i32::MAX as int),
    ensures
        q == (s as int) / (n as int),
{
    let ghost d = n as int;
    proof {
        lemma_fundamental_div_mod(s as int, d);
        lemma_mod_bound(s as int, d);
        let qq = (s as int) / d;
        let rr = (s as int) % d;
        assert(i32::MIN <= qq <= i32::MAX) by (nonlinear_arith)
            requires
                s == d * qq + rr,
                0 <= rr < d,
                d * (i32::MIN as int) <= s <= d * (i32::MAX as int),
        ;
    }
    if s >= 0 {
        let t: u128 = (s as u128) / (n as u128);
        t as i32
    } else {
        let t: u128 = ((-s) as u128 + (n as u128 - 1)) / (n as u128);
        proof {
            let qq = (s as int) / d;
            let rr = (s as int) % d;
            let x: int = -(s as int) + d - 1;
            assert(x == (-qq) * d + (d - 1 - rr)) by (nonlinear_arith)
                requires
                    s == d * qq + rr,
                    x == -s + d - 1,
            ;
            vstd::arithmetic::div_mod::lemma_fundamental_div_mod_converse(x, d, -qq, d - 1 - rr);
        }
        -(t as i64) as i32
    }
}

/// Adds the features of `row` to the running sums `sums`.
fn add_row(sums: &mut Vec<i128>, row: &Vec<i32>, Ghost(k): Ghost<int>)
    requires
        old(sums)@.len() == row@.len(),
        0 <= k < 0x1_0000_0000_0000_0000int,
        forall|f: int|
            0 <= f < old(sums)@.len() ==> k * (i32::MIN as int) <= #[trigger] old(sums)@[f] <= k
                * (i32::MAX as int),
    ensures
        final(sums)@.len() == old(sums)@.len(),
        forall|f: int|
            0 <= f < final(sums)@.len() ==> #[trigger] final(sums)@[f] == old(sums)@[f] + row@[f],
{
    let n = row.len();
    let mut f: usize = 0;
    while f < n
        invariant
            n == row@.len() == sums@.len() == old(sums)@.len(),
            0 <= k < 0x1_0000_0000_0000_0000int,
            f <= n,
            forall|g: int|
                0 <= g < n ==> k * (i32::MIN as int) <= #[trigger] old(sums)@[g] <= k * (
                i32::MAX as int),
            forall|g: int| 0 <= g < f ==> #[trigger] sums@[g] == old(sums)@[g] + row@[g],
            forall|g: int| f <= g < n ==> #[trigger] sums@[g] == old(sums)@[g],
        decreases n - f,
    {
        let v = sums[f] + row[f] as i128;
        sums.set(f, v);
        f = f + 1;
    }
}

impl KMeans {
    /// The label of the row `x`: its nearest centroid, the lowest index on ties.
    fn nearest_centroid(&self, x: &Vec<i32>) -> (r: usize)
        requires
            forall|c: int|
                0 <= c < self.centroids_spec().len() ==> #[trigger] self.centroids_spec()[c].len()
                    == x@.len(),
        ensures
            r == nearest(x@, self.centroids_spec()),
    {
        let ghost cs = self.centroids_spec();
        let n = self.centroids.len();
        let mut best: usize = 0;
        let mut best_score: u128 = 0;
        let mut j: usize = 0;
        while j < n
            invariant
                cs == self.centroids_spec(),
                n == cs.len(),
                j <= n,
                forall|c: int| 0 <= c < n ==> #[trigger] cs[c].len() == x@.len(),
                best == nearest_upto(x@, cs, j as int),
                j > 0 ==> best < j && best_score == sq_dist(x@, cs[best as int]),
            decreases n - j,
        {
            assert(cs[j as int] == self.centroids@[j as int]@);
            let d = squared_distance(x, &self.centroids[j]);
            if j == 0 || d < best_score {
                best = j;
                best_score = d;
            }
            j = j + 1;
        }
        best
    }
}


/// How many rows changed label between the labellings `before` and `after`.
fn count_changes(
    before: &Vec<usize>,
    after: &Vec<usize>,
    Ghost(xs): Ghost<Seq<Vec<i32>>>,
    Ghost(a): Ghost<Seq<Seq<i32>>>,
    Ghost(b): Ghost<Seq<Seq<i32>>>,
) -> (r: usize)
    requires
        before@ == labels(xs, a),
        after@ == labels(xs, b),
        a.len() <= usize::MAX,
        b.len() <= usize::MAX,
    ensures
        r == misses(xs, a, b, xs.len() as int),
        r <= xs.len(),
{
    let n = before.len();
    let mut m: usize = 0;
    let mut i: usize = 0;
    while i < n
        invariant
            n == xs.len(),
            before@ == labels(xs, a),
            after@ == labels(xs, b),
            a.len() <= usize::MAX,
            b.len() <= usize::MAX,
            i <= n,
            m <= i,
            m == misses(xs, a, b, i as int),
        decreases n - i,
    {
        proof {
            lemma_nearest_in_range(xs[i as int]@, a);
            lemma_nearest_in_range(xs[i as int]@, b);
        }
        assert(before@[i as int] as int == nearest(xs[i as int]@, a));
        assert(after@[i as int] as int == nearest(xs[i as int]@, b));
        if before[i] != after[i] {
            m = m + 1;
        }
        i = i + 1;
    }
    m
}

impl KMeans {
    /// Centroid `c` recomputed from the labels `labs` of the rows `xs`.
    fn recompute_centroid(&self, xs: &Vec<Vec<i32>>, labs: &Vec<usize>, c: usize) -> (r: Vec<i32>)
        requires
            self.accepts(xs@),
            c < self.centroids@.len(),
            labs@ == labels(xs@, self.centroids_spec()),
        ensures
            r@ == recomputed(xs@, self.centroids_spec(), c as int),
    {
        let ghost cs = self.centroids_spec();
        assert(cs[c as int] == self.centroids@[c as int]@);
        let k = self.centroids.len();
        let w = self.centroids[c].len();
        let mut sums: Vec<i128> = Vec::new();
        let mut f: usize = 0;
        while f < w
            invariant
                f <= w,
                sums@.len() == f,
                forall|g: int| 0 <= g < f ==> #[trigger] sums@[g] == 0,
            decreases w - f,
        {
            sums.push(0);
            f = f + 1;
        }
        let n = xs.len();
        let mut count: usize = 0;
        let mut r: usize = 0;
        while r < n
            invariant
                n == xs@.len(),
                r <= n,
                count <= r,
                sums@.len() == w,
                w == cs[c as int].len(),
                cs == self.centroids_spec(),
                self.accepts(xs@),
                c < cs.len(),
                cs.len() == k,
                labs@ == labels(xs@, cs),
                count == cluster_count(xs@, cs, c as int, r as int),
                forall|g: int|
                    0 <= g < w ==> #[trigger] sums@[g] == cluster_sum(xs@, cs, c as int, g, r as int),
                forall|g: int|
                    0 <= g < w ==> (count as int) * (i32::MIN as int) <= #[trigger] sums@[g] <= (
                    count as int) * (i32::MAX as int),
            decreases n - r,
        {
            proof {
                lemma_nearest_in_range(xs@[r as int]@, cs);
                assert(xs@[r as int]@.len() == cs[c as int].len());
                assert(cs.len() == self.centroids@.len());
                assert(labs@[r as int] as int == nearest(xs@[r as int]@, cs));
            }
            if labs[r] == c {
                add_row(&mut sums, &xs[r], Ghost(count as int));
                count = count + 1;
            }
            r = r + 1;
        }
        if count == 0 {
            return copy_row(&self.centroids[c]);
        }
        let mut out: Vec<i32> = Vec::new();
        let mut f: usize = 0;
        while f < w
            invariant
                n == xs@.len(),
                f <= w,
                count > 0,
                sums@.len() == w,
                out@.len() == f,
                count == cluster_count(xs@, cs, c as int, n as int),
                forall|g: int|
                    0 <= g < w ==> #[trigger] sums@[g] == cluster_sum(xs@, cs, c as int, g, n as int),
                forall|g: int|
                    0 <= g < w ==> (count as int) * (i32::MIN as int) <= #[trigger] sums@[g] <= (
                    count as int) * (i32::MAX as int),
                forall|g: int|
                    0 <= g < f ==> #[trigger] out@[g] == (cluster_sum(xs@, cs, c as int, g, n as int)
                        / (count as int)) as i32,
            decreases w - f,
        {
            let q = floor_div(sums[f], count);
            out.push(q);
            f = f + 1;
        }
        assert(out@ =~= recomputed(xs@, cs, c as int));
        out
    }
}


/// Up to `k` distinct row indexes of `0..n`, drawn at random without
/// replacement; all `n` when `k >= n`.
fn draw_distinct(n: usize, k: usize) -> (r: Vec<usize>)
    ensures
        r@.len() == if k < n {
            k
        } else {
            n
        },
        forall|j: int| 0 <= j < r@.len() ==> #[trigger] r@[j] < n,
        forall|i: int, j: int| 0 <= i < j < r@.len() ==> r@[i] != r@[j],
{
    let mut pool: Vec<usize> = Vec::new();
    let mut i: usize = 0;
    while i < n
        invariant
            i <= n,
            pool@.len() == i,
            forall|j: int| 0 <= j < i ==> #[trigger] pool@[j] == j,
        decreases n - i,
    {
        pool.push(i);
        i = i + 1;
    }
    let mut chosen: Vec<usize> = Vec::new();
    while chosen.len() < k && pool.len() > 0
        invariant
            chosen@.len() + pool@.len() == n,
            chosen@.len() <= k,
            forall|j: int| 0 <= j < chosen@.len() ==> #[trigger] chosen@[j] < n,
            forall|j: int| 0 <= j < pool@.len() ==> #[trigger] pool@[j] < n,
            forall|a: int, b: int| 0 <= a < b < chosen@.len() ==> chosen@[a] != chosen@[b],
            forall|a: int, b: int| 0 <= a < b < pool@.len() ==> pool@[a] != pool@[b],
            forall|a: int, b: int|
                0 <= a < chosen@.len() && 0 <= b < pool@.len() ==> chosen@[a] != pool@[b],
        decreases pool@.len(),
    {
        let j = random_index(pool.len());
        let v = pool.remove(j);
        chosen.push(v);
    }
    chosen
}

impl KMeans {
    /// A model whose centroids are copies of rows of `xs`: `num_clusters`
    /// distinct rows drawn at random, or every row, in drawing order, when
    /// `xs` has no more than `num_clusters` rows. With no rows or no clusters
    /// the model has no centroid, and then labels every row 0.
    pub fn new(xs: &Vec<Vec<i32>>, max_iter: usize, num_clusters: usize, init_fn: InitAlgorithm) -> (r: KMeans)
        requires
            is_rectangular(xs@),
        ensures
            r.centroids_spec().len() == if num_clusters < xs@.len() {
                num_clusters as int
            } else {
                xs@.len() as int
            },
            r.max_iter_spec() == max_iter,
            r.wf(),
            rows_match(xs@, r.centroids_spec()),
            exists|idx: Seq<usize>|
                #[trigger] taken_from(r.centroids_spec(), xs@, idx) && forall|a: int, b: int|
                    0 <= a < b < idx.len() ==> idx[a] != idx[b],
    {
        match init_fn {
            InitAlgorithm::Random => {
                let idx = draw_distinct(xs.len(), num_clusters);
                let r = KMeans::from_indexes(xs, max_iter, &idx);
                assert(taken_from(r.centroids_spec(), xs@, idx@));
                r
            },
        }
    }

    /// A model whose centroids are copies of the rows of `xs` at `idx`, in that order.
    pub fn from_indexes(xs: &Vec<Vec<i32>>, max_iter: usize, idx: &Vec<usize>) -> (r: KMeans)
        requires
            is_rectangular(xs@),
            forall|j: int| 0 <= j < idx@.len() ==> #[trigger] idx@[j] < xs@.len(),
        ensures
            taken_from(r.centroids_spec(), xs@, idx@),
            r.max_iter_spec() == max_iter,
            r.wf(),
            rows_match(xs@, r.centroids_spec()),
    {
        let mut centroids: Vec<Vec<i32>> = Vec::new();
        let mut j: usize = 0;
        while j < idx.len()
            invariant
                j <= idx@.len(),
                forall|i: int| 0 <= i < idx@.len() ==> #[trigger] idx@[i] < xs@.len(),
                centroids@.len() == j,
                forall|i: int| 0 <= i < j ==> #[trigger] centroids@[i]@ == xs@[idx@[i] as int]@,
            decreases idx@.len() - j,
        {
            let row = copy_row(&xs[idx[j]]);
            centroids.push(row);
            j = j + 1;
        }
        let r = KMeans { centroids, max_iter };
        assert(rows_match(xs@, r.centroids_spec())) by {
            assert forall|i: int, c: int|
                0 <= i < xs@.len() && 0 <= c < r.centroids_spec().len() implies (#[trigger] xs@[i])@.len()
                == (#[trigger] r.centroids_spec()[c]).len() by {
                assert(r.centroids_spec()[c] == xs@[idx@[c] as int]@);
                assert(xs@[idx@[c] as int]@.len() == xs@[0]@.len());
            }
        }
        assert(r.wf()) by {
            if r.centroids_spec().len() > 0 {
                assert(r.centroids_spec()[0] == xs@[idx@[0] as int]@);
                assert forall|c: int| 0 <= c < r.centroids_spec().len() implies (
                #[trigger] r.centroids_spec()[c]).len() == r.centroids_spec()[0].len() by {
                    assert(r.centroids_spec()[c] == xs@[idx@[c] as int]@);
                }
            }
        }
        r
    }

    /// The centroids.
    pub fn get_centroids(&self) -> (r: &Vec<Vec<i32>>)
        ensures
            rows_of(r@) == self.centroids_spec(),
    {
        &self.centroids
    }
}

impl Cluster for KMeans {
    open spec fn accepts(&self, xs: Seq<Vec<i32>>) -> bool {
        self.wf() && rows_match(xs, self.centroids_spec())
    }

    open spec fn labels_for(&self, xs: Seq<Vec<i32>>) -> Seq<usize> {
        labels(xs, self.centroids_spec())
    }

    /// Runs up to `max_iter` rounds, each relabelling the rows and moving
    /// every centroid to the mean of its rows (a centroid with no rows stays
    /// where it is); stops early after a round that changed fewer than one
    /// label in `CONVERGENCE_DENOMINATOR`.
    fn fit(&mut self, xs: &Vec<Vec<i32>>)
        ensures
            final(self).centroids_spec() == fitted(
                xs@,
                old(self).centroids_spec(),
                old(self).max_iter_spec(),
            ),
            final(self).max_iter_spec() == old(self).max_iter_spec(),
            final(self).centroids_spec().len() == old(self).centroids_spec().len(),
    {
        proof {
            lemma_fit_keeps_count(xs@, self.centroids_spec(), self.max_iter as nat);
        }
        let ghost target = fitted(xs@, self.centroids_spec(), self.max_iter as nat);
        let max_iter = self.max_iter;
        let mut it: usize = 0;
        let mut done = false;
        while it < max_iter && !done
            invariant
                self.accepts(xs@),
                self.max_iter == max_iter,
                max_iter == old(self).max_iter,
                target == fitted(xs@, old(self).centroids_spec(), max_iter as nat),
                it <= max_iter,
                done ==> self.centroids_spec() == target,
                !done ==> fitted(xs@, self.centroids_spec(), (max_iter - it) as nat) == target,
            decreases max_iter - it,
        {
            let ghost cs = self.centroids_spec();
            let before = self.predict(xs);
            let k = self.centroids.len();
            let mut next: Vec<Vec<i32>> = Vec::new();
            let mut c: usize = 0;
            while c < k
                invariant
                    cs == self.centroids_spec(),
                    self.accepts(xs@),
                    k == cs.len(),
                    before@ == labels(xs@, cs),
                    c <= k,
                    next@.len() == c,
                    forall|j: int| 0 <= j < c ==> #[trigger] next@[j]@ == recomputed(xs@, cs, j),
                decreases k - c,
            {
                let v = self.recompute_centroid(xs, &before, c);
                next.push(v);
                c = c + 1;
            }
            proof {
                lemma_round_keeps_shape(xs@, cs);
                assert(rows_of(next@) =~= round(xs@, cs));
            }
            self.centroids = next;
            assert(self.centroids_spec() == round(xs@, cs));
            let after = self.predict(xs);
            let m = count_changes(&before, &after, Ghost(xs@), Ghost(cs), Ghost(self.centroids_spec()));
            if (m as u128) * CONVERGENCE_DENOMINATOR < xs.len() as u128 {
                done = true;
            }
            it = it + 1;
        }
    }

    /// Labels each row with its nearest centroid; of several equally near,
    /// the one with the lowest index wins.
    fn predict(&self, xs: &Vec<Vec<i32>>) -> (r: Vec<usize>)
        ensures
            forall|i: int|
                0 <= i < xs@.len() ==> #[trigger] r@[i] as int == nearest(
                    xs@[i]@,
                    self.centroids_spec(),
                ),
    {
        let mut out: Vec<usize> = Vec::new();
        let n = xs.len();
        let mut i: usize = 0;
        while i < n
            invariant
                n == xs@.len(),
                i <= n,
                self.accepts(xs@),
                out@.len() == i,
                forall|k: int|
                    0 <= k < i ==> #[trigger] out@[k] as int == nearest(xs@[k]@, self.centroids_spec()),
            decreases n - i,
        {
            proof {
                lemma_nearest_in_range(xs@[i as int]@, self.centroids_spec());
            }
            let label = self.nearest_centroid(&xs[i]);
            out.push(label);
            i = i + 1;
        }
        assert(out@ =~= labels(xs@, self.centroids_spec())) by {
            assert forall|k: int| 0 <= k < n implies out@[k] == labels(xs@, self.centroids_spec())[k] by {
                lemma_nearest_in_range(xs@[k]@, self.centroids_spec());
            }
        }
        out
    }
}

} // verus!
