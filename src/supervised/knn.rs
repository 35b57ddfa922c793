//! k-nearest-neighbour classification over integer feature rows.
use crate::distance::{copy_row, is_rectangular, rows_of, sq_dist, squared_distance};
use crate::supervised::supervised::{DimensionMismatch, Supervised};
use vstd::prelude::*;

verus! {

/// How the neighbours' labels are weighed in the vote.
pub enum NeighborWeights {
    /// Every neighbour counts once.
    Uniform,
}

/// A k-nearest-neighbour classifier: `neighbors` and the labelled training rows.
#[derive(Debug, Clone)]
pub struct KNearestNeighbors {
    neighbors: usize,
    xs: Vec<Vec<i32>>,
    ys: Vec<usize>,
}

/// A candidate neighbour: its squared distance to the query and its label.
pub type Candidate = (u128, usize);

/// The index of the farthest of the first `n` candidates; the first on ties.
pub open spec fn farthest_upto(s: Seq<Candidate>, n: int) -> int
    decreases n,
{
    if n <= 1 {
        0
    } else {
        let b = farthest_upto(s, n - 1);
        if s[n - 1].0 > s[b].0 {
            n - 1
        } else {
            b
        }
    }
}

/// The candidates after offering one training row at distance `d` with label
/// `y`: while fewer than `k` are held it joins them; otherwise it replaces the
/// farthest one if it is strictly nearer than it.
pub open spec fn offer(s: Seq<Candidate>, d: u128, y: usize, k: int) -> Seq<Candidate> {
    if s.len() < k {
        s.push((d, y))
    } else {
        let w = farthest_upto(s, s.len() as int);
        if d < s[w].0 {
            s.update(w, (d, y))
        } else {
            s
        }
    }
}

/// The candidates kept for the query `x` after the first `n` training rows.
pub open spec fn candidates(
    x: Seq<i32>,
    train: Seq<Seq<i32>>,
    ys: Seq<usize>,
    k: int,
    n: int,
) -> Seq<Candidate>
    decreases n,
{
    if n <= 0 {
        Seq::empty()
    } else {
        offer(candidates(x, train, ys, k, n - 1), sq_dist(x, train[n - 1]) as u128, ys[n - 1], k)
    }
}

/// How many of the first `n` candidates carry the label `l`.
pub open spec fn count_upto(s: Seq<Candidate>, l: usize, n: int) -> int
    decreases n,
{
    if n <= 0 {
        0
    } else {
        count_upto(s, l, n - 1) + if s[n - 1].1 == l {
            1int
        } else {
            0int
        }
    }
}

/// How many candidates carry the label `l`.
pub open spec fn count_label(s: Seq<Candidate>, l: usize) -> int {
    count_upto(s, l, s.len() as int)
}

/// Label `a` wins the vote over label `b`: more votes, or as many and smaller.
pub open spec fn beats(s: Seq<Candidate>, a: usize, b: usize) -> bool {
    count_label(s, a) > count_label(s, b) || (count_label(s, a) == count_label(s, b) && a < b)
}

/// The winner of the vote among the labels of the first `n` candidates.
pub open spec fn vote_upto(s: Seq<Candidate>, n: int) -> usize
    decreases n,
{
    if n <= 1 {
        s[0].1
    } else {
        let b = vote_upto(s, n - 1);
        if beats(s, s[n - 1].1, b) {
            s[n - 1].1
        } else {
            b
        }
    }
}

/// The majority label of the candidates, the smallest on ties.
pub open spec fn vote(s: Seq<Candidate>) -> usize {
    vote_upto(s, s.len() as int)
}

/// `l` is a label of the candidates with the most votes, and the smallest of those.
pub open spec fn is_majority(s: Seq<Candidate>, l: usize) -> bool {
    &&& exists|i: int| 0 <= i < s.len() && (#[trigger] s[i]).1 == l
    &&& forall|i: int|
        0 <= i < s.len() ==> count_label(s, (#[trigger] s[i]).1) < count_label(s, l) || (
        count_label(s, s[i].1) == count_label(s, l) && l <= s[i].1)
}

/// The predicted label of the query `x` for `k` neighbours among the training
/// rows `train` labelled `ys`.
pub open spec fn predicted(x: Seq<i32>, train: Seq<Seq<i32>>, ys: Seq<usize>, k: int) -> usize {
    vote(candidates(x, train, ys, k, train.len() as int))
}



/// The index of the farthest candidate; the first on ties.
fn farthest(c: &Vec<Candidate>) -> (r: usize)
    requires
        c@.len() > 0,
    ensures
        r == farthest_upto(c@, c@.len() as int),
        r < c@.len(),
{
    let mut best: usize = 0;
    let mut i: usize = 1;
    while i < c.len()
        invariant
            1 <= i <= c@.len(),
            best == farthest_upto(c@, i as int),
            best < i,
        decreases c@.len() - i,
    {
        if c[i].0 > c[best].0 {
            best = i;
        }
        i = i + 1;
    }
    best
}

/// How many candidates carry the label `l`.
fn count_of(c: &Vec<Candidate>, l: usize) -> (r: usize)
    ensures
        r == count_label(c@, l),
{
    let mut n: usize = 0;
    let mut i: usize = 0;
    while i < c.len()
        invariant
            i <= c@.len(),
            n <= i,
            n == count_upto(c@, l, i as int),
        decreases c@.len() - i,
    {
        if c[i].1 == l {
            n = n + 1;
        }
        i = i + 1;
    }
    n
}

/// The majority label of the candidates, the smallest on ties.
fn majority(c: &Vec<Candidate>) -> (r: usize)
    requires
        c@.len() > 0,
    ensures
        r == vote(c@),
{
    let mut best: usize = c[0].1;
    let mut best_count = count_of(c, best);
    let mut i: usize = 1;
    while i < c.len()
        invariant
            1 <= i <= c@.len(),
            best == vote_upto(c@, i as int),
            best_count == count_label(c@, best),
        decreases c@.len() - i,
    {
        let l = c[i].1;
        let n = count_of(c, l);
        if n > best_count || (n == best_count && l < best) {
            best = l;
            best_count = n;
        }
        i = i + 1;
    }
    best
}

impl KNearestNeighbors {
    /// The training rows.
    pub closed spec fn training_rows(&self) -> Seq<Seq<i32>> {
        rows_of(self.xs@)
    }

    /// The training labels.
    pub closed spec fn training_labels(&self) -> Seq<usize> {
        self.ys@
    }

    /// The number of neighbours that vote.
    pub closed spec fn neighbors_spec(&self) -> int {
        self.neighbors as int
    }

    /// At least one neighbour votes, and there is one label per training row.
    pub open spec fn wf(&self) -> bool {
        &&& self.neighbors_spec() >= 1
        &&& self.training_rows().len() == self.training_labels().len()
    }

    /// A classifier with `neighbors` voting neighbours and no training data yet.
    pub fn new(neighbors: usize) -> (r: KNearestNeighbors)
        requires
            neighbors >= 1,
        ensures
            r.wf(),
            r.neighbors_spec() == neighbors,
            r.training_rows().len() == 0,
            r.training_labels().len() == 0,
    {
        let r = KNearestNeighbors { neighbors, xs: Vec::new(), ys: Vec::new() };
        assert(r.training_rows() =~= Seq::<Seq<i32>>::empty());
        r
    }

    /// The label predicted for the single row `x`.
    fn predict_row(&self, x: &Vec<i32>) -> (r: usize)
        requires
            self.wf(),
            self.training_rows().len() > 0,
            forall|t: int|
                0 <= t < self.training_rows().len() ==> (#[trigger] self.training_rows()[t]).len()
                    == x@.len(),
        ensures
            r == predicted(x@, self.training_rows(), self.training_labels(), self.neighbors_spec()),
    {
        let ghost train = self.training_rows();
        let ghost ys = self.training_labels();
        let ghost k = self.neighbors_spec();
        let n = self.xs.len();
        let mut c: Vec<Candidate> = Vec::new();
        let mut t: usize = 0;
        while t < n
            invariant
                train == self.training_rows(),
                ys == self.training_labels(),
                k == self.neighbors_spec(),
                self.wf(),
                n == train.len(),
                t <= n,
                forall|j: int| 0 <= j < n ==> (#[trigger] train[j]).len() == x@.len(),
                c@ == candidates(x@, train, ys, k, t as int),
            decreases n - t,
        {
            proof {
                lemma_candidates_shape(x@, train, ys, k, t as int);
            }
            assert(train[t as int] == self.xs@[t as int]@);
            let d = squared_distance(x, &self.xs[t]);
            let y = self.ys[t];
            if c.len() < self.neighbors {
                c.push((d, y));
            } else {
                let w = farthest(&c);
                if d < c[w].0 {
                    c.set(w, (d, y));
                }
            }
            t = t + 1;
        }
        proof {
            lemma_candidates_shape(x@, train, ys, k, n as int);
        }
        majority(&c)
    }
}

impl Supervised for KNearestNeighbors {
    open spec fn accepts(&self, xs: Seq<Vec<i32>>) -> bool {
        &&& self.wf()
        &&& self.training_rows().len() > 0
        &&& forall|q: int, t: int|
            0 <= q < xs.len() && 0 <= t < self.training_rows().len() ==> (#[trigger] xs[q])@.len()
                == (#[trigger] self.training_rows()[t]).len()
    }

    open spec fn labels_for(&self, xs: Seq<Vec<i32>>) -> Seq<usize> {
        Seq::new(
            xs.len(),
            |q: int|
                predicted(
                    xs[q]@,
                    self.training_rows(),
                    self.training_labels(),
                    self.neighbors_spec(),
                ),
        )
    }

    /// Keeps copies of `xs` and `ys` as the training data.
    fn fit(&mut self, xs: &Vec<Vec<i32>>, ys: &Vec<usize>) -> (r: Result<(), DimensionMismatch>)
        ensures
            r.is_ok() ==> final(self).training_rows() == rows_of(xs@),
            r.is_ok() ==> final(self).training_labels() == ys@,
            final(self).neighbors_spec() == old(self).neighbors_spec(),
            old(self).wf() ==> final(self).wf(),
    {
        if xs.len() != ys.len() {
            return Err(DimensionMismatch { rows: xs.len(), labels: ys.len() });
        }
        let mut rows: Vec<Vec<i32>> = Vec::new();
        let mut i: usize = 0;
        while i < xs.len()
            invariant
                i <= xs@.len(),
                rows@.len() == i,
                forall|j: int| 0 <= j < i ==> #[trigger] rows@[j]@ == xs@[j]@,
            decreases xs@.len() - i,
        {
            rows.push(copy_row(&xs[i]));
            i = i + 1;
        }
        let mut labels: Vec<usize> = Vec::new();
        let mut i: usize = 0;
        while i < ys.len()
            invariant
                i <= ys@.len(),
                labels@ == ys@.subrange(0, i as int),
            decreases ys@.len() - i,
        {
            labels.push(ys[i]);
            i = i + 1;
        }
        assert(labels@ =~= ys@);
        assert(rows_of(rows@) =~= rows_of(xs@));
        self.xs = rows;
        self.ys = labels;
        Ok(())
    }

    /// Labels each row of `xs` by a vote of its `neighbors` nearest training
    /// rows: the label most of them carry, the smallest on ties. A training row
    /// displaces a kept one only when strictly nearer than the farthest kept
    /// one, so among equally distant rows the earlier ones are kept.
    fn predict(&self, xs: &Vec<Vec<i32>>) -> (r: Vec<usize>) {
        let mut out: Vec<usize> = Vec::new();
        let n = xs.len();
        let mut i: usize = 0;
        while i < n
            invariant
                n == xs@.len(),
                i <= n,
                self.accepts(xs@),
                out@ == self.labels_for(xs@).subrange(0, i as int),
            decreases n - i,
        {
            let l = self.predict_row(&xs[i]);
            out.push(l);
            i = i + 1;
        }
        assert(out@ =~= self.labels_for(xs@));
        out
    }
}

proof fn lemma_vote_upto(s: Seq<Candidate>, n: int)
    requires
        1 <= n <= s.len(),
    ensures
        exists|j: int| 0 <= j < n && (#[trigger] s[j]).1 == vote_upto(s, n),
        forall|j: int|
            0 <= j < n ==> (#[trigger] s[j]).1 == vote_upto(s, n) || beats(s, vote_upto(s, n), s[j].1),
    decreases n,
{
    if n == 1 {
        assert(s[0].1 == vote_upto(s, n));
    } else {
        lemma_vote_upto(s, n - 1);
        let b = vote_upto(s, n - 1);
        let j0 = choose|j: int| 0 <= j < n - 1 && (#[trigger] s[j]).1 == b;
        if beats(s, s[n - 1].1, b) {
            assert(s[n - 1].1 == vote_upto(s, n));
        } else {
            assert(s[j0].1 == vote_upto(s, n));
        }
    }
}

/// The vote picks the label held by the most candidates, and of several such
/// labels the smallest.
pub proof fn lemma_vote_is_majority(s: Seq<Candidate>)
    requires
        s.len() > 0,
    ensures
        is_majority(s, vote(s)),
{
    lemma_vote_upto(s, s.len() as int);
    let v = vote(s);
    assert forall|i: int| 0 <= i < s.len() implies count_label(s, (#[trigger] s[i]).1) < count_label(
        s,
        v,
    ) || (count_label(s, s[i].1) == count_label(s, v) && v <= s[i].1) by {
        if s[i].1 != v {
            assert(beats(s, v, s[i].1));
        }
    }
}

/// Candidates number `min(n, k)`, and each carries the label of one of the
/// first `n` training rows.
pub proof fn lemma_candidates_shape(
    x: Seq<i32>,
    train: Seq<Seq<i32>>,
    ys: Seq<usize>,
    k: int,
    n: int,
)
    requires
        k >= 1,
        0 <= n <= train.len(),
        train.len() == ys.len(),
    ensures
        candidates(x, train, ys, k, n).len() == if n < k {
            n
        } else {
            k
        },
        forall|i: int|
            0 <= i < candidates(x, train, ys, k, n).len() ==> exists|t: int|
                0 <= t < n && #[trigger] ys[t] == (#[trigger] candidates(x, train, ys, k, n)[i]).1,
    decreases n,
{
    if n > 0 {
        lemma_candidates_shape(x, train, ys, k, n - 1);
        let prev = candidates(x, train, ys, k, n - 1);
        let cur = candidates(x, train, ys, k, n);
        if prev.len() >= k {
            lemma_farthest_upto(prev, prev.len() as int);
        }
        assert forall|i: int| 0 <= i < cur.len() implies exists|t: int|
            0 <= t < n && #[trigger] ys[t] == (#[trigger] cur[i]).1 by {
            if cur[i] == prev[i] && i < prev.len() {
                let t = choose|t: int| 0 <= t < n - 1 && #[trigger] ys[t] == prev[i].1;
                assert(ys[t] == cur[i].1);
            } else {
                assert(ys[n - 1] == cur[i].1);
            }
        }
    }
}

proof fn lemma_farthest_upto(s: Seq<Candidate>, n: int)
    requires
        1 <= n <= s.len(),
    ensures
        0 <= farthest_upto(s, n) < n,
        forall|j: int| 0 <= j < n ==> (#[trigger] s[j]).0 <= s[farthest_upto(s, n)].0,
    decreases n,
{
    if n > 1 {
        lemma_farthest_upto(s, n - 1);
    }
}

/// Every predicted label is the label of some training row.
pub proof fn lemma_prediction_is_a_training_label(
    x: Seq<i32>,
    train: Seq<Seq<i32>>,
    ys: Seq<usize>,
    k: int,
)
    requires
        k >= 1,
        train.len() > 0,
        train.len() == ys.len(),
    ensures
        exists|t: int| 0 <= t < ys.len() && #[trigger] ys[t] == predicted(x, train, ys, k),
{
    let s = candidates(x, train, ys, k, train.len() as int);
    lemma_candidates_shape(x, train, ys, k, train.len() as int);
    lemma_vote_upto(s, s.len() as int);
    let j = choose|j: int| 0 <= j < s.len() && (#[trigger] s[j]).1 == vote(s);
    let t = choose|t: int| 0 <= t < train.len() && #[trigger] ys[t] == (#[trigger] s[j]).1;
    assert(ys[t] == predicted(x, train, ys, k));
}

} // verus!
