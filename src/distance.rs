//! Rows of a dataset and the squared Euclidean distance between them.
use vstd::prelude::*;

verus! {

/// The largest square of the difference of two `i32` values.
pub open spec fn max_sq_term() -> int {
    0xffff_ffffint * 0xffff_ffffint
}

/// Every row of `xs` has exactly `width` features.
pub open spec fn has_width(xs: Seq<Vec<i32>>, width: int) -> bool {
    forall|i: int| 0 <= i < xs.len() ==> (#[trigger] xs[i])@.len() == width
}

/// All rows of `xs` have the same number of features.
pub open spec fn is_rectangular(xs: Seq<Vec<i32>>) -> bool {
    xs.len() > 0 ==> has_width(xs, xs[0]@.len() as int)
}

/// The features of each row of `xs`.
pub open spec fn rows_of(xs: Seq<Vec<i32>>) -> Seq<Seq<i32>> {
    xs.map_values(|v: Vec<i32>| v@)
}

/// Squared Euclidean distance: the sum of the squared per-feature differences.
pub open spec fn sq_dist(a: Seq<i32>, b: Seq<i32>) -> int
    decreases a.len(),
{
    if a.len() == 0 {
        0
    } else {
        let d = a.last() - b.last();
        sq_dist(a.drop_last(), b.drop_last()) + d * d
    }
}

proof fn lemma_sq_term_bound(x: i32, y: i32)
    ensures
        0 <= (x - y) * (x - y) <= max_sq_term(),
{
    let d: int = x - y;
    let m: int = 0xffff_ffff;
    assert(-m <= d <= m);
    assert(0 <= d * d <= m * m) by (nonlinear_arith)
        requires
            -m <= d <= m,
    ;
}

/// The squared Euclidean distance between two rows of equal width.
pub fn squared_distance(a: &Vec<i32>, b: &Vec<i32>) -> (r: u128)
    requires
        a@.len() == b@.len(),
    ensures
        r == sq_dist(a@, b@),
{
    let n = a.len();
    let mut acc: u128 = 0;
    let mut i: usize = 0;
    while i < n
        invariant
            n == a@.len() == b@.len(),
            i <= n,
            acc == sq_dist(a@.subrange(0, i as int), b@.subrange(0, i as int)),
            acc <= i * max_sq_term(),
        decreases n - i,
    {
        let diff: i64 = a[i] as i64 - b[i] as i64;
        let mag: u64 = if diff < 0 { (-diff) as u64 } else { diff as u64 };
        assert(mag <= 0xffff_ffff);
        assert((mag as u128) * (mag as u128) <= 0xffff_ffffint * 0xffff_ffffint) by (nonlinear_arith)
            requires
                mag <= 0xffff_ffff,
        ;
        let term: u128 = (mag as u128) * (mag as u128);
        proof {
            lemma_sq_term_bound(a@[i as int], b@[i as int]);
            assert(term == (a@[i as int] - b@[i as int]) * (a@[i as int] - b@[i as int]))
                by (nonlinear_arith)
                requires
                    mag == diff || mag == -diff,
                    diff == a@[i as int] - b@[i as int],
                    term == mag * mag,
            ;
            assert(a@.subrange(0, i + 1).drop_last() =~= a@.subrange(0, i as int));
            assert(b@.subrange(0, i + 1).drop_last() =~= b@.subrange(0, i as int));
            assert(acc + term <= (i + 1) * max_sq_term()) by (nonlinear_arith)
                requires
                    acc <= i * max_sq_term(),
                    term <= max_sq_term(),
            ;
            assert((i + 1) * max_sq_term() <= 0x1_0000_0000_0000_0000 * max_sq_term())
                by (nonlinear_arith)
                requires
                    i < n,
                    n <= usize::MAX,
                    max_sq_term() >= 0,
            ;
        }
        acc = acc + term;
        i = i + 1;
    }
    assert(a@.subrange(0, n as int) =~= a@);
    assert(b@.subrange(0, n as int) =~= b@);
    acc
}

/// A copy of the row `v`.
pub fn copy_row(v: &Vec<i32>) -> (r: Vec<i32>)
    ensures
        r@ == v@,
{
    let mut out: Vec<i32> = Vec::new();
    let mut i: usize = 0;
    while i < v.len()
        invariant
            i <= v@.len(),
            out@ == v@.subrange(0, i as int),
        decreases v@.len() - i,
    {
        out.push(v[i]);
        i = i + 1;
    }
    assert(out@ =~= v@);
    out
}

} // verus!
