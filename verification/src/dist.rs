//! Exact squared Euclidean distance between integer coordinate vectors.

use vstd::prelude::*;

verus! {

/// Mathematical squared Euclidean distance: the sum over all positions of
/// the squared coordinate difference.  Meaningful when `a` and `b` have the
/// same length.
pub open spec fn sq_dist(a: Seq<i32>, b: Seq<i32>) -> int
    decreases a.len(),
{
    if a.len() == 0 {
        0
    } else {
        sq_dist(a.drop_last(), b.drop_last()) + (a.last() - b.last()) * (a.last() - b.last())
    }
}

/// Each term of `sq_dist` is a square, so the sum is non-negative and grows
/// by at most the largest possible square per coordinate.
pub proof fn lemma_sq_dist_bounds(a: Seq<i32>, b: Seq<i32>)
    requires
        a.len() == b.len(),
    ensures
        0 <= sq_dist(a, b) <= a.len() * 0x1_0000_0000_0000_0000,
    decreases a.len(),
{
    if a.len() == 0 {
    } else {
        lemma_sq_dist_bounds(a.drop_last(), b.drop_last());
        let d = a.last() - b.last();
        assert(-0xffff_ffff <= d <= 0xffff_ffff);
        assert(d * d <= 0x1_0000_0000_0000_0000) by (nonlinear_arith)
            requires -0x1_0000_0000 <= d <= 0x1_0000_0000;
        assert(0 <= d * d) by (nonlinear_arith);
        assert((a.len() - 1) * 0x1_0000_0000_0000_0000 + 0x1_0000_0000_0000_0000
            == a.len() * 0x1_0000_0000_0000_0000) by (nonlinear_arith);
    }
}

/// Computes the exact squared Euclidean distance between two vectors of
/// equal length.  The result fits in `u128` because each of the at most
/// `usize::MAX` terms is below `2^64`.
pub fn squared_distance(a: &Vec<i32>, b: &Vec<i32>) -> (r: u128)
    requires
        a@.len() == b@.len(),
        a@.len() <= 0xffff_ffff_ffff_ffff,
    ensures
        r == sq_dist(a@, b@),
{
    let n = a.len();
    let mut acc: u128 = 0;
    let mut i: usize = 0;
    while i < n
        invariant
            n == a@.len() == b@.len(),
            n <= 0xffff_ffff_ffff_ffff,
            0 <= i <= n,
            acc == sq_dist(a@.take(i as int), b@.take(i as int)),
            acc <= i * 0x1_0000_0000_0000_0000,
        decreases n - i,
    {
        let d: i64 = a[i] as i64 - b[i] as i64;
        proof {
            assert(-0x1_0000_0000 <= d <= 0x1_0000_0000);
            assert(0 <= (d as i128) * (d as i128) <= 0x1_0000_0000_0000_0000) by (nonlinear_arith)
                requires -0x1_0000_0000 <= d as i128 <= 0x1_0000_0000;
        }
        let sq: u128 = ((d as i128) * (d as i128)) as u128;
        proof {
            let ga = a@.take(i as int + 1);
            let gb = b@.take(i as int + 1);
            assert(ga.drop_last() =~= a@.take(i as int));
            assert(gb.drop_last() =~= b@.take(i as int));
            assert(ga.last() == a@[i as int] && gb.last() == b@[i as int]);
            assert(d * d <= 0x1_0000_0000_0000_0000) by (nonlinear_arith)
                requires -0x1_0000_0000 <= d <= 0x1_0000_0000;
            assert(0 <= d * d) by (nonlinear_arith);
            assert((i + 1) * 0x1_0000_0000_0000_0000
                == i * 0x1_0000_0000_0000_0000 + 0x1_0000_0000_0000_0000) by (nonlinear_arith);
            assert(i * 0x1_0000_0000_0000_0000 + 0x1_0000_0000_0000_0000
                <= 0xffff_ffff_ffff_ffff * 0x1_0000_0000_0000_0000 + 0x1_0000_0000_0000_0000)
                by (nonlinear_arith)
                requires i <= 0xffff_ffff_ffff_fffe;
        }
        acc = acc + sq;
        i = i + 1;
        proof {
            assert(acc == sq_dist(a@.take(i as int), b@.take(i as int)));
        }
    }
    proof {
        assert(a@.take(n as int) =~= a@);
        assert(b@.take(n as int) =~= b@);
    }
    acc
}

} // verus!
