//! Counts how many reference nearest-neighbour identifiers a result table
//! found.  The recall score is this count divided by the number of
//! reference entries; the division is left to the caller's reporting
//! layer, which works in its own numeric domain.

use vstd::prelude::*;

verus! {

/// How many entries of the reference row appear in the result row.
pub open spec fn row_hits(row: Seq<u32>, gt_row: Seq<u32>) -> int {
    gt_row.filter(|g: u32| row.contains(g)).len() as int
}

/// The hits of the first `i` row pairs, summed.
pub open spec fn hit_count(knns: Seq<Vec<u32>>, gt: Seq<Vec<u32>>, i: int) -> int
    decreases i,
{
    if i <= 0 {
        0
    } else {
        hit_count(knns, gt, i - 1) + row_hits(knns[i - 1]@, gt[i - 1]@)
    }
}

/// Whether `g` appears in `row`.
fn row_contains(row: &Vec<u32>, g: u32) -> (r: bool)
    ensures
        r == row@.contains(g),
{
    let mut j: usize = 0;
    let len = row.len();
    while j < len
        invariant
            j <= len,
            len == row@.len(),
            forall|x: int| 0 <= x < j ==> row@[x] != g,
        decreases len - j,
    {
        if row[j] == g {
            return true;
        }
        j = j + 1;
    }
    false
}

/// How many entries of `gt_row` appear in `row`.
fn count_row_hits(row: &Vec<u32>, gt_row: &Vec<u32>) -> (r: u64)
    requires
        gt_row@.len() <= 0xffff_ffff,
    ensures
        r == row_hits(row@, gt_row@),
        r <= 0xffff_ffff,
{
    let mut hits: u64 = 0;
    let mut j: usize = 0;
    let len = gt_row.len();
    proof {
        reveal(Seq::filter);
        assert(gt_row@.take(0) =~= Seq::<u32>::empty());
    }
    while j < len
        invariant
            j <= len,
            len == gt_row@.len(),
            len <= 0xffff_ffff,
            hits == row_hits(row@, gt_row@.take(j as int)),
            hits <= j,
        decreases len - j,
    {
        if row_contains(row, gt_row[j]) {
            hits = hits + 1;
        }
        j = j + 1;
        proof {
            reveal(Seq::filter);
            let pred = |g: u32| row@.contains(g);
            let prev = gt_row@.take(j - 1);
            let cur = gt_row@.take(j as int);
            assert(cur.drop_last() =~= prev);
            assert(cur.last() == gt_row@[j - 1]);
            if pred(gt_row@[j - 1]) {
                assert(cur.filter(pred) =~= prev.filter(pred).push(gt_row@[j - 1]));
            } else {
                assert(cur.filter(pred) =~= prev.filter(pred));
            }
        }
    }
    proof {
        assert(gt_row@.take(len as int) =~= gt_row@);
    }
    hits
}

/// Counts, over all row pairs, how many reference identifiers the result
/// table found.  A recall fraction is this count divided by the total
/// number of reference entries.
pub fn knn_recall_hits(knns: &Vec<Vec<u32>>, gt: &Vec<Vec<u32>>) -> (r: u64)
    requires
        knns@.len() == gt@.len(),
        knns@.len() <= 0xffff_ffff,
        forall|i: int| 0 <= i < gt@.len() ==> (#[trigger] gt@[i])@.len() <= 0xffff_ffff,
    ensures
        r == hit_count(knns@, gt@, knns@.len() as int),
{
    let mut total: u64 = 0;
    let mut i: usize = 0;
    let n = knns.len();
    while i < n
        invariant
            i <= n,
            n == knns@.len() == gt@.len(),
            n <= 0xffff_ffff,
            forall|x: int| 0 <= x < gt@.len() ==> (#[trigger] gt@[x])@.len() <= 0xffff_ffff,
            total == hit_count(knns@, gt@, i as int),
            total <= i * 0xffff_ffff,
        decreases n - i,
    {
        let h = count_row_hits(&knns[i], &gt[i]);
        proof {
            assert(i * 0xffff_ffff + 0xffff_ffff == (i + 1) * 0xffff_ffff) by (nonlinear_arith);
            assert((i + 1) * 0xffff_ffff <= 0xffff_ffff * 0x1_0000_0000) by (nonlinear_arith)
                requires i + 1 <= 0x1_0000_0000;
        }
        total = total + h;
        i = i + 1;
    }
    total
}

} // verus!
