//! Laws that relate the measures' results to one another.
use vstd::prelude::*;
use crate::cost::{CellCost, Dtw, Wdtw, Adtw, Erp, Lcss, Msm, Twe, dist, sat_mul};
use crate::layout::{round_up, padded, all_len, lemma_round_up_bounds, lemma_padding_invariance};
use crate::measures::{
    InputError, batch_error, batch_value, engine_value, single_error, single_value, sizes_fit, max_int,
};
use crate::wavefront::{dp, lemma_dp_symmetric, lemma_dp_unfold, lemma_dp_boundary};
use crate::engine::min_int;

verus! {

/// Exchanging the two series leaves the engine's value unchanged.
pub proof fn lemma_engine_value_symmetric<M: CellCost>(m: M, x: Seq<i32>, y: Seq<i32>, px: int, py: int)
    ensures
        engine_value(m, x, y, px, py) == engine_value(m, y, x, py, px),
{
    if px == py {
        lemma_dp_symmetric(m, padded(x, px, 0), padded(y, py, 0), px - 1, py - 1);
    }
}

/// Symmetry: every measure gives the same value on `(x, y)` and on `(y, x)`.
pub proof fn lemma_symmetry<M: CellCost>(m: M, x: Seq<i32>, y: Seq<i32>, w: int)
    ensures
        single_value(m, x, y, w) == single_value(m, y, x, w),
{
    lemma_engine_value_symmetric(m, x, y, round_up(x.len() as int, w), round_up(y.len() as int, w));
}

/// Sort invariance: the batch of `(b, a)` is the transpose of the batch of
/// `(a, b)`, whichever collection takes the row role.
pub proof fn lemma_sort_invariance<M: CellCost>(m: M, a: Seq<Vec<i32>>, b: Seq<Vec<i32>>, w: int, i: int, j: int)
    ensures
        batch_value(m, b, a, w, j, i) == batch_value(m, a, b, w, i, j),
{
    lemma_engine_value_symmetric(
        m,
        a[i]@,
        b[j]@,
        round_up(a[0]@.len() as int, w),
        round_up(b[0]@.len() as int, w),
    );
}

/// Batch consistency: a batch that is accepted has every pair accepted on
/// its own, and entry `(i, j)` of the batch is the single result on
/// `(a[i], b[j])`.
pub proof fn lemma_batch_consistency<M: CellCost>(m: M, a: Seq<Vec<i32>>, b: Seq<Vec<i32>>, w: int, i: int, j: int)
    requires
        w > 0,
        batch_error(a, b, w) is None,
        0 <= i < a.len(),
        0 <= j < b.len(),
    ensures
        single_error(a[i]@, b[j]@, w) is None,
        batch_value(m, a, b, w, i, j) == single_value(m, a[i]@, b[j]@, w),
{
    assert(a[i]@.len() == a[0]@.len());
    assert(b[j]@.len() == b[0]@.len());
    let pa = round_up(a[0]@.len() as int, w);
    let pb = round_up(b[0]@.len() as int, w);
    lemma_round_up_bounds(a[0]@.len() as int, w);
    lemma_round_up_bounds(b[0]@.len() as int, w);
    let c = 4 * (max_int(pa, pb) + 1);
    assert(pa <= a.len() * pa && pb <= b.len() * pb && c <= a.len() * b.len() * c) by (nonlinear_arith)
        requires a.len() >= 1, b.len() >= 1, pa >= 0, pb >= 0, c >= 0;
    assert(a.len() * pa <= usize::MAX);
    assert(a.len() * b.len() * c <= usize::MAX);
    assert(1 * pa == pa && 1 * pb == pb && 1 * 1 * c == c) by (nonlinear_arith);
    assert(sizes_fit(1, 1, pa, pb));
}

/// Padding invariance: appending zeros that stay within the padded length
/// of a series does not change the value of any measure on it.
pub proof fn lemma_zero_padding_invariance<M: CellCost>(m: M, x: Seq<i32>, y: Seq<i32>, extra: nat, w: int)
    requires
        w > 0,
        x.len() + extra <= round_up(x.len() as int, w),
    ensures
        single_value(m, x + Seq::new(extra, |t: int| 0i32), y, w) == single_value(m, x, y, w),
{
    let x2 = x + Seq::new(extra, |t: int| 0i32);
    let p = round_up(x.len() as int, w);
    lemma_round_up_bounds(x.len() as int, w);
    lemma_round_up_bounds(x2.len() as int, w);
    let q1 = (x.len() + w - 1) / w;
    let q2 = (x2.len() + w - 1) / w;
    assert(q1 == q2) by (nonlinear_arith)
        requires
            q1 == (x.len() + w - 1) / w,
            q2 == (x2.len() + w - 1) / w,
            x.len() <= x2.len(),
            x2.len() <= q1 * w,
            w > 0;
    assert(round_up(x2.len() as int, w) == p);
    lemma_padding_invariance(x, extra, p, 0i32);
}

/// Cells of the diagonal of the matrix of `(s, s)` are `0` where the update
/// gives `0` on a diagonal cell whose corner neighbour is `0`.
proof fn lemma_zero_diagonal<M: CellCost>(m: M, s: Seq<i32>, i: int)
    requires
        forall|x: u64, z: u64, k: int| 0 <= k <= i ==> #[trigger] m.cell_spec(x, 0, z, k, k, s, s) == 0,
    ensures
        dp(m, s, s, i, i) == 0,
    decreases i + 1,
{
    if i < 0 {
        lemma_dp_boundary(m, s, s, i, i);
    } else {
        lemma_zero_diagonal(m, s, i - 1);
        lemma_dp_unfold(m, s, s, i, i);
        assert(m.cell_spec(dp(m, s, s, i, i - 1), 0, dp(m, s, s, i - 1, i), i, i, s, s) == 0);
    }
}

/// Identity of dynamic time warping: `DTW(x, x) == 0`.
pub proof fn lemma_identity_dtw(x: Seq<i32>, w: int)
    ensures
        single_value(Dtw {}, x, x, w) == 0,
{
    let p = round_up(x.len() as int, w);
    let s = padded(x, p, 0);
    assert forall|xx: u64, zz: u64, k: int| 0 <= k <= p - 1 implies #[trigger] (Dtw {}).cell_spec(xx, 0, zz, k, k, s, s) == 0 by {
        let v = s[k] as int;
        assert(dist(v, v) == 0);
        assert(dist(v, v) * dist(v, v) == 0);
        assert(dist(k, k) == 0);
        assert(forall|c: int| #[trigger] sat_mul(c, 0) == 0 && sat_mul(0, c) == 0);
    }
    lemma_zero_diagonal(Dtw {}, padded(x, p, 0), p - 1);
}

/// Identity of weighted dynamic time warping: `WDTW(x, x) == 0`.
pub proof fn lemma_identity_wdtw(m: Wdtw, x: Seq<i32>, w: int)
    ensures
        single_value(m, x, x, w) == 0,
{
    let p = round_up(x.len() as int, w);
    let s = padded(x, p, 0);
    assert forall|xx: u64, zz: u64, k: int| 0 <= k <= p - 1 implies #[trigger] (m).cell_spec(xx, 0, zz, k, k, s, s) == 0 by {
        let v = s[k] as int;
        assert(dist(v, v) == 0);
        assert(dist(v, v) * dist(v, v) == 0);
        assert(dist(k, k) == 0);
        assert(forall|c: int| #[trigger] sat_mul(c, 0) == 0 && sat_mul(0, c) == 0);
    }
    lemma_zero_diagonal(m, padded(x, p, 0), p - 1);
}

/// Identity of amerced dynamic time warping: `ADTW(x, x) == 0`.
pub proof fn lemma_identity_adtw(m: Adtw, x: Seq<i32>, w: int)
    ensures
        single_value(m, x, x, w) == 0,
{
    let p = round_up(x.len() as int, w);
    let s = padded(x, p, 0);
    assert forall|xx: u64, zz: u64, k: int| 0 <= k <= p - 1 implies #[trigger] (m).cell_spec(xx, 0, zz, k, k, s, s) == 0 by {
        let v = s[k] as int;
        assert(dist(v, v) == 0);
        assert(dist(v, v) * dist(v, v) == 0);
        assert(dist(k, k) == 0);
        assert(forall|c: int| #[trigger] sat_mul(c, 0) == 0 && sat_mul(0, c) == 0);
    }
    lemma_zero_diagonal(m, padded(x, p, 0), p - 1);
}

/// Identity of the edit distance with real penalty: `ERP(x, x) == 0`.
pub proof fn lemma_identity_erp(m: Erp, x: Seq<i32>, w: int)
    ensures
        single_value(m, x, x, w) == 0,
{
    let p = round_up(x.len() as int, w);
    lemma_zero_diagonal(m, padded(x, p, 0), p - 1);
}

/// Identity of move-split-merge: `MSM(x, x) == 0`.
pub proof fn lemma_identity_msm(x: Seq<i32>, w: int)
    ensures
        single_value(Msm {}, x, x, w) == 0,
{
    let p = round_up(x.len() as int, w);
    lemma_zero_diagonal(Msm {}, padded(x, p, 0), p - 1);
}

/// Identity of the time warp edit distance: `TWE(x, x) == 0`.
pub proof fn lemma_identity_twe(m: Twe, x: Seq<i32>, w: int)
    ensures
        single_value(m, x, x, w) == 0,
{
    let p = round_up(x.len() as int, w);
    let s = padded(x, p, 0);
    assert forall|xx: u64, zz: u64, k: int| 0 <= k <= p - 1 implies #[trigger] (m).cell_spec(xx, 0, zz, k, k, s, s) == 0 by {
        let v = s[k] as int;
        assert(dist(v, v) == 0);
        assert(dist(v, v) * dist(v, v) == 0);
        assert(dist(k, k) == 0);
        assert(forall|c: int| #[trigger] sat_mul(c, 0) == 0 && sat_mul(0, c) == 0);
    }
    lemma_zero_diagonal(m, padded(x, p, 0), p - 1);
}

/// Cell `(i, i)` of the LCSS matrix of `(s, s)` matches all `i + 1` samples.
proof fn lemma_lcss_diagonal(m: Lcss, s: Seq<i32>, i: int)
    requires
        i < 0x1_0000_0000,
    ensures
        dp(m, s, s, i, i) == (if i < 0 { 0 } else { i + 1 }),
    decreases i + 1,
{
    if i < 0 {
        lemma_dp_boundary(m, s, s, i, i);
    } else {
        lemma_lcss_diagonal(m, s, i - 1);
        lemma_dp_unfold(m, s, s, i, i);
    }
}

/// Identity of LCSS: a series matches all of its padded samples against
/// itself, so that `1 - s / n` is `0` for `n = lcss_min_len(|x|, |x|, w)`,
/// its padded length.
pub proof fn lemma_identity_lcss(m: Lcss, x: Seq<i32>, w: int)
    requires
        w > 0,
        round_up(x.len() as int, w) < 0x1_0000_0000,
    ensures
        single_value(m, x, x, w) == round_up(x.len() as int, w),
{
    let p = round_up(x.len() as int, w);
    lemma_round_up_bounds(x.len() as int, w);
    lemma_lcss_diagonal(m, padded(x, p, 0), p - 1);
}

/// An LCSS cell `(i, j)` matches at most `min(i, j) + 1` samples.
proof fn lemma_lcss_cell_bounded(m: Lcss, a: Seq<i32>, b: Seq<i32>, i: int, j: int)
    requires
        i >= -1,
        j >= -1,
        i < 0x1_0000_0000,
        j < 0x1_0000_0000,
    ensures
        dp(m, a, b, i, j) <= (if i <= j { i } else { j }) + 1,
    decreases i + j + 2,
{
    if i < 0 || j < 0 {
        lemma_dp_boundary(m, a, b, i, j);
    } else {
        lemma_lcss_cell_bounded(m, a, b, i, j - 1);
        lemma_lcss_cell_bounded(m, a, b, i - 1, j - 1);
        lemma_lcss_cell_bounded(m, a, b, i - 1, j);
        lemma_dp_unfold(m, a, b, i, j);
    }
}

/// Non-negativity of the LCSS distance: the similarity never exceeds the
/// shorter padded length `n` (`lcss_min_len`), so `1 - s / n` lies in
/// `[0, 1]`.
pub proof fn lemma_lcss_similarity_bounded(m: Lcss, x: Seq<i32>, y: Seq<i32>, w: int)
    requires
        w > 0,
        x.len() > 0,
        y.len() > 0,
        round_up(x.len() as int, w) < 0x1_0000_0000,
        round_up(y.len() as int, w) < 0x1_0000_0000,
    ensures
        single_value(m, x, y, w) <= min_int(round_up(x.len() as int, w), round_up(y.len() as int, w)),
{
    let px = round_up(x.len() as int, w);
    let py = round_up(y.len() as int, w);
    lemma_round_up_bounds(x.len() as int, w);
    lemma_round_up_bounds(y.len() as int, w);
    if px <= py {
        lemma_lcss_cell_bounded(m, padded(x, px, 0), padded(y, py, 0), px - 1, py - 1);
    } else {
        lemma_lcss_cell_bounded(m, padded(y, py, 0), padded(x, px, 0), py - 1, px - 1);
    }
}

/// The diagonal of the batch of `(a, a)` holds each series against itself.
pub proof fn lemma_batch_diagonal<M: CellCost>(m: M, a: Seq<Vec<i32>>, w: int, i: int)
    requires
        0 <= i < a.len(),
        all_len(a, a[0]@.len() as int),
    ensures
        batch_value(m, a, a, w, i, i) == single_value(m, a[i]@, a[i]@, w),
{
    assert(a[i]@.len() == a[0]@.len());
}

/// Identity of DTW in a batch: `dtw(A, A)[i][i] == 0`.
pub proof fn lemma_identity_batch_dtw(a: Seq<Vec<i32>>, w: int, i: int)
    requires
        0 <= i < a.len(),
        all_len(a, a[0]@.len() as int),
    ensures
        batch_value(Dtw {}, a, a, w, i, i) == 0,
{
    lemma_batch_diagonal(Dtw {}, a, w, i);
    lemma_identity_dtw(a[i]@, w);
}

/// Identity of WDTW in a batch: `wdtw(A, A)[i][i] == 0`.
pub proof fn lemma_identity_batch_wdtw(m: Wdtw, a: Seq<Vec<i32>>, w: int, i: int)
    requires
        0 <= i < a.len(),
        all_len(a, a[0]@.len() as int),
    ensures
        batch_value(m, a, a, w, i, i) == 0,
{
    lemma_batch_diagonal(m, a, w, i);
    lemma_identity_wdtw(m, a[i]@, w);
}

/// Identity of ADTW in a batch: `adtw(A, A)[i][i] == 0`.
pub proof fn lemma_identity_batch_adtw(m: Adtw, a: Seq<Vec<i32>>, w: int, i: int)
    requires
        0 <= i < a.len(),
        all_len(a, a[0]@.len() as int),
    ensures
        batch_value(m, a, a, w, i, i) == 0,
{
    lemma_batch_diagonal(m, a, w, i);
    lemma_identity_adtw(m, a[i]@, w);
}

/// Identity of ERP in a batch: `erp(A, A)[i][i] == 0`.
pub proof fn lemma_identity_batch_erp(m: Erp, a: Seq<Vec<i32>>, w: int, i: int)
    requires
        0 <= i < a.len(),
        all_len(a, a[0]@.len() as int),
    ensures
        batch_value(m, a, a, w, i, i) == 0,
{
    lemma_batch_diagonal(m, a, w, i);
    lemma_identity_erp(m, a[i]@, w);
}

/// Identity of MSM in a batch: `msm(A, A)[i][i] == 0`.
pub proof fn lemma_identity_batch_msm(a: Seq<Vec<i32>>, w: int, i: int)
    requires
        0 <= i < a.len(),
        all_len(a, a[0]@.len() as int),
    ensures
        batch_value(Msm {}, a, a, w, i, i) == 0,
{
    lemma_batch_diagonal(Msm {}, a, w, i);
    lemma_identity_msm(a[i]@, w);
}

/// Identity of TWE in a batch: `twe(A, A)[i][i] == 0`.
pub proof fn lemma_identity_batch_twe(m: Twe, a: Seq<Vec<i32>>, w: int, i: int)
    requires
        0 <= i < a.len(),
        all_len(a, a[0]@.len() as int),
    ensures
        batch_value(m, a, a, w, i, i) == 0,
{
    lemma_batch_diagonal(m, a, w, i);
    lemma_identity_twe(m, a[i]@, w);
}

/// Identity of LCSS in a batch: `lcss(A, A)[i][i]` is the padded length, so
/// the distance `1 - s / lcss_min_len(..)` is `0`.
pub proof fn lemma_identity_batch_lcss(m: Lcss, a: Seq<Vec<i32>>, w: int, i: int)
    requires
        w > 0,
        0 <= i < a.len(),
        all_len(a, a[0]@.len() as int),
        round_up(a[0]@.len() as int, w) < 0x1_0000_0000,
    ensures
        batch_value(m, a, a, w, i, i) == round_up(a[0]@.len() as int, w),
{
    lemma_batch_diagonal(m, a, w, i);
    assert(a[i]@.len() == a[0]@.len());
    lemma_identity_lcss(m, a[i]@, w);
}

} // verus!
