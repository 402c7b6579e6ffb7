//! The elastic measures over batches of series, and over single pairs.
use vstd::prelude::*;
use crate::cost::{CellCost, Dtw, Wdtw, Adtw, Erp, Lcss, Msm, Twe};
use crate::engine::{admits_all, run_batch, pair_value, min_int};
use crate::wavefront::in_grid;
use crate::layout::{round_up, padded, all_len, packed_series, flatten_and_pad, next_multiple_of_n, lemma_round_up_bounds};
use crate::wavefront::{dp, lemma_dp_congruent};

verus! {

/// Why a batch is rejected before any work.
#[derive(Clone, Copy, Debug, PartialEq, Eq, Structural)]
pub enum InputError {
    /// A collection, or its series, is empty.
    EmptyInput,
    /// The series of one collection differ in length.
    UnequalLengths,
    /// The WDTW weights are not as long as the longer series.
    WeightsLength,
    /// The padded buffers or the ring diagonals would not fit in memory.
    TooLarge,
}

pub open spec fn max_int(a: int, b: int) -> int {
    if a >= b { a } else { b }
}

/// The buffers of a run fit: padded lengths up to `2^48` samples, packed
/// buffers and ring diagonals (under `4 * (max(pa, pb) + 1)` cells a pair)
/// within the address space.
pub open spec fn sizes_fit(a_count: int, b_count: int, pa: int, pb: int) -> bool {
    &&& pa <= 0x1_0000_0000_0000
    &&& pb <= 0x1_0000_0000_0000
    &&& a_count * pa <= usize::MAX
    &&& b_count * pb <= usize::MAX
    &&& a_count * b_count * (4 * (max_int(pa, pb) + 1)) <= usize::MAX
}

/// The error that a batch `(a, b)` with warp width `w` is rejected with, if any.
pub open spec fn batch_error<T>(a: Seq<Vec<T>>, b: Seq<Vec<T>>, w: int) -> Option<InputError> {
    if a.len() == 0 || b.len() == 0 || a[0]@.len() == 0 || b[0]@.len() == 0 {
        Some(InputError::EmptyInput)
    } else if !all_len(a, a[0]@.len() as int) || !all_len(b, b[0]@.len() as int) {
        Some(InputError::UnequalLengths)
    } else if !sizes_fit(
        a.len() as int,
        b.len() as int,
        round_up(a[0]@.len() as int, w),
        round_up(b[0]@.len() as int, w),
    ) {
        Some(InputError::TooLarge)
    } else {
        None
    }
}

/// The measure on the pair `(x, y)`, with `x` padded to `px` samples and `y`
/// to `py`: the last cell of the cost matrix, the shorter padded series in
/// the row role.
pub open spec fn engine_value<M: CellCost>(m: M, x: Seq<i32>, y: Seq<i32>, px: int, py: int) -> u64 {
    if px <= py {
        dp(m, padded(x, px, 0), padded(y, py, 0), px - 1, py - 1)
    } else {
        dp(m, padded(y, py, 0), padded(x, px, 0), py - 1, px - 1)
    }
}

/// Entry `(i, j)` of the batch result of `(a, b)`.
pub open spec fn batch_value<M: CellCost>(m: M, a: Seq<Vec<i32>>, b: Seq<Vec<i32>>, w: int, i: int, j: int) -> u64 {
    engine_value(
        m,
        a[i]@,
        b[j]@,
        round_up(a[0]@.len() as int, w),
        round_up(b[0]@.len() as int, w),
    )
}

/// The measure can update every cell of a pair padded to `pa` and `pb`
/// samples, the shorter one in the row role.
pub open spec fn admits_pair<M: CellCost>(m: M, pa: int, pb: int) -> bool {
    admits_all(m, if pa <= pb { pa } else { pb }, if pa <= pb { pb } else { pa })
}

/// The measure can update every cell of the padded pairs of the batch.
pub open spec fn admits_batch<M: CellCost>(m: M, a: Seq<Vec<i32>>, b: Seq<Vec<i32>>, w: int) -> bool {
    admits_pair(m, round_up(a[0]@.len() as int, w), round_up(b[0]@.len() as int, w))
}

/// `r` is the `a.len()` by `b.len()` matrix of the measure on the batch.
pub open spec fn is_batch_result<M: CellCost>(
    m: M,
    a: Seq<Vec<i32>>,
    b: Seq<Vec<i32>>,
    w: int,
    r: Seq<Vec<u64>>,
) -> bool {
    &&& r.len() == a.len()
    &&& forall|i: int| 0 <= i < a.len() ==> (#[trigger] r[i])@.len() == b.len()
    &&& forall|i: int, j: int|
        0 <= i < a.len() && 0 <= j < b.len() ==> #[trigger] r[i]@[j] == batch_value(m, a, b, w, i, j)
}

/// Checks a batch as `batch_error` says, before any work.
pub fn check_batch<T>(a: &Vec<Vec<T>>, b: &Vec<Vec<T>>, w: u64) -> (r: Option<InputError>)
    requires
        0 < w <= 0x1_0000,
    ensures
        r == batch_error(a@, b@, w as int),
{
    if a.len() == 0 || b.len() == 0 || a[0].len() == 0 || b[0].len() == 0 {
        return Some(InputError::EmptyInput);
    }
    let la = a[0].len();
    let lb = b[0].len();
    let mut i: usize = 0;
    while i < a.len()
        invariant
            0 <= i <= a@.len(),
            a@.len() > 0,
            b@.len() > 0,
            a@[0]@.len() > 0,
            b@[0]@.len() > 0,
            la == a@[0]@.len(),
            forall|i2: int| 0 <= i2 < i ==> (#[trigger] a@[i2])@.len() == la,
        decreases a@.len() - i,
    {
        if a[i].len() != la {
            return Some(InputError::UnequalLengths);
        }
        i = i + 1;
    }
    let mut j: usize = 0;
    while j < b.len()
        invariant
            0 <= j <= b@.len(),
            a@.len() > 0,
            b@.len() > 0,
            a@[0]@.len() > 0,
            b@[0]@.len() > 0,
            la == a@[0]@.len(),
            lb == b@[0]@.len(),
            all_len(a@, la as int),
            forall|j2: int| 0 <= j2 < j ==> (#[trigger] b@[j2])@.len() == lb,
        decreases b@.len() - j,
    {
        if b[j].len() != lb {
            return Some(InputError::UnequalLengths);
        }
        j = j + 1;
    }
    if la as u64 > 0x1_0000_0000_0000 || lb as u64 > 0x1_0000_0000_0000 {
        proof {
            assert(round_up(la as int, w as int) >= la) by (nonlinear_arith)
                requires w > 0, la >= 0;
            assert(round_up(lb as int, w as int) >= lb) by (nonlinear_arith)
                requires w > 0, lb >= 0;
        }
        return Some(InputError::TooLarge);
    }
    let pa = next_multiple_of_n(la as u64, w);
    let pb = next_multiple_of_n(lb as u64, w);
    if pa > 0x1_0000_0000_0000 || pb > 0x1_0000_0000_0000 {
        return Some(InputError::TooLarge);
    }
    let ac = a.len() as u64;
    let bc = b.len() as u64;
    let per_pair: u64 = 4 * ((if pa >= pb { pa } else { pb }) + 1);
    proof {
        assert(ac * bc * per_pair >= ac * bc) by (nonlinear_arith)
            requires per_pair >= 1, ac >= 0, bc >= 0;
    }
    let a_total = match ac.checked_mul(pa) {
        Some(t) => t,
        None => {
            return Some(InputError::TooLarge);
        },
    };
    let b_total = match bc.checked_mul(pb) {
        Some(t) => t,
        None => {
            return Some(InputError::TooLarge);
        },
    };
    let pairs = match ac.checked_mul(bc) {
        Some(t) => t,
        None => {
            return Some(InputError::TooLarge);
        },
    };
    let cells = match pairs.checked_mul(per_pair) {
        Some(t) => t,
        None => {
            return Some(InputError::TooLarge);
        },
    };
    if a_total > usize::MAX as u64 || b_total > usize::MAX as u64 || cells > usize::MAX as u64 {
        Some(InputError::TooLarge)
    } else {
        None
    }
}

/// Series `i` of a packed buffer, as the engine reads it, agrees with the
/// padded series up to its padded length.
proof fn lemma_packed_read<M: CellCost>(
    m: M,
    a_pack: Seq<i32>,
    b_pack: Seq<i32>,
    pa: int,
    pb: int,
    i: int,
    j: int,
    x: Seq<i32>,
    y: Seq<i32>,
)
    requires
        0 <= i,
        0 <= j,
        pa > 0,
        pb > 0,
        (i + 1) * pa <= a_pack.len(),
        (j + 1) * pb <= b_pack.len(),
        packed_series(a_pack, i, pa) == padded(x, pa, 0),
        packed_series(b_pack, j, pb) == padded(y, pb, 0),
    ensures
        pair_value(m, a_pack, b_pack, pa, pb, i, j) == dp(m, padded(x, pa, 0), padded(y, pb, 0), pa - 1, pb - 1),
{
    assert(i * pa + pa == (i + 1) * pa && j * pb + pb == (j + 1) * pb) by (nonlinear_arith);
    assert(i * pa >= 0 && j * pb >= 0) by (nonlinear_arith)
        requires i >= 0, j >= 0, pa > 0, pb > 0;
    let sa = a_pack.skip(i * pa);
    let sb = b_pack.skip(j * pb);
    assert forall|t: int| 0 <= t <= pa - 1 implies #[trigger] sa[t] == padded(x, pa, 0)[t] by {
        assert(packed_series(a_pack, i, pa)[t] == a_pack[i * pa + t]);
    }
    assert forall|t: int| 0 <= t <= pb - 1 implies #[trigger] sb[t] == padded(y, pb, 0)[t] by {
        assert(packed_series(b_pack, j, pb)[t] == b_pack[j * pb + t]);
    }
    lemma_dp_congruent(m, sa, sb, padded(x, pa, 0), padded(y, pb, 0), pa - 1, pb - 1);
}

/// `r` is what a run of the measure `m` on the batch `(a, b)` returns: the
/// batch's error, or the matrix of the measure on every pair.
pub open spec fn batch_outcome<M: CellCost>(
    m: M,
    a: Seq<Vec<i32>>,
    b: Seq<Vec<i32>>,
    w: int,
    r: Result<Vec<Vec<u64>>, InputError>,
) -> bool {
    match batch_error(a, b, w) {
        Some(e) => r == Err::<Vec<Vec<u64>>, InputError>(e),
        None => r is Ok && is_batch_result(m, a, b, w, r->Ok_0@),
    }
}

/// Rows become columns: `r[j][i] == t[i][j]`.
pub fn transpose<T: Copy>(t: &Vec<Vec<T>>, rows: usize, cols: usize) -> (r: Vec<Vec<T>>)
    requires
        t@.len() == rows,
        forall|i: int| 0 <= i < rows ==> (#[trigger] t@[i])@.len() == cols,
    ensures
        r@.len() == cols,
        forall|j: int| 0 <= j < cols ==> (#[trigger] r@[j])@.len() == rows,
        forall|i: int, j: int| 0 <= i < rows && 0 <= j < cols ==> #[trigger] r@[j]@[i] == t@[i]@[j],
{
    let mut r: Vec<Vec<T>> = Vec::new();
    let mut j: usize = 0;
    while j < cols
        invariant
            j <= cols,
            t@.len() == rows,
            forall|i: int| 0 <= i < rows ==> (#[trigger] t@[i])@.len() == cols,
            r@.len() == j,
            forall|j2: int| 0 <= j2 < j ==> (#[trigger] r@[j2])@.len() == rows,
            forall|i: int, j2: int| 0 <= i < rows && 0 <= j2 < j ==> #[trigger] r@[j2]@[i] == t@[i]@[j2],
        decreases cols - j,
    {
        let mut col: Vec<T> = Vec::new();
        let mut i: usize = 0;
        while i < rows
            invariant
                i <= rows,
                j < cols,
                t@.len() == rows,
                forall|i2: int| 0 <= i2 < rows ==> (#[trigger] t@[i2])@.len() == cols,
                col@.len() == i,
                forall|i2: int| 0 <= i2 < i ==> #[trigger] col@[i2] == t@[i2]@[j as int],
            decreases rows - i,
        {
            col.push(t[i][j]);
            i = i + 1;
        }
        r.push(col);
        j = j + 1;
    }
    r
}

/// The measure `m` on every pair of the batch `(a, b)`, computed by the
/// diamond wavefront with warp width `w`: the shorter padded collection
/// takes the row role, and the result is laid out as `a.len()` rows of
/// `b.len()` values either way.
pub fn diamond_partitioning<M: CellCost>(m: &M, a: &Vec<Vec<i32>>, b: &Vec<Vec<i32>>, w: u64) -> (r: Result<
    Vec<Vec<u64>>,
    InputError,
>)
    requires
        0 < w <= 0x1_0000,
        batch_error(a@, b@, w as int) is None ==> admits_batch(*m, a@, b@, w as int),
    ensures
        batch_outcome(*m, a@, b@, w as int, r),
{
    match check_batch(a, b, w) {
        Some(e) => {
            return Err(e);
        },
        None => {},
    }
    proof {
        lemma_round_up_bounds(a@[0]@.len() as int, w as int);
        lemma_round_up_bounds(b@[0]@.len() as int, w as int);
    }
    let pa = next_multiple_of_n(a[0].len() as u64, w);
    let pb = next_multiple_of_n(b[0].len() as u64, w);
    let a_pack = flatten_and_pad(a, w as usize, 0);
    let b_pack = flatten_and_pad(b, w as usize, 0);
    let ghost ac = a@.len() as int;
    let ghost bc = b@.len() as int;
    if pa <= pb {
        let res = run_batch(m, &a_pack, &b_pack, a.len() as u64, b.len() as u64, pa, pb, w);
        proof {
            assert forall|i: int, j: int| 0 <= i < ac && 0 <= j < bc implies #[trigger] res@[i]@[j]
                == batch_value(*m, a@, b@, w as int, i, j) by {
                assert((i + 1) * pa <= ac * pa && (j + 1) * pb <= bc * pb) by (nonlinear_arith)
                    requires i < ac, j < bc, pa >= 0, pb >= 0;
                assert(packed_series(a_pack@, i, pa as int) == padded(a@[i]@, pa as int, 0));
                assert(packed_series(b_pack@, j, pb as int) == padded(b@[j]@, pb as int, 0));
                lemma_packed_read(*m, a_pack@, b_pack@, pa as int, pb as int, i, j, a@[i]@, b@[j]@);
            }
        }
        Ok(res)
    } else {
        let res_t = run_batch(m, &b_pack, &a_pack, b.len() as u64, a.len() as u64, pb, pa, w);
        let res = transpose(&res_t, b.len(), a.len());
        proof {
            assert forall|i: int, j: int| 0 <= i < ac && 0 <= j < bc implies #[trigger] res@[i]@[j]
                == batch_value(*m, a@, b@, w as int, i, j) by {
                assert((i + 1) * pa <= ac * pa && (j + 1) * pb <= bc * pb) by (nonlinear_arith)
                    requires i < ac, j < bc, pa >= 0, pb >= 0;
                assert(res@[i]@[j] == res_t@[j]@[i]);
                assert(packed_series(a_pack@, i, pa as int) == padded(a@[i]@, pa as int, 0));
                assert(packed_series(b_pack@, j, pb as int) == padded(b@[j]@, pb as int, 0));
                lemma_packed_read(*m, b_pack@, a_pack@, pb as int, pa as int, j, i, b@[j]@, a@[i]@);
            }
        }
        Ok(res)
    }
}

/// `s` padded with `zero`, or cut, to `len` values.
fn pad_series<T: Copy>(s: &Vec<T>, len: usize, zero: T) -> (r: Vec<T>)
    ensures
        r@ == padded(s@, len as int, zero),
{
    let mut r: Vec<T> = Vec::new();
    let mut t: usize = 0;
    while t < len
        invariant
            t <= len,
            r@.len() == t,
            forall|t2: int| 0 <= t2 < t ==> #[trigger] r@[t2] == padded(s@, len as int, zero)[t2],
        decreases len - t,
    {
        let v = if t < s.len() { s[t] } else { zero };
        r.push(v);
        t = t + 1;
    }
    assert(r@ =~= padded(s@, len as int, zero));
    r
}

/// Dynamic time warping on every pair of the batch.
pub fn dtw(a: &Vec<Vec<i32>>, b: &Vec<Vec<i32>>, w: u64) -> (r: Result<Vec<Vec<u64>>, InputError>)
    requires
        0 < w <= 0x1_0000,
    ensures
        batch_outcome(Dtw {}, a@, b@, w as int, r),
{
    diamond_partitioning(&Dtw {}, a, b, w)
}

/// Amerced dynamic time warping, with amercement `penalty`, on every pair.
pub fn adtw(a: &Vec<Vec<i32>>, b: &Vec<Vec<i32>>, penalty: u64, w: u64) -> (r: Result<Vec<Vec<u64>>, InputError>)
    requires
        0 < w <= 0x1_0000,
    ensures
        batch_outcome(Adtw { w: penalty }, a@, b@, w as int, r),
{
    diamond_partitioning(&Adtw { w: penalty }, a, b, w)
}

/// Edit distance with real penalty, with gap value `gap_penalty`, on every pair.
pub fn erp(a: &Vec<Vec<i32>>, b: &Vec<Vec<i32>>, gap_penalty: i32, w: u64) -> (r: Result<Vec<Vec<u64>>, InputError>)
    requires
        0 < w <= 0x1_0000,
    ensures
        batch_outcome(Erp { gap_penalty }, a@, b@, w as int, r),
{
    diamond_partitioning(&Erp { gap_penalty }, a, b, w)
}

/// Longest-common-subsequence similarity, matching samples within
/// `epsilon`, on every pair: the number of matched samples of the padded
/// series. The padding zeros match one another, so the distance is
/// `1 - s / n` with `n = lcss_min_len(|a|, |b|, w)`, the shorter padded
/// length, which is never below `s`: `0` for a series against itself, and
/// in `[0, 1]` throughout.
pub fn lcss(a: &Vec<Vec<i32>>, b: &Vec<Vec<i32>>, epsilon: u64, w: u64) -> (r: Result<Vec<Vec<u64>>, InputError>)
    requires
        0 < w <= 0x1_0000,
    ensures
        batch_outcome(Lcss { epsilon }, a@, b@, w as int, r),
{
    diamond_partitioning(&Lcss { epsilon }, a, b, w)
}

/// Move-split-merge on every pair.
pub fn msm(a: &Vec<Vec<i32>>, b: &Vec<Vec<i32>>, w: u64) -> (r: Result<Vec<Vec<u64>>, InputError>)
    requires
        0 < w <= 0x1_0000,
    ensures
        batch_outcome(Msm {}, a@, b@, w as int, r),
{
    diamond_partitioning(&Msm {}, a, b, w)
}

/// Time warp edit distance, with `stiffness` and `penalty`, on every pair.
pub fn twe(a: &Vec<Vec<i32>>, b: &Vec<Vec<i32>>, stiffness: u64, penalty: u64, w: u64) -> (r: Result<
    Vec<Vec<u64>>,
    InputError,
>)
    requires
        0 < w <= 0x1_0000,
    ensures
        batch_outcome(Twe { stiffness, penalty }, a@, b@, w as int, r),
{
    diamond_partitioning(&Twe { stiffness, penalty }, a, b, w)
}

/// The error of a WDTW batch: the batch's own, else a weight vector that is
/// not as long as the longer series.
pub open spec fn wdtw_error(a: Seq<Vec<i32>>, b: Seq<Vec<i32>>, weights: Seq<u64>, w: int) -> Option<InputError> {
    match batch_error(a, b, w) {
        Some(e) => Some(e),
        None => if weights.len() != max_int(a[0]@.len() as int, b[0]@.len() as int) {
            Some(InputError::WeightsLength)
        } else {
            None
        },
    }
}

/// Weighted dynamic time warping on every pair, with `weights[d]` the weight
/// of cells `d` off the diagonal; past the series' length (in the padding)
/// the weight is `0`.
pub fn wdtw(a: &Vec<Vec<i32>>, b: &Vec<Vec<i32>>, weights: &Vec<u64>, w: u64) -> (r: Result<
    Vec<Vec<u64>>,
    InputError,
>)
    requires
        0 < w <= 0x1_0000,
    ensures
        wdtw_error(a@, b@, weights@, w as int) is Some ==> r == Err::<Vec<Vec<u64>>, InputError>(
            wdtw_error(a@, b@, weights@, w as int)->Some_0,
        ),
        wdtw_error(a@, b@, weights@, w as int) is None ==> exists|m: Wdtw|
            #![trigger m.weights]
            m.weights@ == padded(
                weights@,
                max_int(round_up(a@[0]@.len() as int, w as int), round_up(b@[0]@.len() as int, w as int)),
                0,
            ) && batch_outcome(m, a@, b@, w as int, r),
{
    match check_batch(a, b, w) {
        Some(e) => {
            return Err(e);
        },
        None => {},
    }
    let la = a[0].len();
    let lb = b[0].len();
    let longest = if la >= lb { la } else { lb };
    if weights.len() != longest {
        return Err(InputError::WeightsLength);
    }
    proof {
        lemma_round_up_bounds(la as int, w as int);
        lemma_round_up_bounds(lb as int, w as int);
    }
    let pa = next_multiple_of_n(la as u64, w);
    let pb = next_multiple_of_n(lb as u64, w);
    let padded_len = if pa >= pb { pa } else { pb };
    proof {
        assert(pa <= a@.len() * pa && pb <= b@.len() * pb) by (nonlinear_arith)
            requires a@.len() >= 1, b@.len() >= 1, pa >= 0, pb >= 0;
    }
    let m = Wdtw { weights: pad_series(weights, padded_len as usize, 0) };
    proof {
        let pmin = if pa <= pb { pa as int } else { pb as int };
        let pmax = if pa <= pb { pb as int } else { pa as int };
        assert forall|i: int, j: int| in_grid(i, j, pmin, pmax) implies #[trigger] m.admits(i, j) by {
        }
    }
    let r = diamond_partitioning(&m, a, b, w);
    assert(m.weights@ == padded(weights@, max_int(pa as int, pb as int), 0));
    r
}

/// The error of a single pair: an empty series, or one too long.
pub open spec fn single_error(a: Seq<i32>, b: Seq<i32>, w: int) -> Option<InputError> {
    if a.len() == 0 || b.len() == 0 {
        Some(InputError::EmptyInput)
    } else if !sizes_fit(1, 1, round_up(a.len() as int, w), round_up(b.len() as int, w)) {
        Some(InputError::TooLarge)
    } else {
        None
    }
}

/// The measure on a single pair, as the engine computes it.
pub open spec fn single_value<M: CellCost>(m: M, a: Seq<i32>, b: Seq<i32>, w: int) -> u64 {
    engine_value(m, a, b, round_up(a.len() as int, w), round_up(b.len() as int, w))
}

/// A copy of `s`.
fn copy_series(s: &Vec<i32>) -> (r: Vec<i32>)
    ensures
        r@ == s@,
{
    pad_series(s, s.len(), 0)
}

/// The measure `m` on the single pair `(a, b)`: one series each, and a one
/// by one result.
pub fn single_distance<M: CellCost>(m: &M, a: &Vec<i32>, b: &Vec<i32>, w: u64) -> (r: Result<u64, InputError>)
    requires
        0 < w <= 0x1_0000,
        single_error(a@, b@, w as int) is None ==> admits_pair(
            *m,
            round_up(a@.len() as int, w as int),
            round_up(b@.len() as int, w as int),
        ),
    ensures
        single_error(a@, b@, w as int) is Some ==> r == Err::<u64, InputError>(
            single_error(a@, b@, w as int)->Some_0,
        ),
        single_error(a@, b@, w as int) is None ==> r == Ok::<u64, InputError>(single_value(*m, a@, b@, w as int)),
{
    let mut a_batch: Vec<Vec<i32>> = Vec::new();
    a_batch.push(copy_series(a));
    let mut b_batch: Vec<Vec<i32>> = Vec::new();
    b_batch.push(copy_series(b));
    proof {
        assert(a_batch@[0]@ == a@ && b_batch@[0]@ == b@);
        assert(a_batch@.len() == 1 && b_batch@.len() == 1);
        assert(all_len(a_batch@, a@.len() as int) && all_len(b_batch@, b@.len() as int));
        assert(batch_error(a_batch@, b_batch@, w as int) == single_error(a@, b@, w as int));
    }
    match diamond_partitioning(m, &a_batch, &b_batch, w) {
        Ok(res) => {
            proof {
                assert(batch_value(*m, a_batch@, b_batch@, w as int, 0, 0) == single_value(*m, a@, b@, w as int));
            }
            Ok(res[0][0])
        },
        Err(e) => Err(e),
    }
}

/// The length that normalises an LCSS similarity: the shorter of the two
/// padded lengths, `min(round_up(a_len, w), round_up(b_len, w))`.
pub fn lcss_min_len(a_len: u64, b_len: u64, w: u64) -> (r: u64)
    requires
        0 < w <= 0x1_0000,
        a_len <= 0x1_0000_0000_0000,
        b_len <= 0x1_0000_0000_0000,
    ensures
        r == min_int(round_up(a_len as int, w as int), round_up(b_len as int, w as int)),
{
    let pa = next_multiple_of_n(a_len, w);
    let pb = next_multiple_of_n(b_len, w);
    if pa <= pb { pa } else { pb }
}

} // verus!
