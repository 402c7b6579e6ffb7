//! Splitting a batch for the device: how many rows of `A` fit one storage
//! buffer of ring diagonals, the ranges of rows that each run takes, and the
//! size of each dispatch.
use vstd::prelude::*;

verus! {

/// Size of one ring cell on the device, in bytes.
pub const CELL_BYTES: u64 = 4;

/// Rows of `A` whose ring diagonals fit `max_buffer_bytes`, before clamping.
pub open spec fn raw_a_batch(max_buffer_bytes: int, diag_len: int, b_count: int) -> int {
    max_buffer_bytes / (diag_len * b_count * CELL_BYTES)
}

pub open spec fn clamp(x: int, lo: int, hi: int) -> int {
    if x < lo { lo } else if x > hi { hi } else { x }
}

/// Rows of `A` per run: `max_buffer_bytes / (diag_len * b_count * 4)`,
/// clamped to `[1, a_count]`. Where not even one row fits (see
/// `is_oversized`), one row per run is still tried.
pub fn max_a_batch(max_buffer_bytes: u64, diag_len: u64, b_count: u64, a_count: u64) -> (r: u64)
    requires
        diag_len > 0,
        b_count > 0,
        a_count > 0,
        diag_len * b_count * CELL_BYTES <= u64::MAX,
    ensures
        r == clamp(raw_a_batch(max_buffer_bytes as int, diag_len as int, b_count as int), 1, a_count as int),
{
    proof {
        assert(diag_len * b_count * CELL_BYTES > 0) by (nonlinear_arith)
            requires diag_len > 0, b_count > 0;
    }
    let raw = max_buffer_bytes / (diag_len * b_count * CELL_BYTES);
    if raw < 1 {
        1
    } else if raw > a_count {
        a_count
    } else {
        raw
    }
}

/// Not one row of `A` fits the buffer limit: the run goes on, and the device
/// may refuse the allocation.
pub fn is_oversized(max_buffer_bytes: u64, diag_len: u64, b_count: u64) -> (r: bool)
    requires
        diag_len > 0,
        b_count > 0,
        diag_len * b_count * CELL_BYTES <= u64::MAX,
    ensures
        r == (raw_a_batch(max_buffer_bytes as int, diag_len as int, b_count as int) == 0),
{
    proof {
        assert(diag_len * b_count * CELL_BYTES > 0) by (nonlinear_arith)
            requires diag_len > 0, b_count > 0;
    }
    max_buffer_bytes / (diag_len * b_count * CELL_BYTES) == 0
}

/// The rows `[start, end)` of `A` that run `k` of `max_batch` rows takes.
pub open spec fn batch_range(k: int, max_batch: int, a_count: int) -> (int, int) {
    let start = k * max_batch;
    (start, if start + max_batch <= a_count { start + max_batch } else { a_count })
}

/// Number of runs of `max_batch` rows that cover `a_count` rows.
pub open spec fn run_count(a_count: int, max_batch: int) -> int {
    (a_count + max_batch - 1) / (max_batch as int)
}

/// The runs that cover the rows of `A`, in order, `max_batch` rows each but
/// the last.
pub fn a_batch_ranges(a_count: u64, max_batch: u64) -> (r: Vec<(u64, u64)>)
    requires
        max_batch > 0,
        a_count + max_batch <= u64::MAX,
    ensures
        r@.len() == run_count(a_count as int, max_batch as int),
        forall|k: int|
            0 <= k < r@.len() ==> (#[trigger] r@[k]).0 == batch_range(k, max_batch as int, a_count as int).0
                && r@[k].1 == batch_range(k, max_batch as int, a_count as int).1,
{
    let mut r: Vec<(u64, u64)> = Vec::new();
    let mut start: u64 = 0;
    proof {
        assert(0 * max_batch == 0) by (nonlinear_arith);
        assert(a_count > 0 ==> run_count(a_count as int, max_batch as int) >= 1) by (nonlinear_arith)
            requires max_batch > 0;
        if a_count == 0 {
            assert((a_count + max_batch - 1) / (max_batch as int) == 0) by (nonlinear_arith)
                requires a_count == 0, max_batch > 0;
        }
    }
    while start < a_count
        invariant
            max_batch > 0,
            a_count + max_batch <= u64::MAX,
            start == r@.len() * max_batch,
            start <= a_count + max_batch,
            start <= a_count || r@.len() == run_count(a_count as int, max_batch as int),
            r@.len() <= run_count(a_count as int, max_batch as int),
            start < a_count ==> r@.len() < run_count(a_count as int, max_batch as int),
            start >= a_count ==> r@.len() == run_count(a_count as int, max_batch as int),
            forall|k: int|
                0 <= k < r@.len() ==> (#[trigger] r@[k]).0 == batch_range(k, max_batch as int, a_count as int).0
                    && r@[k].1 == batch_range(k, max_batch as int, a_count as int).1,
        decreases a_count + max_batch - start,
    {
        let end = if start + max_batch <= a_count { start + max_batch } else { a_count };
        let ghost n = r@.len();
        r.push((start, end));
        proof {
            assert(start + max_batch == (n + 1) * max_batch) by (nonlinear_arith)
                requires start == n * max_batch;
            let q = run_count(a_count as int, max_batch as int);
            assert(start + max_batch < a_count ==> n + 1 < q) by (nonlinear_arith)
                requires start + max_batch == (n + 1) * max_batch, q == (a_count + max_batch - 1) / (max_batch as int), max_batch > 0;
            assert(start + max_batch >= a_count ==> n + 1 == q) by (nonlinear_arith)
                requires
                    start + max_batch == (n + 1) * max_batch,
                    start < a_count,
                    start == n * max_batch,
                    q == (a_count + max_batch - 1) / (max_batch as int),
                    max_batch > 0;
        }
        start = start + max_batch;
    }
    r
}

/// Threads of one dispatch: `w` lanes for every diamond of the row, for each
/// of the `pairs` pairs.
pub fn dispatch_threads(pairs: u64, diamonds_count: u64, w: u64) -> (r: u64)
    requires
        w > 0,
        pairs * diamonds_count * w <= u64::MAX,
    ensures
        r == pairs * diamonds_count * w,
{
    proof {
        assert(pairs * diamonds_count <= pairs * diamonds_count * w) by (nonlinear_arith)
            requires w > 0;
    }
    pairs * diamonds_count * w
}

/// Work groups of `group_size` invocations that hold `threads` threads.
pub fn workgroup_count(threads: u64, group_size: u64) -> (r: u64)
    requires
        group_size > 0,
    ensures
        r == (threads + group_size - 1) / (group_size as int),
{
    let q = threads / group_size;
    let rem = threads % group_size;
    proof {
        assert(threads == q * group_size + rem && 0 <= rem < group_size) by (nonlinear_arith)
            requires q == threads / group_size, rem == threads % group_size, group_size > 0;
        assert(rem == 0 ==> (threads + group_size - 1) / (group_size as int) == q) by (nonlinear_arith)
            requires threads == q * group_size + rem, 0 <= rem < group_size, group_size > 0;
        assert(rem > 0 ==> (threads + group_size - 1) / (group_size as int) == q + 1 && q < u64::MAX)
            by (nonlinear_arith)
            requires threads == q * group_size + rem, 0 <= rem < group_size, group_size > 0, threads <= u64::MAX;
    }
    if rem == 0 { q } else { q + 1 }
}

} // verus!
