//! The diamond scheduler: the rows of diamonds that one run dispatches, in order.
//!
//! A diamond is a `w` by `w` tile of a pair's cost matrix, filled one
//! anti-diagonal after another. Row `r` of the schedule holds the tiles
//! `(ta, tb)` with `ta + tb == r`, from the lowest `tb` up.
use vstd::prelude::*;

verus! {

/// Parameters of one dispatch of the warp kernel.
#[derive(Clone, Copy, Debug, PartialEq, Eq, Structural)]
pub struct RowDispatch {
    /// Index of the row, which is also the index of the dispatch.
    pub row: u64,
    /// Line (`j - i`) of the top-left cell of the leftmost diamond, minus `w`.
    pub first_coord: i64,
    /// Number of diamonds in the row.
    pub diamonds_count: u64,
    /// Row of the cost matrix where the leftmost diamond starts.
    pub a_start: u64,
    /// Column of the cost matrix where the leftmost diamond starts.
    pub b_start: u64,
}

/// Tile row (in units of `w`) of the leftmost diamond of row `r`.
pub open spec fn lead_tile_a(r: int, a_tiles: int) -> int {
    if r < a_tiles - 1 { r } else { a_tiles - 1 }
}

/// Number of tiles `(ta, tb)` with `ta + tb == r` inside an `a_tiles` by
/// `b_tiles` grid, for `0 <= r < a_tiles + b_tiles - 1` and `a_tiles <= b_tiles`.
pub open spec fn row_diamonds(r: int, a_tiles: int, b_tiles: int) -> int {
    let ta = lead_tile_a(r, a_tiles);
    let tb = r - ta;
    (if ta <= b_tiles - 1 - tb { ta } else { b_tiles - 1 - tb }) + 1
}

/// `d` is row `r` of the schedule of an `a_tiles` by `b_tiles` grid of
/// diamonds of width `w`.
pub open spec fn row_matches(d: RowDispatch, r: int, a_tiles: int, b_tiles: int, w: int) -> bool {
    let ta = lead_tile_a(r, a_tiles);
    &&& d.row == r
    &&& d.a_start == w * ta
    &&& d.b_start == w * (r - ta)
    &&& d.diamonds_count == row_diamonds(r, a_tiles, b_tiles)
    &&& d.first_coord == d.b_start - d.a_start - w
}

/// What the scheduler asks of its input: both padded lengths are positive
/// multiples of `w`, and the shorter series is in the `A` role.
pub open spec fn schedule_input_ok(padded_a_len: int, padded_b_len: int, w: int) -> bool {
    &&& w > 0
    &&& padded_a_len > 0
    &&& padded_a_len <= padded_b_len
    &&& padded_a_len % w == 0
    &&& padded_b_len % w == 0
    &&& padded_b_len <= 0x1_0000_0000_0000
}

/// The rows of dispatches for padded lengths `padded_a_len <= padded_b_len`:
/// `a_tiles + b_tiles - 1` rows, the wave widening, crossing the plateau, and
/// contracting.
pub fn schedule_rows(padded_a_len: u64, padded_b_len: u64, w: u64) -> (r: Vec<RowDispatch>)
    requires
        schedule_input_ok(padded_a_len as int, padded_b_len as int, w as int),
    ensures
        r@.len() == padded_a_len / w + padded_b_len / w - 1,
        forall|i: int|
            0 <= i < r@.len() ==> row_matches(
                #[trigger] r@[i],
                i,
                (padded_a_len / w) as int,
                (padded_b_len / w) as int,
                w as int,
            ),
{
    let n_tiles_in_a = padded_a_len / w;
    let n_tiles_in_b = padded_b_len / w;
    proof {
        assert(n_tiles_in_a >= 1 && n_tiles_in_a <= n_tiles_in_b) by (nonlinear_arith)
            requires
                n_tiles_in_a == padded_a_len / w,
                n_tiles_in_b == padded_b_len / w,
                padded_a_len % w == 0,
                padded_a_len > 0,
                w > 0,
                padded_a_len <= padded_b_len;
        assert(w * n_tiles_in_a == padded_a_len && w * n_tiles_in_b == padded_b_len)
            by (nonlinear_arith)
            requires
                n_tiles_in_a == padded_a_len / w,
                n_tiles_in_b == padded_b_len / w,
                padded_a_len % w == 0,
                padded_b_len % w == 0,
                w > 0;
        assert(w <= padded_b_len) by (nonlinear_arith)
            requires w * n_tiles_in_b == padded_b_len, n_tiles_in_b >= 1, w > 0;
        assert(w * 0 == 0);
    }
    let rows_count = n_tiles_in_a + n_tiles_in_b - 1;
    let ghost a_t = n_tiles_in_a as int;
    let ghost b_t = n_tiles_in_b as int;

    let mut out: Vec<RowDispatch> = Vec::new();
    let mut diamonds_count: u64 = 1;
    let wi: i64 = w as i64;
    let mut first_coord: i64 = -wi;
    let mut a_start: u64 = 0;
    let mut b_start: u64 = 0;
    let mut i: u64 = 0;
    while i < rows_count
        invariant
            a_t == n_tiles_in_a,
            b_t == n_tiles_in_b,
            1 <= a_t <= b_t,
            w * a_t == padded_a_len,
            w * b_t == padded_b_len,
            padded_b_len <= 0x1_0000_0000_0000,
            w > 0,
            w <= padded_b_len,
            wi == w,
            padded_a_len <= padded_b_len,
            rows_count == a_t + b_t - 1,
            i <= rows_count,
            out@.len() == i,
            forall|r: int| 0 <= r < i ==> row_matches(#[trigger] out@[r], r, a_t, b_t, w as int),
            i < rows_count ==> row_matches(
                RowDispatch { row: i, first_coord, diamonds_count, a_start, b_start },
                i as int,
                a_t,
                b_t,
                w as int,
            ),
        decreases rows_count - i,
    {
        let ghost ta = lead_tile_a(i as int, a_t);
        proof {
            assert(w * ta <= padded_a_len && w * (i - ta) <= padded_b_len) by (nonlinear_arith)
                requires
                    w * a_t == padded_a_len,
                    w * b_t == padded_b_len,
                    ta <= a_t - 1,
                    i - ta <= b_t - 1,
                    ta >= 0,
                    w > 0;
        }
        assert(first_coord == b_start - a_start - w);
        assert(a_start <= padded_a_len && b_start <= padded_b_len);
        out.push(RowDispatch { row: i, first_coord, diamonds_count, a_start, b_start });
        if i < n_tiles_in_a - 1 {
            proof {
                assert(w * (ta + 1) == w * ta + w) by (nonlinear_arith);
            }
            diamonds_count = diamonds_count + 1;
            first_coord = first_coord - wi;
            a_start = a_start + w;
        } else if i < n_tiles_in_b - 1 {
            proof {
                assert(w * (i + 1 - ta) == w * (i - ta) + w) by (nonlinear_arith);
            }
            first_coord = first_coord + wi;
            b_start = b_start + w;
        } else {
            proof {
                assert(w * (i + 1 - ta) == w * (i - ta) + w) by (nonlinear_arith);
            }
            diamonds_count = diamonds_count - 1;
            first_coord = first_coord + wi;
            b_start = b_start + w;
        }
        i = i + 1;
    }
    out
}

} // verus!
